//! The mapping operator: creating address spaces and inserting, removing and
//! updating the translation of single pages.

use vstd::prelude::*;
use crate::memory::addr::{
    index_bits, is_canonical, lemma_aligned_number, lemma_index_bits_bound, lemma_page_base,
    lemma_same_page, Page, PageTableLevel, PhysFrame,
};
use crate::memory::entry::{
    entry_address, entry_flags, entry_huge, entry_of, entry_present, is_flags, lemma_entry_of,
    ADDRESS_MASK,
    lemma_entry_parts, PageTableEntry, PageTableFlags, HUGE_PAGE, PARENT_FLAGS, PRESENT,
};
use crate::memory::frame_alloc::{
    free_frames, grows, is_used, lowest_free, BitmapFrameAllocator,
};
use crate::memory::page_table::{descend, lemma_root_number, next_table, GeneralPageTable};
use crate::memory::phys::{entry_at, frame_count, lemma_frame_words, same_frame, PhysMemory};
use crate::memory::walk::{
    entry_on_path, lemma_entry_on_path, lemma_linked_above_agree, lemma_linked_above_update,
    linked_above, agree_on, closed_under_links, descends, leads_to, lemma_closed_agree, lemma_create,
    lemma_leads_to_agree, lemma_leads_to_extend, lemma_leads_to_indices, lemma_leads_to_owned,
    lemma_leads_to_update, lemma_leads_to_walk, lemma_leaf_write, lemma_on_path_page,
    lemma_path_len, lemma_relink, lemma_walk_agree, level_at, lookup, lookup_from, path_of,
    resolve, same_link, walk, zeroed, Translation,
};

verus! {

/// Why a page could not be mapped.
#[derive(Clone, Copy, PartialEq, Eq, Structural, Debug)]
pub enum MapToError {
    /// A table was missing on the way and the allocator had no frame left.
    FrameAllocationFailed,
    /// The page lies in a huge page, which is never descended into.
    ParentEntryHugePage,
}

/// Why a page could not be unmapped.
#[derive(Clone, Copy, PartialEq, Eq, Structural, Debug)]
pub enum UnmapError {
    /// No translation existed for the page.
    NotMapped,
    /// The page lies in a huge page.
    ParentEntryHugePage,
}

/// Why the flags of a page could not be updated.
#[derive(Clone, Copy, PartialEq, Eq, Structural, Debug)]
pub enum FlagUpdateError {
    /// No translation existed for the page.
    NotMapped,
    /// The page lies in a huge page.
    ParentEntryHugePage,
}

/// The page whose cached translation is stale after a change. Whoever runs
/// with the changed address space active has to drop it from the cache.
#[derive(Clone, Copy, PartialEq, Eq, Structural, Debug)]
#[must_use]
pub struct MapperFlush {
    pub page: Page,
}

/// Whether `after` differs from `before` in frames of `frames` at most.
pub open spec fn only_touched(before: Seq<u64>, after: Seq<u64>, frames: Set<int>) -> bool {
    &&& after.len() == before.len()
    &&& forall|f: int|
        0 <= f < frame_count(before) && !frames.contains(f) ==> #[trigger] same_frame(
            before,
            after,
            f,
        )
}

/// Whether the frames that the allocator handed out between `before` and
/// `after` are the new tables, those of `now` that are not in `then`, and
/// were free before.
pub open spec fn taken_fresh(
    before: Seq<bool>,
    after: Seq<bool>,
    then: Set<int>,
    now: Set<int>,
) -> bool {
    &&& grows(before, after)
    &&& then.subset_of(now)
    &&& forall|f: int| #[trigger] now.contains(f) && !then.contains(f) ==> !is_used(before, f)
    &&& forall|f: int|
        0 <= f < after.len() && #[trigger] after[f] ==> before[f] || now.contains(f)
}

/// Whether a walk that ended at the entry `e` in a table of `level` ran into
/// a huge page, below which no table is reached or made.
pub open spec fn blocked(level: PageTableLevel, e: u64) -> bool {
    level != PageTableLevel::One && entry_present(e) && entry_huge(e)
}

/// The flags that a link to a table gets when `parent` is asked for: present
/// is added and huge-page taken out.
pub open spec fn link_flags(parent: u64) -> u64 {
    (parent | PRESENT) & !HUGE_PAGE
}

impl GeneralPageTable {
    /// A fresh address space: one top table, the free frame with the lowest
    /// address, with every entry cleared and so unused.
    pub fn new(mem: &mut PhysMemory, frame_allocator: &mut BitmapFrameAllocator) -> (r: Result<
        GeneralPageTable,
        MapToError,
    >)
        requires
            old(frame_allocator)@.len() <= frame_count(old(mem)@),
        ensures
            r.is_err() <==> free_frames(old(frame_allocator)@) == 0,
            r.is_err() ==> r == Err::<GeneralPageTable, MapToError>(
                MapToError::FrameAllocationFailed,
            ) && final(mem)@ == old(mem)@ && final(frame_allocator)@ == old(frame_allocator)@,
            r.is_ok() ==> {
                let space = r.unwrap();
                &&& space.wf(final(mem)@, final(frame_allocator)@)
                &&& space.tables().dom() == set![space.root()]
                &&& zeroed(final(mem)@, space.root())
                &&& lowest_free(old(frame_allocator)@, space.root())
                &&& final(frame_allocator)@ == old(frame_allocator)@.update(space.root(), true)
                &&& free_frames(final(frame_allocator)@) == free_frames(old(frame_allocator)@) - 1
                &&& only_touched(old(mem)@, final(mem)@, set![space.root()])
                &&& forall|addr: u64| #[trigger]
                    space.translation(final(mem)@, addr) == Translation::Unmapped
            },
    {
        match frame_allocator.allocate_frame() {
            None => Err(MapToError::FrameAllocationFailed),
            Some(frame) => {
                let number = frame.number() as usize;
                mem.zero_frame(number);
                let space = GeneralPageTable {
                    physical_address: frame.start_address(),
                    tables: Ghost(Map::empty().insert(number as int, Seq::empty())),
                };
                proof {
                    lemma_entry_parts(0);
                    lemma_frame_words(mem@, number as int);
                    assert(space.tables().dom() =~= set![space.root()]);
                    assert forall|addr: u64| #[trigger]
                        space.translation(mem@, addr) == Translation::Unmapped by {
                        lemma_index_bits_bound(addr);
                        assert(entry_at(
                            mem@,
                            number as int,
                            index_bits(addr, PageTableLevel::Four) as int,
                        ) == 0);
                    }
                    assert forall|f: int|
                        0 <= f < frame_count(old(mem)@) && f != number implies #[trigger] same_frame(
                        old(mem)@,
                        mem@,
                        f,
                    ) by {
                        lemma_frame_words(mem@, f);
                    }
                }
                Ok(space)
            },
        }
    }
}

/// What mapping `page` to `frame` under `flags` makes of the address space
/// `pre`, the memory `mem` and the allocator state `alloc`.
///
/// The walk for the page in the old memory decides. Where it ends at a
/// present entry above level one, the page lies in a huge page and nothing is
/// mapped. Else one table is missing for each level between the end of the
/// walk and level one. With fewer free frames than that, those there are
/// become tables on the way, so that the walk ends as many levels further
/// down, the allocator is left empty and no translation changes. With
/// enough, the addresses of the page translate as the new entry says and
/// every other address as before.
pub open spec fn map_post(
    pre: GeneralPageTable,
    mem: Seq<u64>,
    alloc: Seq<bool>,
    page: Page,
    frame: u64,
    flags: u64,
    post: GeneralPageTable,
    mem2: Seq<u64>,
    alloc2: Seq<bool>,
    r: Result<MapperFlush, MapToError>,
) -> bool {
    let (level, e) = walk(mem, pre.root(), page@, PageTableLevel::Four);
    let needed = level.spec_number() - 1;
    &&& post.physical_address == pre.physical_address
    &&& post.wf(mem2, alloc2)
    &&& only_touched(mem, mem2, post.tables().dom())
    &&& taken_fresh(alloc, alloc2, pre.tables().dom(), post.tables().dom())
    &&& match r {
        Err(MapToError::ParentEntryHugePage) => {
            &&& blocked(level, e)
            &&& alloc2 == alloc
            &&& forall|a: u64| #[trigger] post.translation(mem2, a) == pre.translation(mem, a)
        },
        Err(MapToError::FrameAllocationFailed) => {
            let (reached, last) = walk(mem2, post.root(), page@, PageTableLevel::Four);
            &&& !blocked(level, e)
            &&& free_frames(alloc) < needed
            &&& free_frames(alloc2) == 0
            &&& !entry_present(last)
            &&& reached.spec_number() + free_frames(alloc) == level.spec_number()
            &&& forall|a: u64| #[trigger] post.translation(mem2, a) == pre.translation(mem, a)
        },
        Ok(flush) => {
            &&& !blocked(level, e)
            &&& free_frames(alloc) >= needed
            &&& free_frames(alloc2) == free_frames(alloc) - needed
            &&& flush.page == page
            &&& walk(mem2, post.root(), page@, PageTableLevel::Four) == (
                PageTableLevel::One,
                entry_of(frame, flags),
            )
            &&& forall|a: u64| #[trigger]
                post.translation(mem2, a) == if page.contains(a) {
                    resolve(PageTableLevel::One, entry_of(frame, flags), a)
                } else {
                    pre.translation(mem, a)
                }
        },
    }
}

/// Whether each table entry on the way to the level-one entry for `addr`, in
/// the tree below the top table `root`, holds the flags `link`.
pub open spec fn links_flagged(mem: Seq<u64>, root: int, addr: u64, link: u64) -> bool {
    forall|level: PageTableLevel|
        level != PageTableLevel::One ==> entry_flags(
            #[trigger] entry_on_path(mem, root, addr, PageTableLevel::Four, level),
        ) & link == link
}

/// The flags of a link are flags, hold present and do not hold huge-page.
pub proof fn lemma_link_flags(parent: u64)
    requires
        is_flags(parent),
    ensures
        is_flags(link_flags(parent)),
        link_flags(parent) & PRESENT != 0,
        link_flags(parent) & HUGE_PAGE == 0,
        link_flags(parent) & link_flags(parent) == link_flags(parent),
{
    assert(parent & 0x000f_ffff_ffff_f000 == 0 ==> ((parent | 1) & !(1u64 << 7))
        & 0x000f_ffff_ffff_f000 == 0 && ((parent | 1) & !(1u64 << 7)) & 1 != 0 && ((parent | 1)
        & !(1u64 << 7)) & (1u64 << 7) == 0 && ((parent | 1) & !(1u64 << 7)) & ((parent | 1) & !(
    1u64 << 7)) == ((parent | 1) & !(1u64 << 7))) by (bit_vector);
}

/// Adding flags other than huge-page to a link leaves it a link to the same
/// table.
pub proof fn lemma_relink_entry(e: u64, t: u64)
    requires
        entry_present(e),
        !entry_huge(e),
        is_flags(t),
        t & HUGE_PAGE == 0,
    ensures
        entry_present(e | t),
        !entry_huge(e | t),
        entry_address(e | t) == entry_address(e),
        entry_flags(e | t) & t == t,
{
    assert(e & 1 != 0 && e & (1u64 << 7) == 0 && t & 0x000f_ffff_ffff_f000 == 0 && t & (1u64 << 7)
        == 0 ==> (e | t) & 1 != 0 && (e | t) & (1u64 << 7) == 0 && (e | t) & 0x000f_ffff_ffff_f000
        == e & 0x000f_ffff_ffff_f000 && ((e | t) & !0x000f_ffff_ffff_f000u64) & t == t)
        by (bit_vector);
}

/// The flags that tables take from a page are flags.
pub proof fn lemma_parent_flags(flags: u64)
    requires
        is_flags(flags),
    ensures
        is_flags(flags & PARENT_FLAGS),
        (flags & PARENT_FLAGS) & !ADDRESS_MASK == flags & PARENT_FLAGS,
{
    assert(flags & 0x000f_ffff_ffff_f000 == 0 ==> (flags & 7) & 0x000f_ffff_ffff_f000 == 0 && (
    flags & 7) & !0x000f_ffff_ffff_f000u64 == flags & 7) by (bit_vector);
}

impl GeneralPageTable {
    /// Stores `value` as the entry for `page` in `table`, the level-one table
    /// that the walk for the page passes through.
    pub(crate) fn set_leaf(
        &self,
        mem: &mut PhysMemory,
        page: Page,
        table: usize,
        value: PageTableEntry,
    )
        requires
            self.structured(old(mem)@),
            leads_to(
                old(mem)@,
                self.root(),
                PageTableLevel::Four,
                page@,
                table as int,
                PageTableLevel::One,
            ),
        ensures
            self.structured(final(mem)@),
            only_touched(old(mem)@, final(mem)@, self.tables().dom()),
            final(mem)@ == old(mem)@.update(
                table * 512 + index_bits(page@, PageTableLevel::One),
                value@,
            ),
            walk(final(mem)@, self.root(), page@, PageTableLevel::Four) == (
                PageTableLevel::One,
                value@,
            ),
            forall|a: u64| #[trigger]
                self.translation(final(mem)@, a) == if page.contains(a) {
                    resolve(PageTableLevel::One, value@, a)
                } else {
                    self.translation(old(mem)@, a)
                },
    {
        let addr = page.start_address();
        let index = addr.page_table_index(PageTableLevel::One) as usize;
        let ghost mem1 = mem@;
        let ghost root = self.root();
        proof {
            use_type_invariant(&page);
            lemma_path_len(page@, 0);
            assert(path_of(page@, 0) =~= Seq::<int>::empty());
            lemma_leads_to_owned(
                mem1,
                self.tables(),
                root,
                page@,
                table as int,
                PageTableLevel::One,
            );
            lemma_path_len(page@, self.tables()[table as int].len());
            lemma_frame_words(mem1, table as int);
        }
        mem.write_entry(table, index, value);
        proof {
            let mem3 = mem@;
            lemma_leaf_write(mem1, self.tables(), table as int, index as int, value@, root, page@);
            lemma_same_page(page@, page@);
            lemma_on_path_page(page@, page@);
            assert forall|a: u64| #[trigger]
                self.translation(mem3, a) == if page.contains(a) {
                    resolve(PageTableLevel::One, value@, a)
                } else {
                    self.translation(mem1, a)
                } by {
                lemma_same_page(a, page@);
                lemma_page_base(a);
                if is_canonical(a) {
                    assert(path_of(a, 0) =~= Seq::<int>::empty());
                    lemma_leaf_write(
                        mem1,
                        self.tables(),
                        table as int,
                        index as int,
                        value@,
                        root,
                        a,
                    );
                    lemma_on_path_page(a, page@);
                    if page.contains(a) {
                        lemma_leads_to_indices(
                            mem1,
                            root,
                            PageTableLevel::Four,
                            a,
                            page@,
                            table as int,
                            PageTableLevel::One,
                        );
                    }
                }
            }
            assert forall|f: int|
                0 <= f < frame_count(mem1) && !self.tables().dom().contains(
                    f,
                ) implies #[trigger] same_frame(mem1, mem3, f) by {
                lemma_frame_words(mem1, f);
            }
        }
    }

    /// The frame number of the top table of a well-formed address space.
    pub(crate) fn root_table(&self, mem: &PhysMemory) -> (root: usize)
        requires
            self.tables().dom().contains(self.root()),
            closed_under_links(mem@, self.tables()),
        ensures
            root == self.root(),
            root < frame_count(mem@),
    {
        let number = PhysFrame::containing_address(self.physical_address).number();
        let count = mem.frame_count();
        proof {
            lemma_root_number(self.physical_address@);
        }
        number as usize
    }

    /// Maps `page` to `frame` under `flags`, as `map_to_with_table_flags` does,
    /// the tables on the way getting those of the flags present, writable and
    /// user-accessible that the page gets.
    pub fn map_to(
        &mut self,
        mem: &mut PhysMemory,
        frame_allocator: &mut BitmapFrameAllocator,
        page: Page,
        frame: PhysFrame,
        flags: PageTableFlags,
    ) -> (r: Result<MapperFlush, MapToError>)
        requires
            old(self).wf(old(mem)@, old(frame_allocator)@),
        ensures
            map_post(
                *old(self),
                old(mem)@,
                old(frame_allocator)@,
                page,
                frame@,
                flags@,
                *final(self),
                final(mem)@,
                final(frame_allocator)@,
                r,
            ),
            r.is_ok() ==> links_flagged(
                final(mem)@,
                final(self).root(),
                page@,
                link_flags(flags@ & PARENT_FLAGS),
            ),
    {
        proof {
            use_type_invariant(&flags);
            lemma_parent_flags(flags@);
        }
        let parent = PageTableFlags::from_bits_truncate(flags.bits() & PARENT_FLAGS);
        self.map_to_with_table_flags(mem, frame_allocator, page, frame, flags, parent)
    }

    /// Creates or overwrites the translation of `page`: afterwards its
    /// addresses translate into `frame`, under `flags`. Tables that are
    /// missing on the way come from the allocator, and every table on the way
    /// gets `parent_table_flags`, with present added and huge-page taken out.
    ///
    /// Fails when the allocator runs out of frames, leaving in place the
    /// tables made so far, and when the page lies in a huge page.
    pub fn map_to_with_table_flags(
        &mut self,
        mem: &mut PhysMemory,
        frame_allocator: &mut BitmapFrameAllocator,
        page: Page,
        frame: PhysFrame,
        flags: PageTableFlags,
        parent_table_flags: PageTableFlags,
    ) -> (r: Result<MapperFlush, MapToError>)
        requires
            old(self).wf(old(mem)@, old(frame_allocator)@),
        ensures
            map_post(
                *old(self),
                old(mem)@,
                old(frame_allocator)@,
                page,
                frame@,
                flags@,
                *final(self),
                final(mem)@,
                final(frame_allocator)@,
                r,
            ),
            r.is_ok() ==> links_flagged(
                final(mem)@,
                final(self).root(),
                page@,
                link_flags(parent_table_flags@),
            ),
    {
        let addr = page.start_address();
        let root = self.root_table(mem);
        let link = PageTableFlags::from_bits_truncate(
            (parent_table_flags.bits() | PRESENT) & !HUGE_PAGE,
        );
        let ghost mem0 = mem@;
        let ghost alloc0 = frame_allocator@;
        let ghost tables0 = self.tables();
        let ghost end = walk(mem0, root as int, page@, PageTableLevel::Four);
        proof {
            lemma_root_number(self.physical_address@);
            lemma_link_flags(parent_table_flags@);
            crate::memory::entry::lemma_flags_kept(link_flags(parent_table_flags@));
            assert(leads_to(
                mem0,
                root as int,
                PageTableLevel::Four,
                page@,
                root as int,
                PageTableLevel::Four,
            ));
        }
        let mut table = root;
        let mut level = PageTableLevel::Four;
        let ghost mut depth: nat = 0;
        let ghost mut created = false;
        let ghost mut above: Seq<int> = Seq::empty();
        while level != PageTableLevel::One
            invariant
                self.physical_address == old(self).physical_address,
                self.wf(mem@, frame_allocator@),
                old(self).wf(mem0, alloc0),
                mem0 == old(mem)@,
                alloc0 == old(frame_allocator)@,
                tables0 == old(self).tables(),
                root == self.root(),
                addr@ == page@,
                link@ == link_flags(parent_table_flags@),
                is_flags(link@),
                link@ & PRESENT != 0,
                link@ & HUGE_PAGE == 0,
                table < frame_count(mem@),
                self.tables().dom().contains(table as int),
                self.tables()[table as int] == path_of(page@, depth),
                self.tables()[table as int].len() == depth,
                level == level_at(depth),
                depth <= 3,
                leads_to(mem@, root as int, PageTableLevel::Four, page@, table as int, level),
                above.len() == depth,
                linked_above(mem@, self.tables(), root as int, page@, above, link@),
                link@ & link@ == link@,
                forall|a: u64| #[trigger]
                    lookup(mem@, root as int, a) == lookup(mem0, root as int, a),
                only_touched(mem0, mem@, self.tables().dom()),
                taken_fresh(alloc0, frame_allocator@, tables0.dom(), self.tables().dom()),
                end == walk(mem0, root as int, page@, PageTableLevel::Four),
                !created ==> {
                    &&& leads_to(mem0, root as int, PageTableLevel::Four, page@, table as int, level)
                    &&& frame_allocator@ == alloc0
                    &&& self.tables() == tables0
                    &&& forall|t: int| #[trigger]
                        tables0.dom().contains(t) && tables0[t].len() >= depth ==> same_frame(
                            mem0,
                            mem@,
                            t,
                        )
                },
                created ==> {
                    &&& zeroed(mem@, table as int)
                    &&& !entry_present(end.1)
                    &&& level.spec_number() < end.0.spec_number()
                    &&& free_frames(frame_allocator@) + end.0.spec_number() - level.spec_number()
                        == free_frames(alloc0)
                },
            decreases level.spec_number(),
        {
            let index = addr.page_table_index(level) as usize;
            let entry = mem.read_entry(table, index);
            let ghost mem1 = mem@;
            let ghost tables1 = self.tables();
            proof {
                lemma_frame_words(mem1, table as int);
                if !created {
                    assert(same_frame(mem0, mem1, table as int));
                    assert(entry_at(mem0, table as int, index as int) == entry@);
                    lemma_leads_to_walk(
                        mem0,
                        root as int,
                        PageTableLevel::Four,
                        page@,
                        table as int,
                        level,
                    );
                } else {
                    assert(entry@ == 0);
                    lemma_entry_parts(0);
                }
            }
            if entry.is_unused() {
                let next = match frame_allocator.allocate_frame() {
                    None => {
                        proof {
                            assert forall|a: u64| #[trigger]
                                self.translation(mem@, a) == old(self).translation(mem0, a) by {
                                assert(lookup(mem@, root as int, a) == lookup(mem0, root as int, a));
                            }
                            lemma_leads_to_walk(
                                mem@,
                                root as int,
                                PageTableLevel::Four,
                                page@,
                                table as int,
                                level,
                            );
                        }
                        return Err(MapToError::FrameAllocationFailed);
                    },
                    Some(next) => next,
                };
                let fresh = next.number() as usize;
                proof {
                    assert(!self.tables().dom().contains(fresh as int));
                }
                mem.zero_frame(fresh);
                let ghost mem2 = mem@;
                let mut value = PageTableEntry::new();
                value.set_addr(next.start_address(), link);
                proof {
                    use_type_invariant(&next);
                    lemma_entry_of(next@, link@);
                    lemma_aligned_number(next@);
                    lemma_frame_words(mem1, fresh as int);
                    assert(agree_on(mem1, mem2, tables1.dom())) by {
                        assert forall|t: int| tables1.dom().contains(t) implies #[trigger] same_frame(
                            mem1,
                            mem2,
                            t,
                        ) by {
                            lemma_frame_words(mem1, t);
                        }
                    }
                    lemma_closed_agree(mem1, mem2, tables1);
                    lemma_leads_to_agree(
                        mem1,
                        mem2,
                        tables1,
                        root as int,
                        page@,
                        table as int,
                        level,
                    );
                    assert forall|a: u64| #[trigger]
                        lookup(mem2, root as int, a) == lookup(mem1, root as int, a) by {
                        lemma_walk_agree(mem1, mem2, tables1, root as int, a);
                    }
                    assert(entry_at(mem2, table as int, index as int) == entry@);
                    assert(zeroed(mem2, fresh as int));
                    assert(descends(mem2, value@, level));
                    lemma_create(mem2, tables1, table as int, index as int, value@, fresh as int);
                    lemma_linked_above_agree(mem1, mem2, tables1, root as int, page@, above, link@);
                    lemma_linked_above_update(
                        mem2,
                        tables1,
                        root as int,
                        page@,
                        above,
                        link@,
                        table as int,
                        index as int,
                        value@,
                    );
                    lemma_leads_to_update(
                        mem2,
                        tables1,
                        root as int,
                        page@,
                        table as int,
                        level,
                        table as int,
                        index as int,
                        value@,
                    );
                }
                mem.write_entry(table, index, value);
                self.tables = Ghost(tables1.insert(fresh as int, tables1[table as int].push(index as int)));
                proof {
                    let mem3 = mem@;
                    lemma_frame_words(mem2, table as int);
                    assert(entry_at(mem3, table as int, index as int) == value@);
                    lemma_leads_to_extend(
                        mem3,
                        root as int,
                        PageTableLevel::Four,
                        page@,
                        table as int,
                        level,
                    );
                    assert forall|a: u64| #[trigger]
                        lookup(mem3, root as int, a) == lookup(mem0, root as int, a) by {
                        assert(lookup_from(mem3, root as int, a, level_at(tables1[root as int].len()))
                            == lookup_from(mem2, root as int, a, level_at(tables1[root as int].len())));
                        assert(lookup(mem2, root as int, a) == lookup(mem1, root as int, a));
                        assert(lookup(mem1, root as int, a) == lookup(mem0, root as int, a));
                    }
                    assert(zeroed(mem3, fresh as int)) by {
                        assert forall|i: int| 0 <= i < 512 implies #[trigger] entry_at(
                            mem3,
                            fresh as int,
                            i,
                        ) == 0 by {
                            assert(entry_at(mem2, fresh as int, i) == 0);
                        }
                    }
                    assert(only_touched(mem0, mem3, self.tables().dom())) by {
                        assert forall|f: int|
                            0 <= f < frame_count(mem0) && !self.tables().dom().contains(
                                f,
                            ) implies #[trigger] same_frame(mem0, mem3, f) by {
                            assert(same_frame(mem0, mem1, f));
                            lemma_frame_words(mem1, f);
                            assert forall|i: int| 0 <= i < 512 implies #[trigger] entry_at(mem0, f, i)
                                == entry_at(mem3, f, i) by {
                                assert(entry_at(mem0, f, i) == entry_at(mem1, f, i));
                            }
                        }
                    }
                    assert(path_of(page@, depth + 1) == path_of(page@, depth).push(index as int));
                    lemma_path_len(page@, depth + 1);
                    if !created {
                        assert(end == (level, entry@));
                    }
                    created = true;
                    assert(leads_to(
                        mem3,
                        root as int,
                        PageTableLevel::Four,
                        page@,
                        table as int,
                        level,
                    ));
                    let grown = above.push(table as int);
                    assert(linked_above(mem3, self.tables(), root as int, page@, grown, link@)) by {
                        assert forall|k: int| 0 <= k < grown.len() implies {
                            &&& self.tables().dom().contains(#[trigger] grown[k])
                            &&& self.tables()[grown[k]].len() == k
                            &&& leads_to(
                                mem3,
                                root as int,
                                PageTableLevel::Four,
                                page@,
                                grown[k],
                                level_at(k as nat),
                            )
                            &&& entry_flags(
                                entry_at(
                                    mem3,
                                    grown[k],
                                    index_bits(page@, level_at(k as nat)) as int,
                                ),
                            ) & link@ == link@
                        } by {
                            if k < above.len() {
                                assert(grown[k] == above[k]);
                                assert(tables1.dom().contains(above[k]));
                            }
                        }
                    }
                    above = grown;
                }
                table = fresh;
            } else {
                match next_table(mem, entry, level) {
                    None => {
                        proof {
                            assert(!created);
                            assert(end == (level, entry@));
                            assert forall|a: u64| #[trigger]
                                self.translation(mem@, a) == old(self).translation(mem0, a) by {
                                assert(lookup(mem@, root as int, a) == lookup(mem0, root as int, a));
                            }
                        }
                        return Err(MapToError::ParentEntryHugePage);
                    },
                    Some(child) => {
                        let value = PageTableEntry::from_bits(entry.bits() | link.bits());
                        proof {
                            assert(!created);
                            lemma_relink_entry(entry@, link@);
                            assert(same_link(mem1, entry@, value@, level));
                            lemma_relink(mem1, tables1, table as int, index as int, value@);
                            lemma_linked_above_update(
                                mem1,
                                tables1,
                                root as int,
                                page@,
                                above,
                                link@,
                                table as int,
                                index as int,
                                value@,
                            );
                            lemma_leads_to_update(
                                mem1,
                                tables1,
                                root as int,
                                page@,
                                table as int,
                                level,
                                table as int,
                                index as int,
                                value@,
                            );
                            lemma_leads_to_extend(
                                mem0,
                                root as int,
                                PageTableLevel::Four,
                                page@,
                                table as int,
                                level,
                            );
                        }
                        mem.write_entry(table, index, value);
                        proof {
                            let mem3 = mem@;
                            assert(entry_at(mem3, table as int, index as int) == value@);
                            lemma_leads_to_extend(
                                mem3,
                                root as int,
                                PageTableLevel::Four,
                                page@,
                                table as int,
                                level,
                            );
                            assert forall|a: u64| #[trigger]
                                lookup(mem3, root as int, a) == lookup(mem0, root as int, a) by {
                                assert(walk(
                                    mem3,
                                    root as int,
                                    a,
                                    level_at(tables1[root as int].len()),
                                ) == walk(mem1, root as int, a, level_at(tables1[root as int].len())));
                                assert(lookup(mem1, root as int, a) == lookup(mem0, root as int, a));
                            }
                            assert(only_touched(mem0, mem3, self.tables().dom())) by {
                                assert forall|f: int|
                                    0 <= f < frame_count(mem0) && !self.tables().dom().contains(
                                        f,
                                    ) implies #[trigger] same_frame(mem0, mem3, f) by {
                                    assert(same_frame(mem0, mem1, f));
                                    lemma_frame_words(mem1, f);
                                    assert forall|i: int| 0 <= i < 512 implies #[trigger] entry_at(
                                        mem0,
                                        f,
                                        i,
                                    ) == entry_at(mem3, f, i) by {
                                        assert(entry_at(mem0, f, i) == entry_at(mem1, f, i));
                                    }
                                }
                            }
                            assert forall|t: int| #[trigger]
                                tables0.dom().contains(t) && tables0[t].len() >= depth
                                    + 1 implies same_frame(mem0, mem3, t) by {
                                assert(same_frame(mem0, mem1, t));
                                lemma_frame_words(mem1, t);
                                assert forall|i: int| 0 <= i < 512 implies #[trigger] entry_at(
                                    mem0,
                                    t,
                                    i,
                                ) == entry_at(mem3, t, i) by {
                                    assert(entry_at(mem0, t, i) == entry_at(mem1, t, i));
                                }
                            }
                            assert(path_of(page@, depth + 1) == path_of(page@, depth).push(
                                index as int,
                            ));
                            lemma_path_len(page@, depth + 1);
                            let grown = above.push(table as int);
                            assert(linked_above(mem3, self.tables(), root as int, page@, grown, link@))
                                by {
                                assert forall|k: int| 0 <= k < grown.len() implies {
                                    &&& self.tables().dom().contains(#[trigger] grown[k])
                                    &&& self.tables()[grown[k]].len() == k
                                    &&& leads_to(
                                        mem3,
                                        root as int,
                                        PageTableLevel::Four,
                                        page@,
                                        grown[k],
                                        level_at(k as nat),
                                    )
                                    &&& entry_flags(
                                        entry_at(
                                            mem3,
                                            grown[k],
                                            index_bits(page@, level_at(k as nat)) as int,
                                        ),
                                    ) & link@ == link@
                                } by {
                                    if k < above.len() {
                                        assert(grown[k] == above[k]);
                                    }
                                }
                            }
                            above = grown;
                        }
                        table = child;
                    },
                }
            }
            level = level.next_lower_level().unwrap();
            proof {
                depth = depth + 1;
            }
        }
        let mut value = PageTableEntry::new();
        value.set_addr(frame.start_address(), flags);
        let ghost mem1 = mem@;
        proof {
            use_type_invariant(&frame);
            if !created {
                lemma_leads_to_walk(
                    mem0,
                    root as int,
                    PageTableLevel::Four,
                    page@,
                    table as int,
                    level,
                );
            }
        }
        proof {
            lemma_index_bits_bound(page@);
            lemma_linked_above_update(
                mem1,
                self.tables(),
                root as int,
                page@,
                above,
                link@,
                table as int,
                index_bits(page@, PageTableLevel::One) as int,
                value@,
            );
        }
        self.set_leaf(mem, page, table, value);
        proof {
            let mem3 = mem@;
            assert(links_flagged(mem3, root as int, page@, link@)) by {
                assert forall|at: PageTableLevel| at != PageTableLevel::One implies entry_flags(
                    #[trigger] entry_on_path(mem3, root as int, page@, PageTableLevel::Four, at),
                ) & link@ == link@ by {
                    let k = 4 - at.spec_number();
                    assert(above[k] == above[k]);
                    lemma_entry_on_path(
                        mem3,
                        root as int,
                        PageTableLevel::Four,
                        page@,
                        above[k],
                        at,
                    );
                }
            }
            assert forall|a: u64| #[trigger]
                self.translation(mem3, a) == if page.contains(a) {
                    resolve(PageTableLevel::One, entry_of(frame@, flags@), a)
                } else {
                    old(self).translation(mem0, a)
                } by {
                assert(self.translation(mem1, a) == old(self).translation(mem0, a)) by {
                    assert(lookup(mem1, root as int, a) == lookup(mem0, root as int, a));
                }
            }
            assert(only_touched(mem0, mem3, self.tables().dom())) by {
                assert forall|f: int|
                    0 <= f < frame_count(mem0) && !self.tables().dom().contains(
                        f,
                    ) implies #[trigger] same_frame(mem0, mem3, f) by {
                    assert(same_frame(mem0, mem1, f));
                    assert(same_frame(mem1, mem3, f));
                    assert forall|i: int| 0 <= i < 512 implies #[trigger] entry_at(mem0, f, i)
                        == entry_at(mem3, f, i) by {
                        assert(entry_at(mem0, f, i) == entry_at(mem1, f, i));
                    }
                }
            }
        }
        Ok(MapperFlush { page })
    }
}

/// What unmapping `page` makes of the memory `mem`.
///
/// The walk for the page in the old memory decides. Where it ends at a
/// present entry of a level-one table, that entry is cleared and its frame
/// handed back: the addresses of the page translate to nothing afterwards,
/// and every other address as before. Else nothing changes: the page was not
/// mapped, or it lies in a huge page.
pub open spec fn unmap_post(
    space: GeneralPageTable,
    mem: Seq<u64>,
    page: Page,
    mem2: Seq<u64>,
    r: Result<(PhysFrame, MapperFlush), UnmapError>,
) -> bool {
    let (level, e) = walk(mem, space.root(), page@, PageTableLevel::Four);
    &&& space.structured(mem2)
    &&& only_touched(mem, mem2, space.tables().dom())
    &&& match r {
        Ok((frame, flush)) => {
            &&& level == PageTableLevel::One
            &&& entry_present(e)
            &&& frame@ == entry_address(e)
            &&& flush.page == page
            &&& walk(mem2, space.root(), page@, PageTableLevel::Four) == (PageTableLevel::One, 0u64)
            &&& forall|a: u64| #[trigger]
                space.translation(mem2, a) == if page.contains(a) {
                    Translation::Unmapped
                } else {
                    space.translation(mem, a)
                }
        },
        Err(UnmapError::NotMapped) => !entry_present(e) && mem2 == mem,
        Err(UnmapError::ParentEntryHugePage) => blocked(level, e) && mem2 == mem,
    }
}

/// What replacing the flags of `page` by `flags` makes of the memory `mem`.
///
/// The walk for the page in the old memory decides. Where it ends at a
/// present entry of a level-one table, that entry keeps its frame address and
/// gets the new flags: the addresses of the page translate as the changed
/// entry says, and every other address as before. Else nothing changes: the
/// page was not mapped, or it lies in a huge page.
pub open spec fn update_flags_post(
    space: GeneralPageTable,
    mem: Seq<u64>,
    page: Page,
    flags: u64,
    mem2: Seq<u64>,
    r: Result<MapperFlush, FlagUpdateError>,
) -> bool {
    let (level, e) = walk(mem, space.root(), page@, PageTableLevel::Four);
    &&& space.structured(mem2)
    &&& only_touched(mem, mem2, space.tables().dom())
    &&& match r {
        Ok(flush) => {
            &&& level == PageTableLevel::One
            &&& entry_present(e)
            &&& flush.page == page
            &&& walk(mem2, space.root(), page@, PageTableLevel::Four) == (
                PageTableLevel::One,
                entry_of(entry_address(e), flags),
            )
            &&& forall|a: u64| #[trigger]
                space.translation(mem2, a) == if page.contains(a) {
                    resolve(PageTableLevel::One, entry_of(entry_address(e), flags), a)
                } else {
                    space.translation(mem, a)
                }
        },
        Err(FlagUpdateError::NotMapped) => !entry_present(e) && mem2 == mem,
        Err(FlagUpdateError::ParentEntryHugePage) => blocked(level, e) && mem2 == mem,
    }
}

impl GeneralPageTable {
    /// Removes the translation of `page` and hands back the frame that it was
    /// mapped to; the caller decides what becomes of the frame.
    pub fn unmap(&mut self, mem: &mut PhysMemory, page: Page) -> (r: Result<
        (PhysFrame, MapperFlush),
        UnmapError,
    >)
        requires
            old(self).structured(old(mem)@),
        ensures
            *final(self) == *old(self),
            unmap_post(*old(self), old(mem)@, page, final(mem)@, r),
    {
        let root = self.root_table(mem);
        let (table, level, entry) = descend(mem, root, page.start_address());
        proof {
            self.lemma_nothing_touched(mem@);
        }
        if entry.is_unused() {
            return Err(UnmapError::NotMapped);
        }
        if level != PageTableLevel::One {
            proof {
                self.lemma_walk_ends_at_huge(mem@, page@, table as int, level);
            }
            return Err(UnmapError::ParentEntryHugePage);
        }
        let frame = PhysFrame::containing_address(entry.addr());
        self.set_leaf(mem, page, table, PageTableEntry::new());
        proof {
            lemma_entry_parts(0);
        }
        Ok((frame, MapperFlush { page }))
    }

    /// Replaces the flags of the translation of `page` and leaves its frame
    /// address alone.
    pub fn update_flags(&mut self, mem: &mut PhysMemory, page: Page, flags: PageTableFlags) -> (r:
        Result<MapperFlush, FlagUpdateError>)
        requires
            old(self).structured(old(mem)@),
        ensures
            *final(self) == *old(self),
            update_flags_post(*old(self), old(mem)@, page, flags@, final(mem)@, r),
    {
        let root = self.root_table(mem);
        let (table, level, entry) = descend(mem, root, page.start_address());
        proof {
            self.lemma_nothing_touched(mem@);
        }
        if entry.is_unused() {
            return Err(FlagUpdateError::NotMapped);
        }
        if level != PageTableLevel::One {
            proof {
                self.lemma_walk_ends_at_huge(mem@, page@, table as int, level);
            }
            return Err(FlagUpdateError::ParentEntryHugePage);
        }
        let mut value = entry;
        value.set_flags(flags);
        self.set_leaf(mem, page, table, value);
        Ok(MapperFlush { page })
    }

    /// In an address space that is a tree, a walk that ends above level one
    /// at a present entry ends at a huge page: no entry names a table outside
    /// the memory.
    pub proof fn lemma_walk_ends_at_huge(
        self,
        mem: Seq<u64>,
        addr: u64,
        table: int,
        level: PageTableLevel,
    )
        requires
            self.structured(mem),
            leads_to(mem, self.root(), PageTableLevel::Four, addr, table, level),
            level != PageTableLevel::One,
            entry_present(entry_at(mem, table, index_bits(addr, level) as int)),
            !descends(mem, entry_at(mem, table, index_bits(addr, level) as int), level),
        ensures
            entry_huge(entry_at(mem, table, index_bits(addr, level) as int)),
    {
        lemma_index_bits_bound(addr);
        assert(path_of(addr, 0) =~= Seq::<int>::empty());
        lemma_leads_to_owned(mem, self.tables(), self.root(), addr, table, level);
    }

    /// A memory differs from itself in no frame.
    pub proof fn lemma_nothing_touched(self, mem: Seq<u64>)
        ensures
            only_touched(mem, mem, self.tables().dom()),
    {
    }
}

} // verus!
