//! What a page-table tree means: the walk from a table down to the entry that
//! decides a translation, and how that walk reacts to changes of memory.

use vstd::prelude::*;
use crate::memory::addr::{index_bits, is_canonical, page_base, PageTableLevel};
use crate::memory::entry::{entry_address, entry_flags, entry_huge, entry_present};
use crate::memory::phys::{entry_at, frame_count, same_frame};

verus! {

/// The outcome of a translation: a physical address with the flags that
/// protect it, or nothing.
pub enum Translation {
    Mapped { address: u64, flags: u64 },
    Unmapped,
}

/// The frame number of the table that the entry `e` points to.
pub open spec fn child_frame(e: u64) -> int {
    entry_address(e) as int / 4096
}

/// Whether the walk goes on below the entry `e`, read in a table of `level`:
/// the entry is present, is no huge page, and its table lies in the memory.
pub open spec fn descends(mem: Seq<u64>, e: u64, level: PageTableLevel) -> bool {
    &&& level != PageTableLevel::One
    &&& entry_present(e)
    &&& !entry_huge(e)
    &&& child_frame(e) < frame_count(mem)
}

/// The entry at which the walk for `addr` ends when it starts in `table`, a
/// table of `level`, and the level of the table that holds it.
pub open spec fn walk(mem: Seq<u64>, table: int, addr: u64, level: PageTableLevel) -> (
    PageTableLevel,
    u64,
)
    decreases level.spec_number(),
{
    let e = entry_at(mem, table, index_bits(addr, level) as int);
    if descends(mem, e, level) {
        walk(mem, child_frame(e), addr, level.spec_lower())
    } else {
        (level, e)
    }
}

/// The bits of an address that are an offset into a page mapped at `level`.
pub open spec fn offset_mask(level: PageTableLevel) -> u64 {
    match level {
        PageTableLevel::One => 0xfff,
        PageTableLevel::Two => 0x1f_ffff,
        PageTableLevel::Three => 0x3fff_ffff,
        PageTableLevel::Four => 0x7f_ffff_ffff,
    }
}

/// The translation of `addr` that the entry `e` gives when the walk ends at it
/// in a table of `level`: a present entry of a level-one table maps a 4 KiB
/// frame, a present huge entry above maps the huge frame it names, the offset
/// being what of `addr` is left below the level. Any other entry maps nothing.
pub open spec fn resolve(level: PageTableLevel, e: u64, addr: u64) -> Translation {
    if entry_present(e) && (level == PageTableLevel::One || entry_huge(e)) {
        Translation::Mapped {
            address: ((entry_address(e) & !offset_mask(level)) + (addr & offset_mask(level))) as u64,
            flags: entry_flags(e),
        }
    } else {
        Translation::Unmapped
    }
}

/// The translation of `addr` that the walk from `table`, a table of `level`,
/// ends in.
pub open spec fn lookup_from(mem: Seq<u64>, table: int, addr: u64, level: PageTableLevel) -> Translation {
    let (last, e) = walk(mem, table, addr, level);
    resolve(last, e, addr)
}

/// The translation of `addr` in the tree whose top table is `table`.
pub open spec fn lookup(mem: Seq<u64>, table: int, addr: u64) -> Translation {
    lookup_from(mem, table, addr, PageTableLevel::Four)
}

/// The translation of the virtual address `addr` in the address space whose
/// top table starts at the physical address `root`. Addresses that are not
/// canonical translate to nothing, and so does every address when the top
/// table lies outside the memory.
pub open spec fn translate_spec(mem: Seq<u64>, root: u64, addr: u64) -> Translation {
    if is_canonical(addr) && root as int / 4096 < frame_count(mem) {
        lookup(mem, root as int / 4096, addr)
    } else {
        Translation::Unmapped
    }
}

/// The level of a table that lies `depth` links below the top table.
pub open spec fn level_at(depth: nat) -> PageTableLevel {
    if depth == 0 {
        PageTableLevel::Four
    } else if depth == 1 {
        PageTableLevel::Three
    } else if depth == 2 {
        PageTableLevel::Two
    } else {
        PageTableLevel::One
    }
}

/// The indices that `addr` selects in the first `depth` tables of its walk.
pub open spec fn path_of(addr: u64, depth: nat) -> Seq<int>
    decreases depth,
{
    if depth == 0 {
        Seq::empty()
    } else {
        path_of(addr, (depth - 1) as nat).push(
            index_bits(addr, level_at((depth - 1) as nat)) as int,
        )
    }
}

/// Whether the entry `e`, read in a table of `level`, names a table: it
/// stands above level one, is present and is no huge page.
pub open spec fn is_link(e: u64, level: PageTableLevel) -> bool {
    &&& level != PageTableLevel::One
    &&& entry_present(e)
    &&& !entry_huge(e)
}

/// Whether `tables`, which gives each table frame of a tree the indices that
/// lead to it from the top, is complete for the memory `mem`: each of its
/// frames lies in the memory at most three links down, and each entry of one
/// of them that names a table names a frame that it holds, one index further
/// down. So no entry names a table outside the memory.
pub open spec fn closed_under_links(mem: Seq<u64>, tables: Map<int, Seq<int>>) -> bool {
    &&& forall|t: int| #[trigger]
        tables.dom().contains(t) ==> 0 <= t < frame_count(mem) && tables[t].len() <= 3
    &&& forall|t: int, i: int|
        tables.dom().contains(t) && 0 <= i < 512 && is_link(#[trigger] entry_at(mem, t, i), level_at(tables[t].len())) ==> tables.dom().contains(child_frame(entry_at(mem, t, i))) && tables[child_frame(
            entry_at(mem, t, i),
        )] == tables[t].push(i)
}

/// Whether two memories of one size hold the same words in each frame of
/// `frames`.
pub open spec fn agree_on(a: Seq<u64>, b: Seq<u64>, frames: Set<int>) -> bool {
    &&& a.len() == b.len()
    &&& forall|t: int| frames.contains(t) ==> #[trigger] same_frame(a, b, t)
}

/// Whether the walk for `addr` that starts in `from`, a table of `from_level`,
/// passes through `to` as its table of `to_level`.
pub open spec fn leads_to(
    mem: Seq<u64>,
    from: int,
    from_level: PageTableLevel,
    addr: u64,
    to: int,
    to_level: PageTableLevel,
) -> bool
    decreases from_level.spec_number(),
{
    if from_level == to_level {
        from == to
    } else {
        let e = entry_at(mem, from, index_bits(addr, from_level) as int);
        descends(mem, e, from_level) && leads_to(
            mem,
            child_frame(e),
            from_level.spec_lower(),
            addr,
            to,
            to_level,
        )
    }
}

/// Whether the walk for `addr` reads the entry at position `slot` of a table
/// that lies at the end of `path`.
pub open spec fn on_path(addr: u64, path: Seq<int>, slot: int) -> bool {
    path == path_of(addr, path.len()) && slot == index_bits(addr, level_at(path.len())) as int
}

/// A walk that passes through a table ends where the walk from that table
/// ends.
pub proof fn lemma_leads_to_walk(
    mem: Seq<u64>,
    from: int,
    from_level: PageTableLevel,
    addr: u64,
    to: int,
    to_level: PageTableLevel,
)
    requires
        leads_to(mem, from, from_level, addr, to, to_level),
    ensures
        walk(mem, from, addr, from_level) == walk(mem, to, addr, to_level),
    decreases from_level.spec_number(),
{
    if from_level != to_level {
        let e = entry_at(mem, from, index_bits(addr, from_level) as int);
        lemma_leads_to_walk(mem, child_frame(e), from_level.spec_lower(), addr, to, to_level);
    }
}

/// A walk that passes through a table and finds a link there passes through
/// the table below.
pub proof fn lemma_leads_to_extend(
    mem: Seq<u64>,
    from: int,
    from_level: PageTableLevel,
    addr: u64,
    to: int,
    to_level: PageTableLevel,
)
    requires
        leads_to(mem, from, from_level, addr, to, to_level),
        descends(mem, entry_at(mem, to, index_bits(addr, to_level) as int), to_level),
    ensures
        leads_to(
            mem,
            from,
            from_level,
            addr,
            child_frame(entry_at(mem, to, index_bits(addr, to_level) as int)),
            to_level.spec_lower(),
        ),
    decreases from_level.spec_number(),
{
    if from_level != to_level {
        let e = entry_at(mem, from, index_bits(addr, from_level) as int);
        lemma_leads_to_extend(mem, child_frame(e), from_level.spec_lower(), addr, to, to_level);
        assert(from_level != to_level.spec_lower()) by {
            lemma_leads_to_levels(
                mem,
                child_frame(e),
                from_level.spec_lower(),
                addr,
                to,
                to_level,
            );
        }
    } else {
        let child = child_frame(entry_at(mem, to, index_bits(addr, to_level) as int));
        assert(leads_to(mem, child, to_level.spec_lower(), addr, child, to_level.spec_lower()));
    }
}

/// A walk passes through tables of lower levels only.
pub proof fn lemma_leads_to_levels(
    mem: Seq<u64>,
    from: int,
    from_level: PageTableLevel,
    addr: u64,
    to: int,
    to_level: PageTableLevel,
)
    requires
        leads_to(mem, from, from_level, addr, to, to_level),
    ensures
        to_level.spec_number() <= from_level.spec_number(),
    decreases from_level.spec_number(),
{
    if from_level != to_level {
        let e = entry_at(mem, from, index_bits(addr, from_level) as int);
        lemma_leads_to_levels(mem, child_frame(e), from_level.spec_lower(), addr, to, to_level);
    }
}

/// In a complete tree, the table that a walk passes through belongs to the
/// tree, at the end of the indices that the address selects.
pub proof fn lemma_leads_to_owned(
    mem: Seq<u64>,
    tables: Map<int, Seq<int>>,
    from: int,
    addr: u64,
    to: int,
    to_level: PageTableLevel,
)
    requires
        closed_under_links(mem, tables),
        tables.dom().contains(from),
        tables[from] == path_of(addr, tables[from].len()),
        leads_to(mem, from, level_at(tables[from].len()), addr, to, to_level),
    ensures
        tables.dom().contains(to),
        tables[to] == path_of(addr, tables[to].len()),
        to_level == level_at(tables[to].len()),
        tables[to].len() >= tables[from].len(),
    decreases 4 - tables[from].len(),
{
    let from_level = level_at(tables[from].len());
    if from_level != to_level {
        let i = index_bits(addr, from_level) as int;
        crate::memory::addr::lemma_index_bits_bound(addr);
        let e = entry_at(mem, from, i);
        let child = child_frame(e);
        assert(tables[child] == tables[from].push(i));
        assert(path_of(addr, tables[child].len()) == path_of(addr, tables[from].len()).push(i));
        lemma_leads_to_owned(mem, tables, child, addr, to, to_level);
    }
}

/// Two memories that agree on the frames of a complete tree give the same
/// walks from its tables, and the tree is complete for both.
pub proof fn lemma_walk_agree(
    a: Seq<u64>,
    b: Seq<u64>,
    tables: Map<int, Seq<int>>,
    table: int,
    addr: u64,
)
    requires
        closed_under_links(a, tables),
        agree_on(a, b, tables.dom()),
        tables.dom().contains(table),
    ensures
        walk(b, table, addr, level_at(tables[table].len())) == walk(
            a,
            table,
            addr,
            level_at(tables[table].len()),
        ),
    decreases 4 - tables[table].len(),
{
    let level = level_at(tables[table].len());
    let i = index_bits(addr, level) as int;
    crate::memory::addr::lemma_index_bits_bound(addr);
    assert(same_frame(a, b, table));
    let e = entry_at(a, table, i);
    assert(entry_at(b, table, i) == e);
    if descends(a, e, level) {
        lemma_walk_agree(a, b, tables, child_frame(e), addr);
    }
}

/// A tree that is complete for one memory is complete for every memory that
/// agrees with it on the tree's frames.
pub proof fn lemma_closed_agree(a: Seq<u64>, b: Seq<u64>, tables: Map<int, Seq<int>>)
    requires
        closed_under_links(a, tables),
        agree_on(a, b, tables.dom()),
    ensures
        closed_under_links(b, tables),
{
    assert forall|t: int, i: int|
        tables.dom().contains(t) && 0 <= i < 512 && is_link(#[trigger] entry_at(b, t, i), level_at(tables[t].len())) implies tables.dom().contains(child_frame(entry_at(b, t, i))) && tables[child_frame(
        entry_at(b, t, i),
    )] == tables[t].push(i) by {
        assert(same_frame(a, b, t));
        assert(entry_at(a, t, i) == entry_at(b, t, i));
    }
}

/// A walk passes through the same tables in two memories that agree on the
/// frames of the tree.
pub proof fn lemma_leads_to_agree(
    a: Seq<u64>,
    b: Seq<u64>,
    tables: Map<int, Seq<int>>,
    from: int,
    addr: u64,
    to: int,
    to_level: PageTableLevel,
)
    requires
        closed_under_links(a, tables),
        agree_on(a, b, tables.dom()),
        tables.dom().contains(from),
        leads_to(a, from, level_at(tables[from].len()), addr, to, to_level),
    ensures
        leads_to(b, from, level_at(tables[from].len()), addr, to, to_level),
    decreases 4 - tables[from].len(),
{
    let from_level = level_at(tables[from].len());
    if from_level != to_level {
        let i = index_bits(addr, from_level) as int;
        crate::memory::addr::lemma_index_bits_bound(addr);
        assert(same_frame(a, b, from));
        let e = entry_at(a, from, i);
        assert(entry_at(b, from, i) == e);
        assert(tables[child_frame(e)] == tables[from].push(i));
        lemma_leads_to_agree(a, b, tables, child_frame(e), addr, to, to_level);
    }
}

/// Replacing a word in a table leaves alone the part of a walk that lies above
/// the level of that table.
pub proof fn lemma_leads_to_update(
    mem: Seq<u64>,
    tables: Map<int, Seq<int>>,
    from: int,
    addr: u64,
    to: int,
    to_level: PageTableLevel,
    target: int,
    slot: int,
    value: u64,
)
    requires
        closed_under_links(mem, tables),
        tables.dom().contains(from),
        tables.dom().contains(target),
        0 <= slot < 512,
        leads_to(mem, from, level_at(tables[from].len()), addr, to, to_level),
        level_at(tables[target].len()).spec_number() <= to_level.spec_number(),
    ensures
        leads_to(
            mem.update(target * 512 + slot, value),
            from,
            level_at(tables[from].len()),
            addr,
            to,
            to_level,
        ),
    decreases 4 - tables[from].len(),
{
    let from_level = level_at(tables[from].len());
    if from_level != to_level {
        let after = mem.update(target * 512 + slot, value);
        let i = index_bits(addr, from_level) as int;
        crate::memory::addr::lemma_index_bits_bound(addr);
        crate::memory::phys::lemma_frame_words(mem, from);
        crate::memory::phys::lemma_frame_words(mem, target);
        lemma_leads_to_levels(mem, from, from_level, addr, to, to_level);
        assert(from != target);
        let e = entry_at(mem, from, i);
        assert(entry_at(after, from, i) == e);
        assert(tables[child_frame(e)] == tables[from].push(i));
        lemma_leads_to_update(mem, tables, child_frame(e), addr, to, to_level, target, slot, value);
    }
}

/// Which tables a walk passes through depends on the table indices of the
/// address alone.
pub proof fn lemma_leads_to_indices(
    mem: Seq<u64>,
    from: int,
    from_level: PageTableLevel,
    a: u64,
    b: u64,
    to: int,
    to_level: PageTableLevel,
)
    requires
        forall|level: PageTableLevel| index_bits(a, level) == index_bits(b, level),
    ensures
        leads_to(mem, from, from_level, a, to, to_level) == leads_to(
            mem,
            from,
            from_level,
            b,
            to,
            to_level,
        ),
    decreases from_level.spec_number(),
{
    if from_level != to_level {
        let e = entry_at(mem, from, index_bits(a, from_level) as int);
        if descends(mem, e, from_level) {
            lemma_leads_to_indices(
                mem,
                child_frame(e),
                from_level.spec_lower(),
                a,
                b,
                to,
                to_level,
            );
        }
    }
}

/// Whether the entries `e` and `f` send a walk the same way from a table of
/// `level`: both end it, or both lead to the same table.
pub open spec fn same_link(mem: Seq<u64>, e: u64, f: u64, level: PageTableLevel) -> bool {
    &&& descends(mem, e, level)
    &&& descends(mem, f, level)
    &&& child_frame(e) == child_frame(f)
}

/// Replacing a link by a link to the same table changes no walk, and the tree
/// stays complete.
pub proof fn lemma_relink(
    mem: Seq<u64>,
    tables: Map<int, Seq<int>>,
    target: int,
    slot: int,
    value: u64,
)
    requires
        closed_under_links(mem, tables),
        tables.dom().contains(target),
        0 <= slot < 512,
        same_link(mem, entry_at(mem, target, slot), value, level_at(tables[target].len())),
    ensures
        closed_under_links(mem.update(target * 512 + slot, value), tables),
        forall|t: int, addr: u64| #[trigger]
            tables.dom().contains(t) ==> #[trigger] walk(
                mem.update(target * 512 + slot, value),
                t,
                addr,
                level_at(tables[t].len()),
            ) == walk(mem, t, addr, level_at(tables[t].len())),
{
    let after = mem.update(target * 512 + slot, value);
    crate::memory::phys::lemma_frame_words(mem, target);
    assert forall|t: int, i: int|
        tables.dom().contains(t) && 0 <= i < 512 && is_link(#[trigger] entry_at(after, t, i), level_at(tables[t].len())) implies tables.dom().contains(child_frame(entry_at(after, t, i))) && tables[child_frame(
        entry_at(after, t, i),
    )] == tables[t].push(i) by {
        crate::memory::phys::lemma_frame_words(mem, t);
        if t == target && i == slot {
            assert(descends(mem, entry_at(mem, t, i), level_at(tables[t].len())));
        } else {
            assert(entry_at(after, t, i) == entry_at(mem, t, i));
        }
    }
    assert forall|t: int, addr: u64| #[trigger] tables.dom().contains(t) implies #[trigger] walk(
        after,
        t,
        addr,
        level_at(tables[t].len()),
    ) == walk(mem, t, addr, level_at(tables[t].len())) by {
        lemma_relink_walk(mem, tables, target, slot, value, t, addr);
    }
}

/// One walk under the replacement of a link by a link to the same table.
proof fn lemma_relink_walk(
    mem: Seq<u64>,
    tables: Map<int, Seq<int>>,
    target: int,
    slot: int,
    value: u64,
    table: int,
    addr: u64,
)
    requires
        closed_under_links(mem, tables),
        tables.dom().contains(target),
        0 <= slot < 512,
        same_link(mem, entry_at(mem, target, slot), value, level_at(tables[target].len())),
        tables.dom().contains(table),
    ensures
        walk(mem.update(target * 512 + slot, value), table, addr, level_at(tables[table].len()))
            == walk(mem, table, addr, level_at(tables[table].len())),
    decreases 4 - tables[table].len(),
{
    let after = mem.update(target * 512 + slot, value);
    let level = level_at(tables[table].len());
    let i = index_bits(addr, level) as int;
    crate::memory::addr::lemma_index_bits_bound(addr);
    crate::memory::phys::lemma_frame_words(mem, table);
    crate::memory::phys::lemma_frame_words(mem, target);
    let e = entry_at(mem, table, i);
    if table == target && i == slot {
        assert(entry_at(after, table, i) == value);
    } else {
        assert(entry_at(after, table, i) == e);
    }
    if descends(mem, e, level) {
        assert(tables[child_frame(e)] == tables[table].push(i));
        lemma_relink_walk(mem, tables, target, slot, value, child_frame(e), addr);
    }
}

/// Whether every word of frame `frame` is zero.
pub open spec fn zeroed(mem: Seq<u64>, frame: int) -> bool {
    forall|i: int| 0 <= i < 512 ==> #[trigger] entry_at(mem, frame, i) == 0
}

/// Putting a link to a new, empty table in the place of an unused entry
/// changes no translation, and the tree with the new table is complete.
pub proof fn lemma_create(
    mem: Seq<u64>,
    tables: Map<int, Seq<int>>,
    target: int,
    slot: int,
    value: u64,
    fresh: int,
)
    requires
        closed_under_links(mem, tables),
        tables.dom().contains(target),
        tables[target].len() < 3,
        0 <= slot < 512,
        !entry_present(entry_at(mem, target, slot)),
        descends(mem, value, level_at(tables[target].len())),
        child_frame(value) == fresh,
        !tables.dom().contains(fresh),
        zeroed(mem, fresh),
    ensures
        closed_under_links(
            mem.update(target * 512 + slot, value),
            tables.insert(fresh, tables[target].push(slot)),
        ),
        forall|t: int, addr: u64| #[trigger]
            tables.dom().contains(t) ==> #[trigger] lookup_from(
                mem.update(target * 512 + slot, value),
                t,
                addr,
                level_at(tables[t].len()),
            ) == lookup_from(mem, t, addr, level_at(tables[t].len())),
{
    let after = mem.update(target * 512 + slot, value);
    let grown = tables.insert(fresh, tables[target].push(slot));
    crate::memory::phys::lemma_frame_words(mem, target);
    crate::memory::phys::lemma_frame_words(mem, fresh);
    crate::memory::entry::lemma_entry_parts(0);
    assert forall|t: int, i: int|
        grown.dom().contains(t) && 0 <= i < 512 && is_link(#[trigger] entry_at(after, t, i), level_at(grown[t].len())) implies grown.dom().contains(child_frame(entry_at(after, t, i))) && grown[child_frame(
        entry_at(after, t, i),
    )] == grown[t].push(i) by {
        if t == fresh {
            assert(entry_at(after, t, i) == entry_at(mem, t, i));
            assert(entry_at(mem, fresh, i) == 0);
        } else {
            crate::memory::phys::lemma_frame_words(mem, t);
            if t == target && i == slot {
            } else {
                assert(entry_at(after, t, i) == entry_at(mem, t, i));
                assert(tables.dom().contains(child_frame(entry_at(mem, t, i))));
            }
        }
    }
    assert forall|t: int, addr: u64| #[trigger] tables.dom().contains(t) implies #[trigger] lookup_from(
        after,
        t,
        addr,
        level_at(tables[t].len()),
    ) == lookup_from(mem, t, addr, level_at(tables[t].len())) by {
        lemma_create_walk(mem, tables, target, slot, value, fresh, t, addr);
    }
}

/// One translation under the replacement of an unused entry by a link to a
/// new, empty table.
proof fn lemma_create_walk(
    mem: Seq<u64>,
    tables: Map<int, Seq<int>>,
    target: int,
    slot: int,
    value: u64,
    fresh: int,
    table: int,
    addr: u64,
)
    requires
        closed_under_links(mem, tables),
        tables.dom().contains(target),
        tables[target].len() < 3,
        0 <= slot < 512,
        !entry_present(entry_at(mem, target, slot)),
        descends(mem, value, level_at(tables[target].len())),
        child_frame(value) == fresh,
        !tables.dom().contains(fresh),
        zeroed(mem, fresh),
        tables.dom().contains(table),
    ensures
        lookup_from(mem.update(target * 512 + slot, value), table, addr, level_at(tables[table].len()))
            == lookup_from(mem, table, addr, level_at(tables[table].len())),
    decreases 4 - tables[table].len(),
{
    let after = mem.update(target * 512 + slot, value);
    let level = level_at(tables[table].len());
    let i = index_bits(addr, level) as int;
    crate::memory::addr::lemma_index_bits_bound(addr);
    crate::memory::phys::lemma_frame_words(mem, table);
    crate::memory::phys::lemma_frame_words(mem, target);
    crate::memory::phys::lemma_frame_words(mem, fresh);
    crate::memory::entry::lemma_entry_parts(0);
    let e = entry_at(mem, table, i);
    if table == target && i == slot {
        let lower = level.spec_lower();
        let j = index_bits(addr, lower) as int;
        assert(entry_at(after, table, i) == value);
        assert(entry_at(after, fresh, j) == entry_at(mem, fresh, j));
        assert(entry_at(mem, fresh, j) == 0);
        assert(walk(after, fresh, addr, lower) == (lower, 0u64));
        assert(walk(after, table, addr, level) == (lower, 0u64));
        assert(walk(mem, table, addr, level) == (level, e));
    } else {
        assert(entry_at(after, table, i) == e);
        if descends(mem, e, level) {
            assert(tables[child_frame(e)] == tables[table].push(i));
            lemma_create_walk(mem, tables, target, slot, value, fresh, child_frame(e), addr);
        }
    }
}

/// Replacing an entry of a level-one table changes the walks that read it,
/// which then end at the new entry, and no other walk; the tree stays
/// complete.
pub proof fn lemma_leaf_write(
    mem: Seq<u64>,
    tables: Map<int, Seq<int>>,
    target: int,
    slot: int,
    value: u64,
    table: int,
    addr: u64,
)
    requires
        closed_under_links(mem, tables),
        tables.dom().contains(target),
        tables[target].len() == 3,
        0 <= slot < 512,
        tables.dom().contains(table),
        tables[table] == path_of(addr, tables[table].len()),
    ensures
        closed_under_links(mem.update(target * 512 + slot, value), tables),
        walk(mem.update(target * 512 + slot, value), table, addr, level_at(tables[table].len()))
            == if on_path(addr, tables[target], slot) && leads_to(
            mem,
            table,
            level_at(tables[table].len()),
            addr,
            target,
            PageTableLevel::One,
        ) {
            (PageTableLevel::One, value)
        } else {
            walk(mem, table, addr, level_at(tables[table].len()))
        },
    decreases 4 - tables[table].len(),
{
    let after = mem.update(target * 512 + slot, value);
    let level = level_at(tables[table].len());
    let i = index_bits(addr, level) as int;
    crate::memory::addr::lemma_index_bits_bound(addr);
    crate::memory::phys::lemma_frame_words(mem, table);
    crate::memory::phys::lemma_frame_words(mem, target);
    assert forall|t: int, k: int|
        tables.dom().contains(t) && 0 <= k < 512 && is_link(#[trigger] entry_at(after, t, k), level_at(tables[t].len())) implies tables.dom().contains(child_frame(entry_at(after, t, k))) && tables[child_frame(
        entry_at(after, t, k),
    )] == tables[t].push(k) by {
        crate::memory::phys::lemma_frame_words(mem, t);
        if t != target {
            assert(entry_at(after, t, k) == entry_at(mem, t, k));
        }
    }
    let e = entry_at(mem, table, i);
    if level == PageTableLevel::One {
        if table == target && i == slot {
            assert(entry_at(after, table, i) == value);
        } else {
            assert(entry_at(after, table, i) == e);
        }
    } else {
        assert(table != target);
        assert(entry_at(after, table, i) == e);
        if descends(mem, e, level) {
            let child = child_frame(e);
            assert(tables[child] == tables[table].push(i));
            assert(path_of(addr, tables[child].len()) == path_of(addr, tables[table].len()).push(
                i,
            ));
            lemma_leaf_write(mem, tables, target, slot, value, child, addr);
        }
    }
}

/// The path of an address has one index for each table above the depth.
pub proof fn lemma_path_len(addr: u64, depth: nat)
    ensures
        path_of(addr, depth).len() == depth,
    decreases depth,
{
    if depth > 0 {
        lemma_path_len(addr, (depth - 1) as nat);
    }
}

/// The walk for a canonical address reads a given entry of a level-one table
/// exactly when the address lies in the page that selects that entry.
pub proof fn lemma_on_path_page(addr: u64, page: u64)
    requires
        is_canonical(addr),
        is_canonical(page),
    ensures
        on_path(addr, path_of(page, 3), index_bits(page, PageTableLevel::One) as int) <==> page_base(
            addr,
        ) == page_base(page),
{
    reveal_with_fuel(path_of, 4);
    crate::memory::addr::lemma_same_page(addr, page);
    lemma_path_len(page, 3);
    let p = path_of(page, 3);
    let q = path_of(addr, 3);
    assert(p[0] == index_bits(page, PageTableLevel::Four) as int);
    assert(p[1] == index_bits(page, PageTableLevel::Three) as int);
    assert(p[2] == index_bits(page, PageTableLevel::Two) as int);
    assert(q[0] == index_bits(addr, PageTableLevel::Four) as int);
    assert(q[1] == index_bits(addr, PageTableLevel::Three) as int);
    assert(q[2] == index_bits(addr, PageTableLevel::Two) as int);
    if page_base(addr) == page_base(page) {
        assert(p =~= q);
    }
}

/// Where a walk ends depends on the table indices of the address alone.
pub proof fn lemma_walk_indices(
    mem: Seq<u64>,
    table: int,
    level: PageTableLevel,
    a: u64,
    b: u64,
)
    requires
        forall|l: PageTableLevel| index_bits(a, l) == index_bits(b, l),
    ensures
        walk(mem, table, a, level) == walk(mem, table, b, level),
    decreases level.spec_number(),
{
    let e = entry_at(mem, table, index_bits(a, level) as int);
    if descends(mem, e, level) {
        lemma_walk_indices(mem, child_frame(e), level.spec_lower(), a, b);
    }
}

/// The entry that the walk for `addr` reads in its table of level `at`, when
/// it starts in `table`, a table of level `from`, and gets that far.
pub open spec fn entry_on_path(
    mem: Seq<u64>,
    table: int,
    addr: u64,
    from: PageTableLevel,
    at: PageTableLevel,
) -> u64
    decreases from.spec_number(),
{
    let e = entry_at(mem, table, index_bits(addr, from) as int);
    if from == at || from == PageTableLevel::One {
        e
    } else {
        entry_on_path(mem, child_frame(e), addr, from.spec_lower(), at)
    }
}

/// The entry that a walk reads in a table that it passes through.
pub proof fn lemma_entry_on_path(
    mem: Seq<u64>,
    from: int,
    from_level: PageTableLevel,
    addr: u64,
    to: int,
    to_level: PageTableLevel,
)
    requires
        leads_to(mem, from, from_level, addr, to, to_level),
    ensures
        entry_on_path(mem, from, addr, from_level, to_level) == entry_at(
            mem,
            to,
            index_bits(addr, to_level) as int,
        ),
    decreases from_level.spec_number(),
{
    if from_level != to_level {
        let e = entry_at(mem, from, index_bits(addr, from_level) as int);
        lemma_entry_on_path(mem, child_frame(e), from_level.spec_lower(), addr, to, to_level);
    }
}

/// Whether `above` lists the tables that the walk for `addr` passes through,
/// from the top table `root` down, each a table of the tree `tables`, and the
/// entry that the walk reads in each holds the flags `link`.
pub open spec fn linked_above(
    mem: Seq<u64>,
    tables: Map<int, Seq<int>>,
    root: int,
    addr: u64,
    above: Seq<int>,
    link: u64,
) -> bool {
    forall|k: int|
        0 <= k < above.len() ==> {
            &&& tables.dom().contains(#[trigger] above[k])
            &&& tables[above[k]].len() == k
            &&& leads_to(mem, root, PageTableLevel::Four, addr, above[k], level_at(k as nat))
            &&& entry_flags(entry_at(mem, above[k], index_bits(addr, level_at(k as nat)) as int))
                & link == link
        }
}

/// Replacing a word in a table that lies below the listed tables leaves the
/// list as it is.
pub proof fn lemma_linked_above_update(
    mem: Seq<u64>,
    tables: Map<int, Seq<int>>,
    root: int,
    addr: u64,
    above: Seq<int>,
    link: u64,
    target: int,
    slot: int,
    value: u64,
)
    requires
        closed_under_links(mem, tables),
        tables.dom().contains(root),
        tables[root].len() == 0,
        linked_above(mem, tables, root, addr, above, link),
        tables.dom().contains(target),
        tables[target].len() >= above.len(),
        0 <= slot < 512,
    ensures
        linked_above(mem.update(target * 512 + slot, value), tables, root, addr, above, link),
{
    let after = mem.update(target * 512 + slot, value);
    crate::memory::addr::lemma_index_bits_bound(addr);
    crate::memory::phys::lemma_frame_words(mem, target);
    assert forall|k: int| 0 <= k < above.len() implies {
        &&& tables.dom().contains(#[trigger] above[k])
        &&& tables[above[k]].len() == k
        &&& leads_to(after, root, PageTableLevel::Four, addr, above[k], level_at(k as nat))
        &&& entry_flags(entry_at(after, above[k], index_bits(addr, level_at(k as nat)) as int))
            & link == link
    } by {
        let t = above[k];
        let level = level_at(k as nat);
        lemma_leads_to_update(mem, tables, root, addr, t, level, target, slot, value);
        crate::memory::phys::lemma_frame_words(mem, t);
        assert(t != target);
        assert(entry_at(after, t, index_bits(addr, level) as int) == entry_at(
            mem,
            t,
            index_bits(addr, level) as int,
        ));
    }
}

/// The list of the tables on a path stays as it is in every memory that
/// agrees on the frames of the tree.
pub proof fn lemma_linked_above_agree(
    a: Seq<u64>,
    b: Seq<u64>,
    tables: Map<int, Seq<int>>,
    root: int,
    addr: u64,
    above: Seq<int>,
    link: u64,
)
    requires
        closed_under_links(a, tables),
        agree_on(a, b, tables.dom()),
        tables.dom().contains(root),
        tables[root].len() == 0,
        linked_above(a, tables, root, addr, above, link),
    ensures
        linked_above(b, tables, root, addr, above, link),
{
    crate::memory::addr::lemma_index_bits_bound(addr);
    assert forall|k: int| 0 <= k < above.len() implies {
        &&& tables.dom().contains(#[trigger] above[k])
        &&& tables[above[k]].len() == k
        &&& leads_to(b, root, PageTableLevel::Four, addr, above[k], level_at(k as nat))
        &&& entry_flags(entry_at(b, above[k], index_bits(addr, level_at(k as nat)) as int)) & link
            == link
    } by {
        let t = above[k];
        let level = level_at(k as nat);
        lemma_leads_to_agree(a, b, tables, root, addr, t, level);
        assert(same_frame(a, b, t));
        assert(entry_at(b, t, index_bits(addr, level) as int) == entry_at(
            a,
            t,
            index_bits(addr, level) as int,
        ));
    }
}

} // verus!
