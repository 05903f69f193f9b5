//! The end of an address space: its tables go back to the allocator.

use vstd::prelude::*;
use crate::memory::addr::{page_base, PageTableLevel, PhysFrame};
use crate::memory::frame_alloc::BitmapFrameAllocator;
use crate::memory::page_table::{lemma_root_number, next_table, GeneralPageTable};
use crate::memory::phys::{entry_at, frame_count, PhysMemory};
use crate::memory::walk::{child_frame, closed_under_links, descends, level_at};

verus! {

/// The frames of the tables of the tree below `table`, a table of `level`,
/// when of the entries of `table` only the first `upto` are followed. Frames
/// that entries map, ordinary or huge, are not among them.
pub open spec fn subtree_frames(mem: Seq<u64>, table: int, level: PageTableLevel, upto: nat) -> Set<
    int,
>
    decreases level.spec_number(), upto,
{
    if upto == 0 {
        set![table]
    } else {
        let e = entry_at(mem, table, upto - 1);
        subtree_frames(mem, table, level, (upto - 1) as nat).union(
            if descends(mem, e, level) {
                subtree_frames(mem, child_frame(e), level.spec_lower(), 512)
            } else {
                Set::empty()
            },
        )
    }
}

/// The allocator state `alloc` with the frames of `frames` marked as free.
pub open spec fn released(alloc: Seq<bool>, frames: Set<int>) -> Seq<bool> {
    Seq::new(alloc.len(), |f: int| alloc[f] && !frames.contains(f))
}

/// Gives the tables of the tree below `table`, a table of `level`, back to
/// the allocator.
pub fn release_tables(
    mem: &PhysMemory,
    frame_allocator: &mut BitmapFrameAllocator,
    table: usize,
    level: PageTableLevel,
)
    requires
        table < frame_count(mem@),
    ensures
        final(frame_allocator)@ == released(
            old(frame_allocator)@,
            subtree_frames(mem@, table as int, level, 512),
        ),
    decreases level.spec_number(),
{
    let ghost alloc0 = frame_allocator@;
    if table < frame_allocator.frame_count() {
        match PhysFrame::from_number(table as u64) {
            Some(frame) => {
                frame_allocator.deallocate_frame(frame);
            },
            None => {},
        }
    }
    proof {
        assert(frame_allocator@ =~= released(alloc0, subtree_frames(mem@, table as int, level, 0)));
    }
    let mut index: usize = 0;
    while index < 512
        invariant
            index <= 512,
            table < frame_count(mem@),
            alloc0 == old(frame_allocator)@,
            frame_allocator@ == released(
                alloc0,
                subtree_frames(mem@, table as int, level, index as nat),
            ),
        decreases 512 - index,
    {
        let entry = mem.read_entry(table, index);
        match next_table(mem, entry, level) {
            Some(child) => {
                release_tables(mem, frame_allocator, child, level.next_lower_level().unwrap());
            },
            None => {},
        }
        proof {
            assert(frame_allocator@ =~= released(
                alloc0,
                subtree_frames(mem@, table as int, level, (index + 1) as nat),
            ));
        }
        index += 1;
    }
}

/// In a complete tree, the tables below one of its tables belong to the tree.
pub proof fn lemma_subtree_owned(
    mem: Seq<u64>,
    tables: Map<int, Seq<int>>,
    table: int,
    upto: nat,
)
    requires
        closed_under_links(mem, tables),
        tables.dom().contains(table),
        upto <= 512,
    ensures
        subtree_frames(mem, table, level_at(tables[table].len()), upto).subset_of(tables.dom()),
    decreases 4 - tables[table].len(), upto,
{
    if upto > 0 {
        let level = level_at(tables[table].len());
        let e = entry_at(mem, table, upto - 1);
        lemma_subtree_owned(mem, tables, table, (upto - 1) as nat);
        if descends(mem, e, level) {
            assert(tables[child_frame(e)] == tables[table].push(upto - 1));
            lemma_subtree_owned(mem, tables, child_frame(e), 512);
        }
    }
}

impl GeneralPageTable {
    /// Ends the address space: every table of its tree goes back to the
    /// allocator, and no frame that it maps does. The address space that the
    /// processor translates through, the one with its top table in `active`,
    /// is not ended but handed back, and so is one whose top table lies
    /// outside the memory.
    pub fn destroy(
        self,
        mem: &PhysMemory,
        frame_allocator: &mut BitmapFrameAllocator,
        active: PhysFrame,
    ) -> (kept: Option<GeneralPageTable>)
        ensures
            kept.is_some() <==> page_base(self.physical_address@) == active@ || self.root()
                >= frame_count(mem@),
            kept.is_some() ==> kept.unwrap() == self && final(frame_allocator)@ == old(frame_allocator)@,
            kept.is_none() ==> final(frame_allocator)@ == released(
                old(frame_allocator)@,
                subtree_frames(mem@, self.root(), PageTableLevel::Four, 512),
            ),
    {
        let top = PhysFrame::containing_address(self.physical_address);
        if top.start_address().as_u64() == active.start_address().as_u64() {
            return Some(self);
        }
        let root = top.number();
        proof {
            lemma_root_number(self.physical_address@);
        }
        if root >= mem.frame_count() as u64 {
            return Some(self);
        }
        release_tables(mem, frame_allocator, root as usize, PageTableLevel::Four);
        None
    }
}

} // verus!
