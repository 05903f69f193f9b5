//! The address-space handle and its translator.

use vstd::prelude::*;
use crate::memory::addr::{
    index_bits, is_physical, page_base, Page, PageTableLevel, PhysAddr, PhysFrame, VirtAddr,
};
use crate::memory::entry::{
    entry_address, entry_huge, entry_present, PageTableEntry, PageTableFlags,
};
use crate::memory::frame_alloc::is_used;
use crate::memory::phys::{entry_at, frame_count, PhysMemory};
use crate::memory::walk::{
    child_frame, closed_under_links, descends, leads_to, lemma_leads_to_extend, offset_mask,
    resolve, translate_spec, walk, Translation,
};

verus! {

/// What a translation gives back.
#[derive(Clone, Copy, PartialEq, Eq, Structural, Debug)]
pub enum TranslateResult {
    /// The address is mapped to `address`, under `flags`.
    Mapped { address: PhysAddr, flags: PageTableFlags },
    /// No entry maps the address.
    Unmapped,
}

impl View for TranslateResult {
    type V = Translation;

    /// The outcome with its address and flags as numbers.
    open spec fn view(&self) -> Translation {
        match *self {
            TranslateResult::Mapped { address, flags } => Translation::Mapped {
                address: address@,
                flags: flags@,
            },
            TranslateResult::Unmapped => Translation::Unmapped,
        }
    }
}

/// Why the frame of a page could not be told.
#[derive(Clone, Copy, PartialEq, Eq, Structural, Debug)]
pub enum TranslateError {
    /// No entry maps the page.
    Unmapped,
    /// The page lies in a huge page.
    ParentEntryHugePage,
}

/// One address space: the tree of page tables below one top-level table.
///
/// The handle names the top table by its physical address. Beside it, as
/// ghost state, it tracks which frames the tree owns as tables and by which
/// indices each is reached from the top.
pub struct GeneralPageTable {
    pub physical_address: PhysAddr,
    pub tables: Ghost<Map<int, Seq<int>>>,
}

impl GeneralPageTable {
    /// The table frames that the address space owns, each with the indices
    /// that lead to it from the top table.
    pub open spec fn tables(self) -> Map<int, Seq<int>> {
        self.tables@
    }

    /// The frame number of the top table.
    pub open spec fn root(self) -> int {
        self.physical_address@ as int / 4096
    }

    /// The address space is a tree in the memory `mem`: the top table starts
    /// a frame, and the owned tables are complete for the memory as a tree of
    /// four levels below it.
    pub open spec fn structured(self, mem: Seq<u64>) -> bool {
        &&& page_base(self.physical_address@) == self.physical_address@
        &&& self.tables().dom().contains(self.root())
        &&& self.tables()[self.root()] == Seq::<int>::empty()
        &&& closed_under_links(mem, self.tables())
    }

    /// The address space is well formed in the memory `mem` under the
    /// allocator state `alloc`: it is a tree in the memory, the allocator
    /// manages frames of the memory, and each owned table is marked as used.
    pub open spec fn wf(self, mem: Seq<u64>, alloc: Seq<bool>) -> bool {
        &&& self.structured(mem)
        &&& alloc.len() <= frame_count(mem)
        &&& forall|t: int| #[trigger] self.tables().dom().contains(t) ==> is_used(alloc, t)
    }

    /// The translation of the virtual address `addr` in this address space.
    pub open spec fn translation(self, mem: Seq<u64>, addr: u64) -> Translation {
        translate_spec(mem, self.physical_address@, addr)
    }

    /// Whether this address space and `other` own no table frame in common.
    pub open spec fn disjoint(self, other: GeneralPageTable) -> bool {
        self.tables().dom().disjoint(other.tables().dom())
    }

    /// A handle for the tree below the top table in `current`, such as the one
    /// that the processor translates through. Nothing is known of the tree:
    /// the handle serves to translate and to copy. For a handle that is well
    /// formed, see `adopt`.
    pub fn ref_from_current(current: PhysFrame) -> (space: GeneralPageTable)
        ensures
            space.physical_address@ == current@,
    {
        GeneralPageTable { physical_address: current.start_address(), tables: Ghost(Map::empty()) }
    }

    /// Decides what a switch to this address space has to do while the
    /// processor translates through the top table in `active`: nothing when
    /// this address space is the active one already, else to install the
    /// frame that is returned.
    pub fn switch(&self, active: PhysFrame) -> (install: Option<PhysFrame>)
        ensures
            install.is_none() <==> page_base(self.physical_address@) == active@,
            install.is_some() ==> install.unwrap()@ == page_base(self.physical_address@),
    {
        let frame = PhysFrame::containing_address(self.physical_address);
        if frame.start_address().as_u64() == active.start_address().as_u64() {
            None
        } else {
            Some(frame)
        }
    }

    /// Resolves `addr` by walking the tables from the top: an unused entry
    /// ends the walk with nothing, a huge-page entry or an entry of a
    /// level-one table ends it with the mapped address and the entry's flags.
    pub fn translate(&self, mem: &PhysMemory, addr: VirtAddr) -> (r: TranslateResult)
        ensures
            r@ == self.translation(mem@, addr@),
    {
        let root = PhysFrame::containing_address(self.physical_address).number();
        proof {
            assert(root == self.root()) by {
                lemma_root_number(self.physical_address@);
            }
        }
        if root >= mem.frame_count() as u64 {
            return TranslateResult::Unmapped;
        }
        let (_table, level, entry) = descend(mem, root as usize, addr);
        resolve_entry(level, entry, addr.as_u64())
    }

    /// The frame that `page` is mapped to by an entry of a level-one table.
    pub fn translate_page(&self, mem: &PhysMemory, page: Page) -> (r: Result<
        PhysFrame,
        TranslateError,
    >)
        ensures
            ({
                let (level, e) = walk(mem@, self.root(), page@, PageTableLevel::Four);
                let inside = self.root() < frame_count(mem@);
                match r {
                    Ok(frame) => inside && level == PageTableLevel::One && entry_present(e)
                        && frame@ == entry_address(e),
                    Err(TranslateError::Unmapped) => !inside || !entry_present(e) || (level
                        != PageTableLevel::One && !entry_huge(e)),
                    Err(TranslateError::ParentEntryHugePage) => inside && level
                        != PageTableLevel::One && entry_present(e) && entry_huge(e),
                }
            }),
    {
        let root = PhysFrame::containing_address(self.physical_address).number();
        proof {
            lemma_root_number(self.physical_address@);
        }
        if root >= mem.frame_count() as u64 {
            return Err(TranslateError::Unmapped);
        }
        let (_table, level, entry) = descend(mem, root as usize, page.start_address());
        if entry.is_unused() {
            Err(TranslateError::Unmapped)
        } else if level != PageTableLevel::One {
            if entry.is_huge() {
                Err(TranslateError::ParentEntryHugePage)
            } else {
                Err(TranslateError::Unmapped)
            }
        } else {
            Ok(PhysFrame::containing_address(entry.addr()))
        }
    }

    /// The physical address that `addr` is mapped to, if it is mapped.
    pub fn translate_addr(&self, mem: &PhysMemory, addr: VirtAddr) -> (r: Option<PhysAddr>)
        ensures
            match self.translation(mem@, addr@) {
                Translation::Mapped { address, flags } => r.is_some() && r.unwrap()@ == address,
                Translation::Unmapped => r.is_none(),
            },
    {
        match self.translate(mem, addr) {
            TranslateResult::Mapped { address, flags: _ } => Some(address),
            TranslateResult::Unmapped => None,
        }
    }
}

/// The frame number of an address is that of the frame that holds it.
pub proof fn lemma_root_number(addr: u64)
    ensures
        page_base(addr) as int / 4096 == addr as int / 4096,
{
    assert((addr & !0xfffu64) / 4096 == addr / 4096) by (bit_vector);
}

/// Walks from the top table in frame `root` down to the entry that decides
/// the translation of `addr`.
pub(crate) fn descend(mem: &PhysMemory, root: usize, addr: VirtAddr) -> (r: (
    usize,
    PageTableLevel,
    PageTableEntry,
))
    requires
        root < frame_count(mem@),
    ensures
        (r.1, r.2@) == walk(mem@, root as int, addr@, PageTableLevel::Four),
        leads_to(mem@, root as int, PageTableLevel::Four, addr@, r.0 as int, r.1),
        r.0 < frame_count(mem@),
        r.2@ == entry_at(mem@, r.0 as int, index_bits(addr@, r.1) as int),
        !descends(mem@, r.2@, r.1),
{
    let mut table = root;
    let mut level = PageTableLevel::Four;
    loop
        invariant
            table < frame_count(mem@),
            leads_to(mem@, root as int, PageTableLevel::Four, addr@, table as int, level),
            walk(mem@, root as int, addr@, PageTableLevel::Four) == walk(
                mem@,
                table as int,
                addr@,
                level,
            ),
        decreases level.spec_number(),
    {
        let index = addr.page_table_index(level) as usize;
        let entry = mem.read_entry(table, index);
        match next_table(mem, entry, level) {
            Some(child) => {
                proof {
                    lemma_leads_to_extend(
                        mem@,
                        root as int,
                        PageTableLevel::Four,
                        addr@,
                        table as int,
                        level,
                    );
                }
                table = child;
                level = level.next_lower_level().unwrap();
            },
            None => {
                return (table, level, entry);
            },
        }
    }
}

/// The frame of the table below `entry`, read in a table of `level`, if the
/// walk goes on there.
pub(crate) fn next_table(mem: &PhysMemory, entry: PageTableEntry, level: PageTableLevel) -> (r:
    Option<usize>)
    ensures
        r.is_some() <==> descends(mem@, entry@, level),
        r.is_some() ==> r.unwrap() == child_frame(entry@) && r.unwrap() < frame_count(mem@),
{
    if level == PageTableLevel::One || entry.is_unused() || entry.is_huge() {
        return None;
    }
    let child = entry.addr().as_u64() / 4096;
    if child >= mem.frame_count() as u64 {
        return None;
    }
    Some(child as usize)
}

/// The translation that `entry` gives for `addr` when the walk ends at it in
/// a table of `level`.
pub(crate) fn resolve_entry(level: PageTableLevel, entry: PageTableEntry, addr: u64) -> (r:
    TranslateResult)
    ensures
        r@ == resolve(level, entry@, addr),
{
    if entry.is_unused() || !(level == PageTableLevel::One || entry.is_huge()) {
        return TranslateResult::Unmapped;
    }
    let mask: u64 = match level {
        PageTableLevel::One => 0xfff,
        PageTableLevel::Two => 0x1f_ffff,
        PageTableLevel::Three => 0x3fff_ffff,
        PageTableLevel::Four => 0x7f_ffff_ffff,
    };
    let base = entry.addr().as_u64();
    proof {
        lemma_offset_sum(entry@, addr);
    }
    let address = PhysAddr::try_new((base & !mask) + (addr & mask));
    TranslateResult::Mapped { address: address.unwrap(), flags: entry.flags() }
}

/// A frame address and an offset below a level add up to a physical address.
pub proof fn lemma_offset_sum(e: u64, addr: u64)
    ensures
        forall|level: PageTableLevel|
            is_physical(
                #[trigger] ((entry_address(e) & !offset_mask(level)) + (addr & offset_mask(
                    level,
                ))) as u64,
            ) && (entry_address(e) & !offset_mask(level)) + (addr & offset_mask(level))
                < 0x10_0000_0000_0000,
{
    assert(((e & 0x000f_ffff_ffff_f000) & !0xfffu64) + (addr & 0xfff) < 0x10_0000_0000_0000 && ((e
        & 0x000f_ffff_ffff_f000) & !0x1f_ffffu64) + (addr & 0x1f_ffff) < 0x10_0000_0000_0000 && ((e
        & 0x000f_ffff_ffff_f000) & !0x3fff_ffffu64) + (addr & 0x3fff_ffff) < 0x10_0000_0000_0000
        && ((e & 0x000f_ffff_ffff_f000) & !0x7f_ffff_ffffu64) + (addr & 0x7f_ffff_ffff)
        < 0x10_0000_0000_0000) by (bit_vector);
}

} // verus!
