//! The format of a page-table entry: a frame address and a set of flags in one
//! 64-bit word.

use vstd::prelude::*;
use crate::memory::addr::{is_physical, page_base, PhysAddr};

verus! {

/// The bits of an entry that hold the frame address.
pub const ADDRESS_MASK: u64 = 0x000f_ffff_ffff_f000;

/// The mapped frame or table is in memory.
pub const PRESENT: u64 = 1;

/// Writes through the entry are allowed.
pub const WRITABLE: u64 = 1 << 1;

/// Accesses from user mode are allowed.
pub const USER_ACCESSIBLE: u64 = 1 << 2;

/// Writes go through the cache.
pub const WRITE_THROUGH: u64 = 1 << 3;

/// The mapped memory is not cached.
pub const NO_CACHE: u64 = 1 << 4;

/// Set by the processor when the entry is used.
pub const ACCESSED: u64 = 1 << 5;

/// Set by the processor on a write through the entry.
pub const DIRTY: u64 = 1 << 6;

/// The entry maps a huge frame and not a table.
pub const HUGE_PAGE: u64 = 1 << 7;

/// The mapping is kept across switches of the address space.
pub const GLOBAL: u64 = 1 << 8;

/// Code in the mapped frame cannot be run.
pub const NO_EXECUTE: u64 = 1 << 63;

/// The flags that a table entry takes from the flags of a page mapped below it.
pub const PARENT_FLAGS: u64 = 7;

/// The frame address held in the entry `e`.
pub open spec fn entry_address(e: u64) -> u64 {
    e & ADDRESS_MASK
}

/// The flag bits held in the entry `e`.
pub open spec fn entry_flags(e: u64) -> u64 {
    e & !ADDRESS_MASK
}

/// Whether the entry `e` has its present flag set; otherwise it is unused.
pub open spec fn entry_present(e: u64) -> bool {
    e & PRESENT != 0
}

/// Whether the entry `e` has its huge-page flag set.
pub open spec fn entry_huge(e: u64) -> bool {
    e & HUGE_PAGE != 0
}

/// The entry that holds `address` and `flags`.
pub open spec fn entry_of(address: u64, flags: u64) -> u64 {
    address | flags
}

/// Whether `bits` lie outside the address field of an entry.
pub open spec fn is_flags(bits: u64) -> bool {
    bits & ADDRESS_MASK == 0
}

/// Calls `x86_64::structures::paging::PageTableFlags::from_bits_truncate` and
/// hands back the bits it kept: those outside the address field, each of
/// which is a flag of that type.
#[verifier::external_body]
fn known_flag_bits(bits: u64) -> (kept: u64)
    ensures
        kept == bits & !ADDRESS_MASK,
{
    x86_64::structures::paging::PageTableFlags::from_bits_truncate(bits).bits()
}

/// A set of page-table flags.
#[derive(Clone, Copy, PartialEq, Eq, Structural, Debug)]
pub struct PageTableFlags {
    bits: u64,
}

impl View for PageTableFlags {
    type V = u64;

    /// The flags as bits of an entry.
    closed spec fn view(&self) -> u64 {
        self.bits
    }
}

impl PageTableFlags {
    /// No flag lies in the address field of an entry.
    #[verifier::type_invariant]
    pub open spec fn inv(self) -> bool {
        is_flags(self@)
    }

    /// Whether every flag of `other` is in this set.
    pub open spec fn spec_contains(self, other: u64) -> bool {
        self@ & other == other
    }

    /// No flag at all.
    pub fn empty() -> (flags: PageTableFlags)
        ensures
            flags@ == 0,
            flags.inv(),
    {
        assert(0u64 & ADDRESS_MASK == 0) by (bit_vector);
        PageTableFlags { bits: 0 }
    }

    /// The flags among `bits`; bits of the address field are dropped.
    pub fn from_bits_truncate(bits: u64) -> (flags: PageTableFlags)
        ensures
            flags@ == bits & !ADDRESS_MASK,
            flags.inv(),
            is_flags(bits) ==> flags@ == bits,
    {
        let kept = known_flag_bits(bits);
        proof {
            lemma_entry_parts(bits);
            lemma_flags_kept(bits);
        }
        PageTableFlags { bits: kept }
    }

    /// The flags as bits of an entry.
    pub fn bits(self) -> (bits: u64)
        ensures
            bits == self@,
            is_flags(bits),
    {
        proof {
            use_type_invariant(&self);
        }
        self.bits
    }

    /// Whether every flag among `bits` is in this set.
    pub fn contains(self, bits: u64) -> (r: bool)
        ensures
            r == self.spec_contains(bits),
    {
        self.bits & bits == bits
    }

    /// This set together with the flags of `other`.
    pub fn union(self, other: PageTableFlags) -> (flags: PageTableFlags)
        ensures
            flags@ == self@ | other@,
            flags.inv(),
    {
        proof {
            use_type_invariant(&self);
            use_type_invariant(&other);
            lemma_flags_union(self.bits, other.bits);
        }
        PageTableFlags { bits: self.bits | other.bits }
    }
}

/// One entry of a page table.
#[derive(Clone, Copy, PartialEq, Eq, Structural, Debug)]
pub struct PageTableEntry {
    entry: u64,
}

impl View for PageTableEntry {
    type V = u64;

    /// The word that stores the entry.
    closed spec fn view(&self) -> u64 {
        self.entry
    }
}

impl PageTableEntry {
    /// An entry with no address and no flags.
    pub fn new() -> (e: PageTableEntry)
        ensures
            e@ == 0,
    {
        PageTableEntry { entry: 0 }
    }

    /// The entry stored as the word `bits`.
    pub fn from_bits(bits: u64) -> (e: PageTableEntry)
        ensures
            e@ == bits,
    {
        PageTableEntry { entry: bits }
    }

    /// The word that stores this entry.
    pub fn bits(&self) -> (bits: u64)
        ensures
            bits == self@,
    {
        self.entry
    }

    /// Whether the entry maps nothing: its present flag is clear.
    pub fn is_unused(&self) -> (r: bool)
        ensures
            r == !entry_present(self@),
    {
        self.entry & PRESENT == 0
    }

    /// Whether the entry maps a huge frame.
    pub fn is_huge(&self) -> (r: bool)
        ensures
            r == entry_huge(self@),
    {
        self.entry & HUGE_PAGE != 0
    }

    /// The flags that the entry holds.
    pub fn flags(&self) -> (flags: PageTableFlags)
        ensures
            flags@ == entry_flags(self@),
            flags.inv(),
    {
        PageTableFlags::from_bits_truncate(self.entry)
    }

    /// The frame address that the entry holds.
    pub fn addr(&self) -> (address: PhysAddr)
        ensures
            address@ == entry_address(self@),
            address.inv(),
            page_base(address@) == address@,
    {
        proof {
            lemma_entry_parts(self.entry);
        }
        let r = PhysAddr::try_new(self.entry & ADDRESS_MASK);
        r.unwrap()
    }

    /// Makes the entry hold `address`, rounded down to its frame, and `flags`.
    pub fn set_addr(&mut self, address: PhysAddr, flags: PageTableFlags)
        ensures
            final(self)@ == entry_of(page_base(address@), flags@),
    {
        let a = address.as_u64();
        let f = flags.bits();
        self.entry = (a & !0xfffu64) | f;
    }

    /// Clears the entry.
    pub fn set_unused(&mut self)
        ensures
            final(self)@ == 0,
    {
        self.entry = 0;
    }

    /// Replaces the flags and keeps the address.
    pub fn set_flags(&mut self, flags: PageTableFlags)
        ensures
            final(self)@ == entry_of(entry_address(old(self)@), flags@),
    {
        let f = flags.bits();
        self.entry = (self.entry & ADDRESS_MASK) | f;
    }
}

/// An entry splits into an aligned physical address and flags, and is their
/// union.
pub proof fn lemma_entry_parts(e: u64)
    ensures
        is_physical(entry_address(e)),
        page_base(entry_address(e)) == entry_address(e),
        is_flags(entry_flags(e)),
        e == entry_of(entry_address(e), entry_flags(e)),
        entry_present(e) == (entry_flags(e) & PRESENT != 0),
        entry_huge(e) == (entry_flags(e) & HUGE_PAGE != 0),
        e == 0 ==> !entry_present(e) && !entry_huge(e),
{
    assert((e & 0x000f_ffff_ffff_f000) < 0x10_0000_0000_0000 && (e & 0x000f_ffff_ffff_f000)
        & !0xfffu64 == e & 0x000f_ffff_ffff_f000 && (e & !0x000f_ffff_ffff_f000u64)
        & 0x000f_ffff_ffff_f000 == 0 && e == (e & 0x000f_ffff_ffff_f000) | (e
        & !0x000f_ffff_ffff_f000u64) && (e & 1 != 0) == ((e & !0x000f_ffff_ffff_f000u64) & 1 != 0)
        && (e & (1u64 << 7) != 0) == ((e & !0x000f_ffff_ffff_f000u64) & (1u64 << 7) != 0) && (e
        == 0 ==> e & 1 == 0 && e & (1u64 << 7) == 0)) by (bit_vector);
}

/// Flags survive truncation unchanged.
pub proof fn lemma_flags_kept(bits: u64)
    ensures
        is_flags(bits) ==> bits & !ADDRESS_MASK == bits,
{
    assert(bits & 0x000f_ffff_ffff_f000 == 0 ==> bits & !0x000f_ffff_ffff_f000u64 == bits)
        by (bit_vector);
}

/// The union of two flag sets is a flag set.
pub proof fn lemma_flags_union(a: u64, b: u64)
    requires
        is_flags(a),
        is_flags(b),
    ensures
        is_flags(a | b),
{
    assert(a & 0x000f_ffff_ffff_f000 == 0 && b & 0x000f_ffff_ffff_f000 == 0 ==> (a | b)
        & 0x000f_ffff_ffff_f000 == 0) by (bit_vector);
}

/// What an entry built from an aligned physical address and flags holds.
pub proof fn lemma_entry_of(address: u64, flags: u64)
    requires
        is_physical(address),
        page_base(address) == address,
        is_flags(flags),
    ensures
        entry_address(entry_of(address, flags)) == address,
        entry_flags(entry_of(address, flags)) == flags,
        entry_present(entry_of(address, flags)) == (flags & PRESENT != 0),
        entry_huge(entry_of(address, flags)) == (flags & HUGE_PAGE != 0),
{
    assert(address < 0x10_0000_0000_0000 && address & !0xfffu64 == address && flags
        & 0x000f_ffff_ffff_f000 == 0 ==> ((address | flags) & 0x000f_ffff_ffff_f000 == address && (
    address | flags) & !0x000f_ffff_ffff_f000u64 == flags && ((address | flags) & 1 != 0) == (flags
        & 1 != 0) && ((address | flags) & (1u64 << 7) != 0) == (flags & (1u64 << 7) != 0)))
        by (bit_vector);
}

} // verus!
