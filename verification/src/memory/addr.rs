//! Virtual and physical addresses, pages and frames.

use vstd::prelude::*;

verus! {

/// Size of a page and of a frame, in bytes.
pub const PAGE_SIZE: u64 = 4096;

/// The four levels of the page-table tree, leaf tables first.
#[derive(Clone, Copy, PartialEq, Eq, Structural, Debug)]
pub enum PageTableLevel {
    One,
    Two,
    Three,
    Four,
}

impl PageTableLevel {
    /// The level as a number between 1 and 4.
    pub open spec fn spec_number(self) -> nat {
        match self {
            PageTableLevel::One => 1,
            PageTableLevel::Two => 2,
            PageTableLevel::Three => 3,
            PageTableLevel::Four => 4,
        }
    }

    /// The level below this one, or level one itself at the bottom.
    pub open spec fn spec_lower(self) -> PageTableLevel {
        match self {
            PageTableLevel::Four => PageTableLevel::Three,
            PageTableLevel::Three => PageTableLevel::Two,
            _ => PageTableLevel::One,
        }
    }

    /// The level as a number between 1 and 4.
    pub fn number(self) -> (n: u8)
        ensures
            n == self.spec_number(),
    {
        match self {
            PageTableLevel::One => 1,
            PageTableLevel::Two => 2,
            PageTableLevel::Three => 3,
            PageTableLevel::Four => 4,
        }
    }

    /// The next lower level, `None` below level one.
    pub fn next_lower_level(self) -> (lower: Option<PageTableLevel>)
        ensures
            lower.is_some() <==> self != PageTableLevel::One,
            lower.is_some() ==> lower.unwrap() == self.spec_lower() && lower.unwrap().spec_number()
                + 1 == self.spec_number(),
    {
        match self {
            PageTableLevel::Four => Some(PageTableLevel::Three),
            PageTableLevel::Three => Some(PageTableLevel::Two),
            PageTableLevel::Two => Some(PageTableLevel::One),
            PageTableLevel::One => None,
        }
    }
}

/// Whether bits 47 to 63 of `addr` are all equal, as the hardware demands of a
/// virtual address.
pub open spec fn is_canonical(addr: u64) -> bool {
    (addr >> 47) == 0 || (addr >> 47) == 0x1_ffff
}

/// The nine bits of `addr` that select an entry in a table of `level`.
pub open spec fn index_bits(addr: u64, level: PageTableLevel) -> u64 {
    match level {
        PageTableLevel::One => (addr >> 12) & 0x1ff,
        PageTableLevel::Two => (addr >> 21) & 0x1ff,
        PageTableLevel::Three => (addr >> 30) & 0x1ff,
        PageTableLevel::Four => (addr >> 39) & 0x1ff,
    }
}

/// The start of the 4 KiB page or frame that holds `addr`.
pub open spec fn page_base(addr: u64) -> u64 {
    addr & !0xfffu64
}

/// The offset of `addr` in its 4 KiB page or frame.
pub open spec fn page_offset_bits(addr: u64) -> u64 {
    addr & 0xfff
}

/// Whether `addr` fits the 52 bits of a physical address.
pub open spec fn is_physical(addr: u64) -> bool {
    addr < 0x10_0000_0000_0000
}

/// Calls `x86_64::VirtAddr::try_new` and reports whether it accepted `addr`,
/// which it does exactly for canonical addresses.
#[verifier::external_body]
fn canonical_address(addr: u64) -> (ok: bool)
    ensures
        ok == is_canonical(addr),
{
    x86_64::VirtAddr::try_new(addr).is_ok()
}

/// Calls `x86_64::VirtAddr::page_table_index` on the canonical address `addr`:
/// the nine bits of the address that belong to the level.
#[verifier::external_body]
fn table_index_of(addr: u64, level: PageTableLevel) -> (index: u16)
    requires
        is_canonical(addr),
    ensures
        index == index_bits(addr, level),
{
    let level = match level {
        PageTableLevel::One => x86_64::structures::paging::page_table::PageTableLevel::One,
        PageTableLevel::Two => x86_64::structures::paging::page_table::PageTableLevel::Two,
        PageTableLevel::Three => x86_64::structures::paging::page_table::PageTableLevel::Three,
        PageTableLevel::Four => x86_64::structures::paging::page_table::PageTableLevel::Four,
    };
    u16::from(x86_64::VirtAddr::new(addr).page_table_index(level))
}

/// Calls `x86_64::VirtAddr::page_offset` on the canonical address `addr`: the
/// low twelve bits of the address.
#[verifier::external_body]
fn offset_in_page(addr: u64) -> (offset: u16)
    requires
        is_canonical(addr),
    ensures
        offset == page_offset_bits(addr),
{
    u16::from(x86_64::VirtAddr::new(addr).page_offset())
}

/// Calls `x86_64::PhysAddr::try_new` and reports whether it accepted `addr`,
/// which it does exactly when bits 52 to 63 are clear.
#[verifier::external_body]
fn physical_address(addr: u64) -> (ok: bool)
    ensures
        ok == is_physical(addr),
{
    x86_64::PhysAddr::try_new(addr).is_ok()
}

/// A canonical virtual address.
#[derive(Clone, Copy, PartialEq, Eq, Structural, Debug)]
pub struct VirtAddr {
    value: u64,
}

impl View for VirtAddr {
    type V = u64;

    /// The address as a number.
    closed spec fn view(&self) -> u64 {
        self.value
    }
}

impl VirtAddr {
    /// Every virtual address is canonical.
    #[verifier::type_invariant]
    pub open spec fn inv(self) -> bool {
        is_canonical(self@)
    }

    /// The address `addr`, if it is canonical.
    pub fn try_new(addr: u64) -> (r: Option<VirtAddr>)
        ensures
            r.is_some() <==> is_canonical(addr),
            r.is_some() ==> r.unwrap()@ == addr && r.unwrap().inv(),
    {
        if canonical_address(addr) {
            Some(VirtAddr { value: addr })
        } else {
            None
        }
    }

    /// The address as a number.
    pub fn as_u64(self) -> (r: u64)
        ensures
            r == self@,
            is_canonical(r),
    {
        proof {
            use_type_invariant(&self);
        }
        self.value
    }

    /// The index that this address selects in a table of `level`.
    pub fn page_table_index(self, level: PageTableLevel) -> (index: u16)
        ensures
            index == index_bits(self@, level),
            index < 512,
    {
        proof {
            use_type_invariant(&self);
            lemma_index_bits_bound(self.value);
        }
        table_index_of(self.value, level)
    }

    /// The offset of this address in its page.
    pub fn page_offset(self) -> (offset: u16)
        ensures
            offset == page_offset_bits(self@),
            offset < 4096,
    {
        proof {
            use_type_invariant(&self);
            lemma_index_bits_bound(self.value);
        }
        offset_in_page(self.value)
    }
}

/// Table indices stay below 512 and page offsets below 4096.
pub proof fn lemma_index_bits_bound(addr: u64)
    ensures
        forall|level: PageTableLevel| #[trigger] index_bits(addr, level) < 512,
        page_offset_bits(addr) < 4096,
{
    assert((addr >> 12) & 0x1ff < 512 && (addr >> 21) & 0x1ff < 512 && (addr >> 30) & 0x1ff < 512
        && (addr >> 39) & 0x1ff < 512 && addr & 0xfff < 4096) by (bit_vector);
}

/// A physical address of at most 52 bits.
#[derive(Clone, Copy, PartialEq, Eq, Structural, Debug)]
pub struct PhysAddr {
    value: u64,
}

impl View for PhysAddr {
    type V = u64;

    /// The address as a number.
    closed spec fn view(&self) -> u64 {
        self.value
    }
}

impl PhysAddr {
    /// Every physical address has at most 52 bits.
    #[verifier::type_invariant]
    pub open spec fn inv(self) -> bool {
        is_physical(self@)
    }

    /// The address `addr`, if bits 52 to 63 are clear.
    pub fn try_new(addr: u64) -> (r: Option<PhysAddr>)
        ensures
            r.is_some() <==> is_physical(addr),
            r.is_some() ==> r.unwrap()@ == addr && r.unwrap().inv(),
    {
        if physical_address(addr) {
            Some(PhysAddr { value: addr })
        } else {
            None
        }
    }

    /// The address as a number.
    pub fn as_u64(self) -> (r: u64)
        ensures
            r == self@,
            is_physical(r),
    {
        proof {
            use_type_invariant(&self);
        }
        self.value
    }
}

/// A 4 KiB page of virtual memory, named by its first address.
#[derive(Clone, Copy, PartialEq, Eq, Structural, Debug)]
pub struct Page {
    start: u64,
}

impl View for Page {
    type V = u64;

    /// The first address of the page as a number.
    closed spec fn view(&self) -> u64 {
        self.start
    }
}

impl Page {
    /// Every page starts at a canonical address that is a multiple of its
    /// size.
    #[verifier::type_invariant]
    pub open spec fn inv(self) -> bool {
        is_canonical(self@) && page_base(self@) == self@
    }

    /// Whether `addr` lies in this page.
    pub open spec fn contains(self, addr: u64) -> bool {
        page_base(addr) == self@
    }

    /// The page that holds `address`.
    pub fn containing_address(address: VirtAddr) -> (page: Page)
        ensures
            page@ == page_base(address@),
            page.inv(),
    {
        let raw = address.as_u64();
        proof {
            lemma_page_base(raw);
        }
        Page { start: raw & !0xfffu64 }
    }

    /// The page that starts at `address`, if a page starts there.
    pub fn from_start_address(address: VirtAddr) -> (r: Option<Page>)
        ensures
            r.is_some() <==> page_base(address@) == address@,
            r.is_some() ==> r.unwrap()@ == address@ && r.unwrap().inv(),
    {
        let raw = address.as_u64();
        if raw & !0xfffu64 == raw {
            Some(Page { start: raw })
        } else {
            None
        }
    }

    /// The first address of the page.
    pub fn start_address(self) -> (address: VirtAddr)
        ensures
            address@ == self@,
            address.inv(),
    {
        proof {
            use_type_invariant(&self);
        }
        VirtAddr { value: self.start }
    }
}

/// A 4 KiB frame of physical memory, named by its first address.
#[derive(Clone, Copy, PartialEq, Eq, Structural, Debug)]
pub struct PhysFrame {
    start: u64,
}

impl View for PhysFrame {
    type V = u64;

    /// The first address of the frame as a number.
    closed spec fn view(&self) -> u64 {
        self.start
    }
}

impl PhysFrame {
    /// Every frame starts at a physical address that is a multiple of its
    /// size.
    #[verifier::type_invariant]
    pub open spec fn inv(self) -> bool {
        is_physical(self@) && page_base(self@) == self@
    }

    /// The position of the frame in physical memory, counted in frames.
    pub open spec fn spec_number(self) -> int {
        self@ as int / 4096
    }

    /// The frame that holds `address`.
    pub fn containing_address(address: PhysAddr) -> (frame: PhysFrame)
        ensures
            frame@ == page_base(address@),
            frame.inv(),
    {
        let raw = address.as_u64();
        proof {
            lemma_page_base(raw);
        }
        PhysFrame { start: raw & !0xfffu64 }
    }

    /// The frame that starts at `address`, if a frame starts there.
    pub fn from_start_address(address: PhysAddr) -> (r: Option<PhysFrame>)
        ensures
            r.is_some() <==> page_base(address@) == address@,
            r.is_some() ==> r.unwrap()@ == address@ && r.unwrap().inv(),
    {
        let raw = address.as_u64();
        if raw & !0xfffu64 == raw {
            Some(PhysFrame { start: raw })
        } else {
            None
        }
    }

    /// The frame at position `number`, if its address is a physical address.
    pub fn from_number(number: u64) -> (r: Option<PhysFrame>)
        ensures
            r.is_some() <==> number < 0x100_0000_0000,
            r.is_some() ==> r.unwrap()@ == number * 4096 && r.unwrap().inv()
                && r.unwrap().spec_number() == number,
    {
        if number < 0x100_0000_0000 {
            proof {
                lemma_frame_number(number);
            }
            Some(PhysFrame { start: number * 4096 })
        } else {
            None
        }
    }

    /// The first address of the frame.
    pub fn start_address(self) -> (address: PhysAddr)
        ensures
            address@ == self@,
            address.inv(),
    {
        proof {
            use_type_invariant(&self);
        }
        PhysAddr { value: self.start }
    }

    /// The position of the frame in physical memory, counted in frames.
    pub fn number(self) -> (n: u64)
        ensures
            n == self.spec_number(),
            n * 4096 == self@,
            n < 0x100_0000_0000,
    {
        proof {
            use_type_invariant(&self);
            lemma_aligned_number(self.start);
        }
        self.start / PAGE_SIZE
    }
}

/// Rounding down to a page keeps an address canonical, physical and aligned.
pub proof fn lemma_page_base(addr: u64)
    ensures
        page_base(page_base(addr)) == page_base(addr),
        page_base(addr) <= addr,
        is_canonical(addr) ==> is_canonical(page_base(addr)),
        is_physical(addr) ==> is_physical(page_base(addr)),
        addr == page_base(addr) + page_offset_bits(addr),
{
    assert((addr & !0xfffu64) & !0xfffu64 == addr & !0xfffu64) by (bit_vector);
    assert(addr & !0xfffu64 <= addr) by (bit_vector);
    assert(((addr >> 47) == 0 ==> ((addr & !0xfffu64) >> 47) == 0) && ((addr >> 47) == 0x1_ffff
        ==> ((addr & !0xfffu64) >> 47) == 0x1_ffff)) by (bit_vector);
    assert(addr == (addr & !0xfffu64) + (addr & 0xfff)) by (bit_vector);
}

/// The address of frame `number` is aligned and physical.
pub proof fn lemma_frame_number(number: u64)
    requires
        number < 0x100_0000_0000,
    ensures
        is_physical((number * 4096) as u64),
        page_base((number * 4096) as u64) == number * 4096,
        (number * 4096) as u64 / 4096 == number,
{
    let addr = (number * 4096) as u64;
    assert(addr % 4096 == 0);
    assert(addr % 4096 == 0 ==> addr & !0xfffu64 == addr) by (bit_vector);
}

/// An aligned address is 4096 times its frame number.
pub proof fn lemma_aligned_number(addr: u64)
    requires
        page_base(addr) == addr,
    ensures
        (addr / 4096) * 4096 == addr,
        addr % 4096 == 0,
        is_physical(addr) ==> addr / 4096 < 0x100_0000_0000,
{
    assert(addr & !0xfffu64 == addr ==> addr % 4096 == 0) by (bit_vector);
}

/// Two canonical addresses lie in the same page exactly when they select the
/// same entry at each of the four levels; an address in the page of a
/// canonical address is canonical.
pub proof fn lemma_same_page(a: u64, b: u64)
    ensures
        page_base(a) == page_base(b) ==> (forall|level: PageTableLevel|
            index_bits(a, level) == index_bits(b, level)) && is_canonical(a) == is_canonical(b),
        is_canonical(a) && is_canonical(b) && index_bits(a, PageTableLevel::One) == index_bits(
            b,
            PageTableLevel::One,
        ) && index_bits(a, PageTableLevel::Two) == index_bits(b, PageTableLevel::Two) && index_bits(
            a,
            PageTableLevel::Three,
        ) == index_bits(b, PageTableLevel::Three) && index_bits(a, PageTableLevel::Four)
            == index_bits(b, PageTableLevel::Four) ==> page_base(a) == page_base(b),
{
    assert(a & !0xfffu64 == b & !0xfffu64 ==> (a >> 12) & 0x1ff == (b >> 12) & 0x1ff && (a >> 21)
        & 0x1ff == (b >> 21) & 0x1ff && (a >> 30) & 0x1ff == (b >> 30) & 0x1ff && (a >> 39) & 0x1ff
        == (b >> 39) & 0x1ff && a >> 47 == b >> 47) by (bit_vector);
    assert(((a >> 47) == 0 || (a >> 47) == 0x1_ffff) && ((b >> 47) == 0 || (b >> 47) == 0x1_ffff)
        && (a >> 12) & 0x1ff == (b >> 12) & 0x1ff && (a >> 21) & 0x1ff == (b >> 21) & 0x1ff && (a
        >> 30) & 0x1ff == (b >> 30) & 0x1ff && (a >> 39) & 0x1ff == (b >> 39) & 0x1ff ==> a
        & !0xfffu64 == b & !0xfffu64) by (bit_vector);
    if page_base(a) == page_base(b) {
        assert forall|level: PageTableLevel| index_bits(a, level) == index_bits(b, level) by {
            match level {
                PageTableLevel::One => {},
                PageTableLevel::Two => {},
                PageTableLevel::Three => {},
                PageTableLevel::Four => {},
            }
        }
    }
}

} // verus!
