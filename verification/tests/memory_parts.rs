use raca_core::memory::addr::{Page, PageTableLevel, PhysAddr, PhysFrame, VirtAddr};
use raca_core::memory::entry::{
    PageTableEntry, PageTableFlags, HUGE_PAGE, NO_EXECUTE, PRESENT, WRITABLE,
};
use raca_core::memory::frame_alloc::BitmapFrameAllocator;
use raca_core::memory::phys::PhysMemory;

#[test]
fn virtual_addresses_are_canonical() {
    assert!(VirtAddr::try_new(0).is_some());
    assert!(VirtAddr::try_new(0x7fff_ffff_ffff).is_some());
    assert!(VirtAddr::try_new(0x8000_0000_0000).is_none());
    assert!(VirtAddr::try_new(0xffff_7fff_ffff_ffff).is_none());
    assert!(VirtAddr::try_new(0xffff_8000_0000_0000).is_some());
    assert_eq!(VirtAddr::try_new(0x1234).unwrap().as_u64(), 0x1234);
}

#[test]
fn table_indices_and_page_offset_of_an_address() {
    let addr = VirtAddr::try_new(0xffff_8123_4567_89ab).unwrap();
    assert_eq!(addr.page_table_index(PageTableLevel::Four), 258);
    assert_eq!(addr.page_table_index(PageTableLevel::Three), 141);
    assert_eq!(addr.page_table_index(PageTableLevel::Two), 43);
    assert_eq!(addr.page_table_index(PageTableLevel::One), 120);
    assert_eq!(addr.page_offset(), 0x9ab);
    let low = VirtAddr::try_new(0x4000_0000).unwrap();
    assert_eq!(low.page_table_index(PageTableLevel::Four), 0);
    assert_eq!(low.page_table_index(PageTableLevel::Three), 1);
    assert_eq!(low.page_table_index(PageTableLevel::Two), 0);
    assert_eq!(low.page_table_index(PageTableLevel::One), 0);
    assert_eq!(low.page_offset(), 0);
}

#[test]
fn levels_count_down_to_one() {
    assert_eq!(PageTableLevel::Four.number(), 4);
    assert_eq!(PageTableLevel::One.number(), 1);
    assert_eq!(PageTableLevel::Four.next_lower_level(), Some(PageTableLevel::Three));
    assert_eq!(PageTableLevel::Three.next_lower_level(), Some(PageTableLevel::Two));
    assert_eq!(PageTableLevel::Two.next_lower_level(), Some(PageTableLevel::One));
    assert_eq!(PageTableLevel::One.next_lower_level(), None);
}

#[test]
fn physical_addresses_have_52_bits() {
    assert!(PhysAddr::try_new(0xf_ffff_ffff_ffff).is_some());
    assert!(PhysAddr::try_new(0x10_0000_0000_0000).is_none());
    assert_eq!(PhysAddr::try_new(0x1234).unwrap().as_u64(), 0x1234);
}

#[test]
fn pages_and_frames_start_at_multiples_of_their_size() {
    let addr = VirtAddr::try_new(0x1234_5678).unwrap();
    let page = Page::containing_address(addr);
    assert_eq!(page.start_address().as_u64(), 0x1234_5000);
    assert!(Page::from_start_address(addr).is_none());
    assert_eq!(Page::from_start_address(page.start_address()), Some(page));
    let phys = PhysAddr::try_new(0xabc_def0).unwrap();
    let frame = PhysFrame::containing_address(phys);
    assert_eq!(frame.start_address().as_u64(), 0xabc_d000);
    assert_eq!(frame.number(), 0xabcd);
    assert!(PhysFrame::from_start_address(phys).is_none());
    assert_eq!(PhysFrame::from_start_address(frame.start_address()), Some(frame));
    assert_eq!(PhysFrame::from_number(0xabcd), Some(frame));
    assert_eq!(PhysFrame::from_number(1 << 40), None);
}

#[test]
fn flags_keep_out_of_the_address_field() {
    let flags = PageTableFlags::from_bits_truncate(0xffff_ffff_ffff_ffff);
    assert_eq!(flags.bits(), 0xfff0_0000_0000_0fff);
    assert_eq!(PageTableFlags::from_bits_truncate(0x1000 | PRESENT).bits(), PRESENT);
    assert_eq!(PageTableFlags::empty().bits(), 0);
    let both = PageTableFlags::from_bits_truncate(PRESENT)
        .union(PageTableFlags::from_bits_truncate(NO_EXECUTE));
    assert_eq!(both.bits(), PRESENT | NO_EXECUTE);
    assert!(both.contains(PRESENT));
    assert!(both.contains(PRESENT | NO_EXECUTE));
    assert!(!both.contains(WRITABLE));
    assert!(!both.contains(PRESENT | WRITABLE));
}

#[test]
fn entries_hold_an_address_and_flags() {
    let mut entry = PageTableEntry::new();
    assert!(entry.is_unused());
    assert_eq!(entry.bits(), 0);
    entry.set_addr(
        PhysAddr::try_new(0x1234_5678).unwrap(),
        PageTableFlags::from_bits_truncate(PRESENT | WRITABLE | NO_EXECUTE),
    );
    assert_eq!(entry.bits(), 0x8000_0000_1234_5003);
    assert_eq!(entry.addr().as_u64(), 0x1234_5000);
    assert_eq!(entry.flags().bits(), PRESENT | WRITABLE | NO_EXECUTE);
    assert!(!entry.is_unused());
    assert!(!entry.is_huge());
    entry.set_flags(PageTableFlags::from_bits_truncate(HUGE_PAGE));
    assert_eq!(entry.bits(), 0x1234_5080);
    assert!(entry.is_unused());
    assert!(entry.is_huge());
    entry.set_unused();
    assert_eq!(entry, PageTableEntry::from_bits(0));
}

#[test]
fn memory_holds_bytes_lowest_first_in_its_words() {
    let mut mem = PhysMemory::new(2).unwrap();
    assert_eq!(mem.frame_count(), 2);
    assert_eq!(mem.word_count(), 1024);
    assert_eq!(mem.read_byte(0x1fff), Some(0));
    assert_eq!(mem.read_byte(0x2000), None);
    assert!(mem.write_byte(9, 0xab));
    assert!(mem.write_byte(15, 0xcd));
    assert!(!mem.write_byte(0x2000, 1));
    assert_eq!(mem.read_entry(0, 1).bits(), 0xcd00_0000_0000_ab00);
    assert_eq!(mem.read_byte(9), Some(0xab));
    assert_eq!(mem.read_byte(10), Some(0));
    assert!(mem.write_byte(9, 0x01));
    assert_eq!(mem.read_entry(0, 1).bits(), 0xcd00_0000_0000_0100);
    mem.write_entry(1, 511, PageTableEntry::from_bits(0x0102_0304_0506_0708));
    assert_eq!(mem.read_byte(0x1ff8), Some(8));
    assert_eq!(mem.read_byte(0x1fff), Some(1));
    mem.zero_frame(1);
    assert_eq!(mem.read_byte(0x1ff8), Some(0));
    assert_eq!(mem.read_byte(9), Some(1));
    assert!(PhysMemory::new(usize::MAX).is_none());
}

#[test]
fn allocator_hands_out_the_lowest_free_frame() {
    let mut alloc = BitmapFrameAllocator::new(8, 5).unwrap();
    assert_eq!(alloc.frame_count(), 8);
    assert_eq!(alloc.free_count(), 3);
    let first = alloc.allocate_frame().unwrap();
    assert_eq!(first.number(), 5);
    assert!(alloc.is_used(first));
    assert_eq!(alloc.allocate_frame().unwrap().number(), 6);
    assert_eq!(alloc.allocate_frame().unwrap().number(), 7);
    assert_eq!(alloc.allocate_frame(), None);
    assert_eq!(alloc.free_count(), 0);
    alloc.deallocate_frame(PhysFrame::from_number(2).unwrap());
    alloc.deallocate_frame(PhysFrame::from_number(6).unwrap());
    alloc.deallocate_frame(PhysFrame::from_number(100).unwrap());
    assert_eq!(alloc.free_count(), 2);
    assert!(!alloc.is_used(PhysFrame::from_number(2).unwrap()));
    assert!(!alloc.is_used(PhysFrame::from_number(100).unwrap()));
    assert_eq!(alloc.allocate_frame().unwrap().number(), 2);
    assert_eq!(alloc.allocate_frame().unwrap().number(), 6);
    assert!(BitmapFrameAllocator::new((1 << 40) + 1, 0).is_none());
}
