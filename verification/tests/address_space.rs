use raca_core::memory::access::{AccessFault, USER_READ, USER_WRITE};
use raca_core::memory::addr::{Page, PageTableLevel, PhysAddr, PhysFrame, VirtAddr};
use raca_core::memory::cloner::count_tables;
use raca_core::memory::entry::{
    PageTableEntry, PageTableFlags, HUGE_PAGE, NO_EXECUTE, PRESENT, USER_ACCESSIBLE, WRITABLE,
};
use raca_core::memory::frame_alloc::BitmapFrameAllocator;
use raca_core::memory::mapper::{FlagUpdateError, MapToError, UnmapError};
use raca_core::memory::page_table::{GeneralPageTable, TranslateError, TranslateResult};
use raca_core::memory::phys::PhysMemory;

fn setup(frames: usize, reserved: usize) -> (PhysMemory, BitmapFrameAllocator) {
    (
        PhysMemory::new(frames).unwrap(),
        BitmapFrameAllocator::new(frames, reserved).unwrap(),
    )
}

fn virt(addr: u64) -> VirtAddr {
    VirtAddr::try_new(addr).unwrap()
}

fn page(addr: u64) -> Page {
    Page::containing_address(virt(addr))
}

fn frame(addr: u64) -> PhysFrame {
    PhysFrame::containing_address(PhysAddr::try_new(addr).unwrap())
}

fn flags(bits: u64) -> PageTableFlags {
    PageTableFlags::from_bits_truncate(bits)
}

fn rw() -> PageTableFlags {
    flags(PRESENT | WRITABLE)
}

fn mapped(address: u64, bits: u64) -> TranslateResult {
    TranslateResult::Mapped {
        address: PhysAddr::try_new(address).unwrap(),
        flags: flags(bits),
    }
}

fn root_frame(space: &GeneralPageTable) -> usize {
    (space.physical_address.as_u64() / 4096) as usize
}

fn child_of(mem: &PhysMemory, table: usize, index: usize) -> usize {
    (mem.read_entry(table, index).addr().as_u64() / 4096) as usize
}

#[test]
fn map_write_read_unmap_scenario() {
    let (mut mem, mut alloc) = setup(64, 16);
    let mut space = GeneralPageTable::new(&mut mem, &mut alloc).unwrap();
    let flush = space
        .map_to(&mut mem, &mut alloc, page(0x4000_0000), frame(0x1000), rw())
        .unwrap();
    assert_eq!(flush.page, page(0x4000_0000));
    let start = virt(0x4000_0000);
    let data = vec![0xAAu8; 4096];
    assert_eq!(space.write(&mut mem, &data, start), Ok(()));
    let mut buf = vec![0u8; 4096];
    assert_eq!(space.read(&mem, start, 4096, &mut buf), Ok(()));
    assert_eq!(buf, data);
    let (freed, _) = space.unmap(&mut mem, page(0x4000_0000)).unwrap();
    assert_eq!(freed, frame(0x1000));
    assert_eq!(space.translate(&mem, start), TranslateResult::Unmapped);
}

#[test]
fn clone_then_map_in_clone_scenario() {
    let (mut mem, mut alloc) = setup(64, 16);
    let mut source = GeneralPageTable::new(&mut mem, &mut alloc).unwrap();
    let _ = source
        .map_to(&mut mem, &mut alloc, page(0x5000_0000), frame(0x2000), rw())
        .unwrap();
    let mut clone = GeneralPageTable::new_from_address(&mut mem, &mut alloc, &source).unwrap();
    let _ = clone
        .map_to(&mut mem, &mut alloc, page(0x6000_0000), frame(0x3000), rw())
        .unwrap();
    assert_eq!(source.translate(&mem, virt(0x6000_0000)), TranslateResult::Unmapped);
    assert_eq!(
        clone.translate_addr(&mem, virt(0x5000_0000)).unwrap().as_u64(),
        0x2000
    );
}

#[test]
fn translation_of_every_address_of_a_mapped_page() {
    let (mut mem, mut alloc) = setup(64, 16);
    let mut space = GeneralPageTable::new(&mut mem, &mut alloc).unwrap();
    let bits = PRESENT | WRITABLE | USER_ACCESSIBLE | NO_EXECUTE;
    let _ = space
        .map_to(&mut mem, &mut alloc, page(0x7f12_3456_7000), frame(0x5000), flags(bits))
        .unwrap();
    for offset in [0u64, 1, 0x7ff, 0xabc, 0xfff] {
        assert_eq!(
            space.translate(&mem, virt(0x7f12_3456_7000 + offset)),
            mapped(0x5000 + offset, bits)
        );
    }
    assert_eq!(space.translate(&mem, virt(0x7f12_3456_8000)), TranslateResult::Unmapped);
    assert_eq!(space.translate(&mem, virt(0x7f12_3456_6fff)), TranslateResult::Unmapped);
    assert_eq!(
        space.translate_page(&mem, page(0x7f12_3456_7000)),
        Ok(frame(0x5000))
    );
    assert_eq!(
        space.translate_page(&mem, page(0x7f12_3456_8000)),
        Err(TranslateError::Unmapped)
    );
}

#[test]
fn mapping_in_the_upper_half() {
    let (mut mem, mut alloc) = setup(64, 16);
    let mut space = GeneralPageTable::new(&mut mem, &mut alloc).unwrap();
    let _ = space
        .map_to(&mut mem, &mut alloc, page(0xffff_8000_0000_0000), frame(0x4000), rw())
        .unwrap();
    assert_eq!(
        space.translate(&mem, virt(0xffff_8000_0000_0123)),
        mapped(0x4123, PRESENT | WRITABLE)
    );
    assert_eq!(space.translate(&mem, virt(0)), TranslateResult::Unmapped);
}

#[test]
fn map_without_present_maps_nothing() {
    let (mut mem, mut alloc) = setup(64, 16);
    let mut space = GeneralPageTable::new(&mut mem, &mut alloc).unwrap();
    let _ = space
        .map_to(&mut mem, &mut alloc, page(0x1000), frame(0x2000), flags(WRITABLE))
        .unwrap();
    assert_eq!(space.translate(&mem, virt(0x1000)), TranslateResult::Unmapped);
    assert_eq!(
        space.unmap(&mut mem, page(0x1000)).err(),
        Some(UnmapError::NotMapped)
    );
}

#[test]
fn map_overwrites_an_existing_translation() {
    let (mut mem, mut alloc) = setup(64, 16);
    let mut space = GeneralPageTable::new(&mut mem, &mut alloc).unwrap();
    let _ = space
        .map_to(&mut mem, &mut alloc, page(0x1000), frame(0x2000), rw())
        .unwrap();
    let free = alloc.free_count();
    let _ = space
        .map_to(&mut mem, &mut alloc, page(0x1000), frame(0x3000), flags(PRESENT))
        .unwrap();
    assert_eq!(alloc.free_count(), free);
    assert_eq!(space.translate(&mem, virt(0x1010)), mapped(0x3010, PRESENT));
}

#[test]
fn map_takes_one_frame_for_each_missing_table() {
    let (mut mem, mut alloc) = setup(64, 16);
    let mut space = GeneralPageTable::new(&mut mem, &mut alloc).unwrap();
    assert_eq!(alloc.free_count(), 47);
    let _ = space
        .map_to(&mut mem, &mut alloc, page(0x4000_0000), frame(0x1000), rw())
        .unwrap();
    assert_eq!(alloc.free_count(), 44);
    let _ = space
        .map_to(&mut mem, &mut alloc, page(0x4000_1000), frame(0x2000), rw())
        .unwrap();
    assert_eq!(alloc.free_count(), 44);
    let _ = space
        .map_to(&mut mem, &mut alloc, page(0x4020_0000), frame(0x3000), rw())
        .unwrap();
    assert_eq!(alloc.free_count(), 43);
    assert_eq!(count_tables(&mem, root_frame(&space), PageTableLevel::Four), 5);
}

#[test]
fn map_gives_parent_flags_to_the_tables_on_the_way() {
    let (mut mem, mut alloc) = setup(64, 16);
    let mut space = GeneralPageTable::new(&mut mem, &mut alloc).unwrap();
    let _ = space
        .map_to(&mut mem, &mut alloc, page(0x1000), frame(0x2000), rw())
        .unwrap();
    let root = root_frame(&space);
    assert_eq!(mem.read_entry(root, 0).flags().bits(), PRESENT | WRITABLE);
    let _ = space
        .map_to_with_table_flags(
            &mut mem,
            &mut alloc,
            page(0x2000),
            frame(0x3000),
            flags(PRESENT | USER_ACCESSIBLE),
            flags(USER_ACCESSIBLE | HUGE_PAGE),
        )
        .unwrap();
    assert_eq!(
        mem.read_entry(root, 0).flags().bits(),
        PRESENT | WRITABLE | USER_ACCESSIBLE
    );
    assert_eq!(space.translate(&mem, virt(0x1000)), mapped(0x2000, PRESENT | WRITABLE));
    assert_eq!(
        space.translate(&mem, virt(0x2000)),
        mapped(0x3000, PRESENT | USER_ACCESSIBLE)
    );
}

#[test]
fn map_fails_when_the_allocator_is_exhausted() {
    let (mut mem, mut alloc) = setup(64, 61);
    let mut space = GeneralPageTable::new(&mut mem, &mut alloc).unwrap();
    assert_eq!(alloc.free_count(), 2);
    let r = space.map_to(&mut mem, &mut alloc, page(0x4000_0000), frame(0x1000), rw());
    assert_eq!(r.err(), Some(MapToError::FrameAllocationFailed));
    assert_eq!(alloc.free_count(), 0);
    assert_eq!(space.translate(&mem, virt(0x4000_0000)), TranslateResult::Unmapped);
    assert_eq!(count_tables(&mem, root_frame(&space), PageTableLevel::Four), 3);
    alloc.deallocate_frame(frame(0x5000));
    let r = space.map_to(&mut mem, &mut alloc, page(0x4000_0000), frame(0x1000), rw());
    assert!(r.is_ok());
    assert_eq!(alloc.free_count(), 0);
    assert_eq!(space.translate(&mem, virt(0x4000_0004)), mapped(0x1004, PRESENT | WRITABLE));
}

#[test]
fn new_fails_when_the_allocator_is_exhausted() {
    let (mut mem, mut alloc) = setup(8, 8);
    assert_eq!(
        GeneralPageTable::new(&mut mem, &mut alloc).err(),
        Some(MapToError::FrameAllocationFailed)
    );
}

fn with_huge_page() -> (PhysMemory, BitmapFrameAllocator, GeneralPageTable) {
    let (mut mem, mut alloc) = setup(64, 16);
    let mut space = GeneralPageTable::new(&mut mem, &mut alloc).unwrap();
    let _ = space
        .map_to(&mut mem, &mut alloc, page(0x1000), frame(0x2000), rw())
        .unwrap();
    let table3 = child_of(&mem, root_frame(&space), 0);
    let table2 = child_of(&mem, table3, 0);
    let mut huge = PageTableEntry::new();
    huge.set_addr(
        PhysAddr::try_new(0x4020_0000).unwrap(),
        flags(PRESENT | WRITABLE | HUGE_PAGE),
    );
    mem.write_entry(table2, 3, huge);
    let mut giant = PageTableEntry::new();
    giant.set_addr(
        PhysAddr::try_new(0x1_c000_0000).unwrap(),
        flags(PRESENT | HUGE_PAGE),
    );
    mem.write_entry(table3, 2, giant);
    (mem, alloc, space)
}

#[test]
fn huge_pages_translate_with_the_remaining_offset() {
    let (mem, _alloc, space) = with_huge_page();
    assert_eq!(
        space.translate(&mem, virt(0x60_0000 + 0x12_3456)),
        mapped(0x4020_0000 + 0x12_3456, PRESENT | WRITABLE | HUGE_PAGE)
    );
    assert_eq!(
        space.translate(&mem, virt(0x8000_0000 + 0x2345_6789)),
        mapped(0x1_c000_0000 + 0x2345_6789, PRESENT | HUGE_PAGE)
    );
    assert_eq!(
        space.translate_page(&mem, page(0x60_0000)),
        Err(TranslateError::ParentEntryHugePage)
    );
}

#[test]
fn huge_pages_are_never_descended_into() {
    let (mut mem, mut alloc, mut space) = with_huge_page();
    let free = alloc.free_count();
    assert_eq!(
        space
            .map_to(&mut mem, &mut alloc, page(0x60_1000), frame(0x3000), rw())
            .err(),
        Some(MapToError::ParentEntryHugePage)
    );
    assert_eq!(alloc.free_count(), free);
    assert_eq!(
        space.unmap(&mut mem, page(0x60_1000)).err(),
        Some(UnmapError::ParentEntryHugePage)
    );
    assert_eq!(
        space.update_flags(&mut mem, page(0x8000_0000), rw()).err(),
        Some(FlagUpdateError::ParentEntryHugePage)
    );
    assert_eq!(
        space.translate(&mem, virt(0x60_1000)),
        mapped(0x4020_1000, PRESENT | WRITABLE | HUGE_PAGE)
    );
}

#[test]
fn unmap_of_an_unmapped_page_fails() {
    let (mut mem, mut alloc) = setup(64, 16);
    let mut space = GeneralPageTable::new(&mut mem, &mut alloc).unwrap();
    assert_eq!(
        space.unmap(&mut mem, page(0x1000)).err(),
        Some(UnmapError::NotMapped)
    );
    let _ = space
        .map_to(&mut mem, &mut alloc, page(0x1000), frame(0x2000), rw())
        .unwrap();
    assert_eq!(
        space.unmap(&mut mem, page(0x2000)).err(),
        Some(UnmapError::NotMapped)
    );
    assert!(space.unmap(&mut mem, page(0x1000)).is_ok());
    assert_eq!(
        space.unmap(&mut mem, page(0x1000)).err(),
        Some(UnmapError::NotMapped)
    );
}

#[test]
fn update_flags_changes_the_flags_and_nothing_else() {
    let (mut mem, mut alloc) = setup(64, 16);
    let mut space = GeneralPageTable::new(&mut mem, &mut alloc).unwrap();
    let _ = space
        .map_to(&mut mem, &mut alloc, page(0x1000), frame(0x2000), rw())
        .unwrap();
    let _ = space
        .map_to(&mut mem, &mut alloc, page(0x2000), frame(0x3000), rw())
        .unwrap();
    let flush = space
        .update_flags(&mut mem, page(0x1000), flags(PRESENT | NO_EXECUTE))
        .unwrap();
    assert_eq!(flush.page, page(0x1000));
    assert_eq!(
        space.translate(&mem, virt(0x1234)),
        mapped(0x2234, PRESENT | NO_EXECUTE)
    );
    assert_eq!(space.translate(&mem, virt(0x2234)), mapped(0x3234, PRESENT | WRITABLE));
    assert_eq!(
        space.update_flags(&mut mem, page(0x3000), rw()).err(),
        Some(FlagUpdateError::NotMapped)
    );
}

#[test]
fn clone_is_independent_of_its_source() {
    let (mut mem, mut alloc) = setup(64, 16);
    let mut source = GeneralPageTable::new(&mut mem, &mut alloc).unwrap();
    let _ = source
        .map_to(&mut mem, &mut alloc, page(0x5000_0000), frame(0x2000), rw())
        .unwrap();
    let mut clone = GeneralPageTable::new_from_address(&mut mem, &mut alloc, &source).unwrap();
    assert_ne!(clone.physical_address, source.physical_address);
    let _ = source
        .map_to(&mut mem, &mut alloc, page(0x5000_1000), frame(0x3000), rw())
        .unwrap();
    assert_eq!(clone.translate(&mem, virt(0x5000_1000)), TranslateResult::Unmapped);
    let _ = clone.unmap(&mut mem, page(0x5000_0000)).unwrap();
    assert_eq!(
        source.translate(&mem, virt(0x5000_0000)),
        mapped(0x2000, PRESENT | WRITABLE)
    );
    assert_eq!(
        source.translate(&mem, virt(0x5000_1000)),
        mapped(0x3000, PRESENT | WRITABLE)
    );
}

#[test]
fn clone_shares_the_mapped_frames() {
    let (mut mem, alloc, source) = {
        let (mut mem, mut alloc, mut space) = with_huge_page();
        let _ = space
            .map_to(&mut mem, &mut alloc, page(0x5000_0000), frame(0x3000), rw())
            .unwrap();
        (mem, alloc, space)
    };
    let mut alloc = alloc;
    let tables = count_tables(&mem, root_frame(&source), PageTableLevel::Four);
    assert_eq!(tables, 6);
    let free = alloc.free_count();
    let clone = GeneralPageTable::new_from_address(&mut mem, &mut alloc, &source).unwrap();
    assert_eq!(alloc.free_count(), free - tables);
    for addr in [0x1000u64, 0x1fff, 0x5000_0000, 0x60_0000 + 0x1234, 0x8000_0000 + 0x99, 0x9000] {
        assert_eq!(clone.translate(&mem, virt(addr)), source.translate(&mem, virt(addr)));
    }
    assert_eq!(clone.translate(&mem, virt(0x1000)), mapped(0x2000, PRESENT | WRITABLE));
    let data = [1u8, 2, 3, 4, 5];
    assert_eq!(clone.write(&mut mem, &data, virt(0x5000_0ffb)), Ok(()));
    let mut buf = [0u8; 5];
    assert_eq!(source.read(&mem, virt(0x5000_0ffb), 5, &mut buf), Ok(()));
    assert_eq!(buf, data);
}

#[test]
fn clone_fails_without_a_frame_for_each_table() {
    let (mut mem, mut alloc) = setup(64, 57);
    let mut source = GeneralPageTable::new(&mut mem, &mut alloc).unwrap();
    let _ = source
        .map_to(&mut mem, &mut alloc, page(0x5000_0000), frame(0x2000), rw())
        .unwrap();
    assert_eq!(alloc.free_count(), 3);
    assert_eq!(
        GeneralPageTable::new_from_address(&mut mem, &mut alloc, &source).err(),
        Some(MapToError::FrameAllocationFailed)
    );
    assert_eq!(alloc.free_count(), 3);
    alloc.deallocate_frame(frame(0x1000));
    assert!(GeneralPageTable::new_from_address(&mut mem, &mut alloc, &source).is_ok());
    assert_eq!(alloc.free_count(), 0);
}

#[test]
fn copy_within_one_page_succeeds_when_the_page_is_mapped() {
    let (mut mem, mut alloc) = setup(64, 16);
    let mut space = GeneralPageTable::new(&mut mem, &mut alloc).unwrap();
    let mut buf = [0u8; 16];
    assert_eq!(space.read(&mem, virt(0x1008), 16, &mut buf), Err(AccessFault));
    assert_eq!(space.write(&mut mem, &buf, virt(0x1008)), Err(AccessFault));
    let _ = space
        .map_to(&mut mem, &mut alloc, page(0x1000), frame(0x2000), rw())
        .unwrap();
    assert_eq!(space.write(&mut mem, &[7u8; 16], virt(0x1008)), Ok(()));
    assert_eq!(space.read(&mem, virt(0x1008), 16, &mut buf), Ok(()));
    assert_eq!(buf, [7u8; 16]);
}

#[test]
fn copy_over_an_unmapped_second_page_faults() {
    let (mut mem, mut alloc) = setup(64, 16);
    let mut space = GeneralPageTable::new(&mut mem, &mut alloc).unwrap();
    let _ = space
        .map_to(&mut mem, &mut alloc, page(0x1000), frame(0x2000), rw())
        .unwrap();
    let mut buf = [0u8; 8];
    assert_eq!(space.read(&mem, virt(0x1ffc), 8, &mut buf), Err(AccessFault));
    assert_eq!(space.read(&mem, virt(0x1ffc), 4, &mut buf), Ok(()));
    assert_eq!(space.write(&mut mem, &[9u8; 8], virt(0x1ffc)), Err(AccessFault));
    let mut seen = [1u8; 4];
    assert_eq!(space.read(&mem, virt(0x1ffc), 4, &mut seen), Ok(()));
    assert_eq!(seen, [0u8; 4]);
    let _ = space
        .map_to(&mut mem, &mut alloc, page(0x2000), frame(0x5000), rw())
        .unwrap();
    assert_eq!(space.write(&mut mem, &[1, 2, 3, 4, 5, 6, 7, 8], virt(0x1ffc)), Ok(()));
    assert_eq!(mem.read_byte(0x2fff), Some(4));
    assert_eq!(mem.read_byte(0x5000), Some(5));
}

#[test]
fn copy_faults_outside_the_memory_and_at_the_end_of_the_address_space() {
    let (mut mem, mut alloc) = setup(64, 16);
    let mut space = GeneralPageTable::new(&mut mem, &mut alloc).unwrap();
    let _ = space
        .map_to(&mut mem, &mut alloc, page(0x1000), frame(0x9_0000), rw())
        .unwrap();
    let _ = space
        .map_to(&mut mem, &mut alloc, page(0x7fff_ffff_f000), frame(0x2000), rw())
        .unwrap();
    let _ = space
        .map_to(&mut mem, &mut alloc, page(0xffff_ffff_ffff_f000), frame(0x3000), rw())
        .unwrap();
    let mut buf = [0u8; 4];
    assert_eq!(space.translate(&mem, virt(0x1000)), mapped(0x9_0000, PRESENT | WRITABLE));
    assert_eq!(space.read(&mem, virt(0x1000), 1, &mut buf), Err(AccessFault));
    assert_eq!(space.read(&mem, virt(0x7fff_ffff_fffe), 2, &mut buf), Ok(()));
    assert_eq!(space.read(&mem, virt(0x7fff_ffff_fffe), 3, &mut buf), Err(AccessFault));
    assert_eq!(space.read(&mem, virt(0xffff_ffff_ffff_fffe), 2, &mut buf), Ok(()));
    assert_eq!(space.read(&mem, virt(0xffff_ffff_ffff_fffe), 3, &mut buf), Err(AccessFault));
}

#[test]
fn read_fills_the_front_of_the_buffer_only() {
    let (mut mem, mut alloc) = setup(64, 16);
    let mut space = GeneralPageTable::new(&mut mem, &mut alloc).unwrap();
    let _ = space
        .map_to(&mut mem, &mut alloc, page(0x1000), frame(0x2000), rw())
        .unwrap();
    assert_eq!(space.write(&mut mem, &[1, 2, 3], virt(0x1000)), Ok(()));
    let mut buf = [9u8; 5];
    assert_eq!(space.read(&mem, virt(0x1000), 3, &mut buf), Ok(()));
    assert_eq!(buf, [1, 2, 3, 9, 9]);
    assert_eq!(space.read(&mem, virt(0x8000), 0, &mut buf), Ok(()));
}

#[test]
fn copy_for_a_process_asks_for_user_and_write_flags() {
    let (mut mem, mut alloc) = setup(64, 16);
    let mut space = GeneralPageTable::new(&mut mem, &mut alloc).unwrap();
    let _ = space
        .map_to(&mut mem, &mut alloc, page(0x1000), frame(0x2000), rw())
        .unwrap();
    let _ = space
        .map_to(
            &mut mem,
            &mut alloc,
            page(0x2000),
            frame(0x3000),
            flags(PRESENT | USER_ACCESSIBLE),
        )
        .unwrap();
    let _ = space
        .map_to(
            &mut mem,
            &mut alloc,
            page(0x3000),
            frame(0x4000),
            flags(PRESENT | USER_ACCESSIBLE | WRITABLE),
        )
        .unwrap();
    let mut buf = [0u8; 2];
    assert_eq!(
        space.read_checked(&mem, USER_READ, virt(0x1000), 2, &mut buf),
        Err(AccessFault)
    );
    assert_eq!(space.read_checked(&mem, USER_READ, virt(0x2000), 2, &mut buf), Ok(()));
    assert_eq!(
        space.write_checked(&mut mem, USER_WRITE, &buf, virt(0x2000)),
        Err(AccessFault)
    );
    assert_eq!(space.write_checked(&mut mem, USER_WRITE, &[5, 6], virt(0x3000)), Ok(()));
    assert_eq!(space.read_checked(&mem, USER_READ, virt(0x3000), 2, &mut buf), Ok(()));
    assert_eq!(buf, [5, 6]);
}

#[test]
fn switch_touches_nothing_when_already_active() {
    let (mut mem, mut alloc) = setup(64, 16);
    let space = GeneralPageTable::new(&mut mem, &mut alloc).unwrap();
    assert_eq!(space.physical_address.as_u64(), 0x10000);
    assert_eq!(space.switch(frame(0x10000)), None);
    assert_eq!(space.switch(frame(0x20000)), Some(frame(0x10000)));
    let current = GeneralPageTable::ref_from_current(frame(0x10000));
    assert_eq!(current.physical_address, space.physical_address);
    assert_eq!(current.translate(&mem, virt(0x1000)), TranslateResult::Unmapped);
    let outside = GeneralPageTable::ref_from_current(frame(0x100_0000));
    assert_eq!(outside.translate(&mem, virt(0x1000)), TranslateResult::Unmapped);
}

#[test]
fn destroy_gives_the_tables_back_and_keeps_the_mapped_frames() {
    let (mut mem, mut alloc) = setup(64, 16);
    let mut first = GeneralPageTable::new(&mut mem, &mut alloc).unwrap();
    let _ = first
        .map_to(&mut mem, &mut alloc, page(0x4000_0000), frame(0x2000), rw())
        .unwrap();
    let second = GeneralPageTable::new_from_address(&mut mem, &mut alloc, &first).unwrap();
    assert_eq!(alloc.free_count(), 40);
    let active = PhysFrame::containing_address(second.physical_address);
    let second = second.destroy(&mem, &mut alloc, active).unwrap();
    assert_eq!(alloc.free_count(), 40);
    assert!(second.destroy(&mem, &mut alloc, frame(0)).is_none());
    assert_eq!(alloc.free_count(), 44);
    assert!(alloc.is_used(frame(0x10000)));
    assert!(alloc.is_used(frame(0x13000)));
    assert!(!alloc.is_used(frame(0x14000)));
    assert!(!alloc.is_used(frame(0x17000)));
    assert_eq!(
        first.translate(&mem, virt(0x4000_0000)),
        mapped(0x2000, PRESENT | WRITABLE)
    );
    assert!(first.destroy(&mem, &mut alloc, frame(0)).is_none());
    assert_eq!(alloc.free_count(), 48);
    assert!(alloc.is_used(frame(0x2000)));
    assert!(!alloc.is_used(frame(0x10000)));
    let outside = GeneralPageTable::ref_from_current(frame(0x100_0000));
    assert!(outside.destroy(&mem, &mut alloc, frame(0)).is_some());
}

#[test]
fn adopt_takes_over_a_tree_that_is_in_memory() {
    let (mut mem, mut alloc) = setup(64, 16);
    let mut space = GeneralPageTable::new(&mut mem, &mut alloc).unwrap();
    let _ = space
        .map_to(&mut mem, &mut alloc, page(0x4000_0000), frame(0x1000), rw())
        .unwrap();
    let _ = space
        .map_to(&mut mem, &mut alloc, page(0x8000_0000_0000 - 0x1000), frame(0x2000), rw())
        .unwrap();
    let top = PhysFrame::containing_address(space.physical_address);
    let mut adopted = GeneralPageTable::adopt(&mem, &alloc, top).unwrap();
    assert_eq!(adopted.physical_address, space.physical_address);
    let free = alloc.free_count();
    let _ = adopted
        .map_to(&mut mem, &mut alloc, page(0x4000_1000), frame(0x3000), rw())
        .unwrap();
    assert_eq!(alloc.free_count(), free);
    assert_eq!(
        space.translate(&mem, virt(0x4000_1008)),
        mapped(0x3008, PRESENT | WRITABLE)
    );
    let clone = GeneralPageTable::new_from_address(&mut mem, &mut alloc, &adopted).unwrap();
    assert_eq!(
        clone.translate(&mem, virt(0x7fff_ffff_f010)),
        mapped(0x2010, PRESENT | WRITABLE)
    );
}

#[test]
fn adopt_refuses_what_is_no_tree_of_an_address_space() {
    let (mut mem, mut alloc) = setup(64, 16);
    let mut space = GeneralPageTable::new(&mut mem, &mut alloc).unwrap();
    let _ = space
        .map_to(&mut mem, &mut alloc, page(0x4000_0000), frame(0x1000), rw())
        .unwrap();
    let top = PhysFrame::containing_address(space.physical_address);
    let root = root_frame(&space);
    assert!(GeneralPageTable::adopt(&mem, &alloc, top).is_some());
    assert!(GeneralPageTable::adopt(&mem, &alloc, frame(0x100_0000)).is_none());
    assert!(GeneralPageTable::adopt(&mem, &alloc, frame(0x30000)).is_none());

    // a second entry that names the same table
    let link = mem.read_entry(root, 0);
    mem.write_entry(root, 7, link);
    assert!(GeneralPageTable::adopt(&mem, &alloc, top).is_none());
    mem.write_entry(root, 7, PageTableEntry::new());
    assert!(GeneralPageTable::adopt(&mem, &alloc, top).is_some());

    // an entry that names the top table
    let table3 = child_of(&mem, root, 0);
    let mut back = PageTableEntry::new();
    back.set_addr(space.physical_address, rw());
    mem.write_entry(table3, 9, back);
    assert!(GeneralPageTable::adopt(&mem, &alloc, top).is_none());
    mem.write_entry(table3, 9, PageTableEntry::new());

    // an entry that names a table outside the memory
    let mut far = PageTableEntry::new();
    far.set_addr(PhysAddr::try_new(0x100_0000).unwrap(), rw());
    mem.write_entry(table3, 9, far);
    assert!(GeneralPageTable::adopt(&mem, &alloc, top).is_none());
    far.set_flags(flags(PRESENT | HUGE_PAGE));
    mem.write_entry(table3, 9, far);
    assert!(GeneralPageTable::adopt(&mem, &alloc, top).is_some());
    mem.write_entry(table3, 9, PageTableEntry::new());

    // a table that the allocator holds to be free
    alloc.deallocate_frame(PhysFrame::from_number(table3 as u64).unwrap());
    assert!(GeneralPageTable::adopt(&mem, &alloc, top).is_none());
}
