use raca_core::memory::addr::{Page, PhysAddr, PhysFrame, VirtAddr};
use raca_core::memory::entry::{PageTableFlags, PRESENT, USER_ACCESSIBLE, WRITABLE};
use raca_core::memory::frame_alloc::BitmapFrameAllocator;
use raca_core::memory::page_table::GeneralPageTable;
use raca_core::memory::phys::PhysMemory;
use raca_core::user::syscall::fs::{
    change_cwd, change_cwd_result, close, close_result, copy_in, create, create_result,
    dir_item_num, fsize, fsize_result, get_cwd, get_cwd_result, get_type,
    get_type_result, list_dir, list_dir_result, lseek, lseek_result, mount, mount_result, open,
    open_pipe, PlacedEntry,
    open_pipe_result, open_result, push_word, read, read_result, FsRequest, InodeTy,
    OpenMode, SyscallError, SyscallStep,
};
use raca_core::user::syscall::syscall_handler;

struct Process {
    mem: PhysMemory,
    space: GeneralPageTable,
}

/// A process with a page that it can read and write at 0x1000, one that it
/// can only read at 0x2000, and one of the kernel at 0x3000.
fn process() -> Process {
    let mut mem = PhysMemory::new(64).unwrap();
    let mut alloc = BitmapFrameAllocator::new(64, 16).unwrap();
    let mut space = GeneralPageTable::new(&mut mem, &mut alloc).unwrap();
    let pages = [
        (0x1000u64, 0x2000u64, PRESENT | USER_ACCESSIBLE | WRITABLE),
        (0x2000, 0x3000, PRESENT | USER_ACCESSIBLE),
        (0x3000, 0x4000, PRESENT | WRITABLE),
    ];
    for (page, frame, flags) in pages {
        let _ = space
            .map_to(
                &mut mem,
                &mut alloc,
                Page::containing_address(VirtAddr::try_new(page).unwrap()),
                PhysFrame::containing_address(PhysAddr::try_new(frame).unwrap()),
                PageTableFlags::from_bits_truncate(flags),
            )
            .unwrap();
    }
    Process { mem, space }
}

fn put(process: &mut Process, addr: u64, bytes: &[u8]) {
    process
        .space
        .write(&mut process.mem, bytes, VirtAddr::try_new(addr).unwrap())
        .unwrap();
}

fn get(process: &Process, addr: u64, len: usize) -> Vec<u8> {
    let mut buf = vec![0u8; len];
    process
        .space
        .read(&process.mem, VirtAddr::try_new(addr).unwrap(), len, &mut buf)
        .unwrap();
    buf
}

#[test]
fn copy_in_reads_what_the_process_may_read() {
    let mut p = process();
    put(&mut p, 0x1ffe, b"abcd");
    put(&mut p, 0x3000, b"key");
    assert_eq!(copy_in(&p.space, &p.mem, 0x1ffe, 4), Ok(b"abcd".to_vec()));
    assert_eq!(copy_in(&p.space, &p.mem, 0x1ffe, 0), Ok(vec![]));
    assert_eq!(
        copy_in(&p.space, &p.mem, 0x2fff, 2),
        Err(SyscallError::InvalidPointer)
    );
    assert_eq!(
        copy_in(&p.space, &p.mem, 0x3000, 3),
        Err(SyscallError::InvalidPointer)
    );
    assert_eq!(
        copy_in(&p.space, &p.mem, 0x8000_0000_0000, 1),
        Err(SyscallError::InvalidPointer)
    );
    assert_eq!(
        copy_in(&p.space, &p.mem, 0x9000, 1),
        Err(SyscallError::InvalidPointer)
    );
}

#[test]
fn open_decodes_path_and_mode() {
    let mut p = process();
    put(&mut p, 0x1000, b"/dev/tty");
    match open(&p.space, &p.mem, 0x1000, 8, 0) {
        Ok(SyscallStep::Fs(FsRequest::Open { path, mode })) => {
            assert_eq!(path, b"/dev/tty");
            assert_eq!(mode, OpenMode::Read);
        }
        other => panic!("{:?}", other),
    }
    match open(&p.space, &p.mem, 0x1000, 4, 1) {
        Ok(SyscallStep::Fs(FsRequest::Open { path, mode })) => {
            assert_eq!(path, b"/dev");
            assert_eq!(mode, OpenMode::Write);
        }
        other => panic!("{:?}", other),
    }
    assert!(matches!(
        open(&p.space, &p.mem, 0x1000, 8, 2),
        Ok(SyscallStep::Done(0))
    ));
    assert!(matches!(
        open(&p.space, &p.mem, 0x9000, 8, 0),
        Err(SyscallError::InvalidPointer)
    ));
    assert!(matches!(
        open(&p.space, &p.mem, 0x9000, 8, 2),
        Err(SyscallError::InvalidPointer)
    ));
    assert_eq!(open_result(Some(7)), 7);
    assert_eq!(open_result(None), 0);
}

#[test]
fn write_copies_the_bytes_out_of_the_process() {
    let mut p = process();
    put(&mut p, 0x2100, b"hello");
    match raca_core::user::syscall::fs::write(&p.space, &p.mem, 3, 0x2100, 5) {
        Ok(SyscallStep::Fs(FsRequest::Write { fd, data })) => {
            assert_eq!(fd, 3);
            assert_eq!(data, b"hello");
        }
        other => panic!("{:?}", other),
    }
    assert!(matches!(
        raca_core::user::syscall::fs::write(&p.space, &p.mem, 3, 0x3000, 5),
        Err(SyscallError::InvalidPointer)
    ));
}

#[test]
fn read_copies_the_bytes_into_the_process() {
    let mut p = process();
    assert!(matches!(
        read(4, 0x1000, 16),
        SyscallStep::Fs(FsRequest::Read { fd: 4, buf_addr: 0x1000, len: 16 })
    ));
    assert_eq!(read_result(&p.space, &mut p.mem, 0x1010, b"data", 3), Ok(3));
    assert_eq!(get(&p, 0x1010, 4), b"data");
    assert_eq!(
        read_result(&p.space, &mut p.mem, 0x2000, b"data", 3),
        Err(SyscallError::InvalidPointer)
    );
    assert_eq!(get(&p, 0x2000, 4), [0u8; 4]);
    assert_eq!(
        read_result(&p.space, &mut p.mem, 0x1ffe, b"data", 3),
        Err(SyscallError::InvalidPointer)
    );
    assert_eq!(get(&p, 0x1ffe, 2), [0u8; 2]);
}

#[test]
fn descriptor_syscalls_pass_their_arguments_on() {
    assert!(matches!(close(5), SyscallStep::Fs(FsRequest::Close { fd: 5 })));
    assert!(matches!(
        lseek(5, 9),
        SyscallStep::Fs(FsRequest::Lseek { fd: 5, offset: 9 })
    ));
    assert!(matches!(fsize(5), SyscallStep::Fs(FsRequest::Fsize { fd: 5 })));
    assert!(matches!(get_type(5), SyscallStep::Fs(FsRequest::GetType { fd: 5 })));
    assert!(matches!(
        open_pipe(0x1000),
        SyscallStep::Fs(FsRequest::OpenPipe { buf_addr: 0x1000 })
    ));
    assert!(matches!(get_cwd(), SyscallStep::Fs(FsRequest::GetCwd)));
    assert_eq!(close_result(true), 1);
    assert_eq!(close_result(false), 0);
    assert_eq!(lseek_result(true), 1);
    assert_eq!(lseek_result(false), 0);
    assert_eq!(fsize_result(Some(4096)), 4096);
    assert_eq!(fsize_result(None), 0);
    assert_eq!(get_type_result(Some(InodeTy::Dir)), 0);
    assert_eq!(get_type_result(Some(InodeTy::File)), 1);
    assert_eq!(get_type_result(None), usize::MAX);
    assert_eq!(mount_result(true), 1);
    assert_eq!(mount_result(false), 0);
    assert_eq!(create_result(Some(3)), 3);
    assert_eq!(create_result(None), 0);
    assert_eq!(change_cwd_result(), 0);
}

#[test]
fn pipe_ends_are_stored_as_two_words() {
    let mut p = process();
    assert_eq!(
        open_pipe_result(&p.space, &mut p.mem, 0x1020, Some((0x0102, 0x0a0b_0c0d))),
        Ok(1)
    );
    assert_eq!(
        get(&p, 0x1020, 16),
        [2, 1, 0, 0, 0, 0, 0, 0, 0x0d, 0x0c, 0x0b, 0x0a, 0, 0, 0, 0]
    );
    assert_eq!(open_pipe_result(&p.space, &mut p.mem, 0x9000, None), Ok(0));
    assert_eq!(
        open_pipe_result(&p.space, &mut p.mem, 0x9000, Some((1, 2))),
        Err(SyscallError::InvalidPointer)
    );
    let mut bytes = vec![0xffu8];
    push_word(&mut bytes, 0x1122_3344_5566_7788);
    assert_eq!(bytes, [0xff, 0x88, 0x77, 0x66, 0x55, 0x44, 0x33, 0x22, 0x11]);
}

#[test]
fn paths_of_directory_syscalls() {
    let mut p = process();
    put(&mut p, 0x1000, b"/home/user");
    match dir_item_num(&p.space, &p.mem, 0x1000, 5) {
        Ok(SyscallStep::Fs(FsRequest::DirItemNum { path })) => assert_eq!(path, b"/home"),
        other => panic!("{:?}", other),
    }
    match list_dir(&p.space, &p.mem, 0x1000, 10, 0x1800) {
        Ok(SyscallStep::Fs(FsRequest::ListDir { path, buf_addr })) => {
            assert_eq!(path, b"/home/user");
            assert_eq!(buf_addr, 0x1800);
        }
        other => panic!("{:?}", other),
    }
    match change_cwd(&p.space, &p.mem, 0x1005, 5) {
        Ok(SyscallStep::Fs(FsRequest::ChangeCwd { path })) => assert_eq!(path, b"/user"),
        other => panic!("{:?}", other),
    }
    match create(&p.space, &p.mem, 0x1000, 5, 0) {
        Ok(SyscallStep::Fs(FsRequest::Create { path, ty })) => {
            assert_eq!(path, b"/home");
            assert_eq!(ty, InodeTy::Dir);
        }
        other => panic!("{:?}", other),
    }
    match create(&p.space, &p.mem, 0x1000, 10, 1) {
        Ok(SyscallStep::Fs(FsRequest::Create { path, ty })) => {
            assert_eq!(path, b"/home/user");
            assert_eq!(ty, InodeTy::File);
        }
        other => panic!("{:?}", other),
    }
    assert!(matches!(
        create(&p.space, &p.mem, 0x1000, 10, 2),
        Ok(SyscallStep::Done(0))
    ));
    match mount(&p.space, &p.mem, 0x1000, 5, 0x1005, 5) {
        Ok(SyscallStep::Fs(FsRequest::Mount { to, partition })) => {
            assert_eq!(to, b"/home");
            assert_eq!(partition, b"/user");
        }
        other => panic!("{:?}", other),
    }
    for r in [
        dir_item_num(&p.space, &p.mem, 0x9000, 5),
        list_dir(&p.space, &p.mem, 0x9000, 5, 0x1000),
        change_cwd(&p.space, &p.mem, 0x9000, 5),
        create(&p.space, &p.mem, 0x9000, 5, 0),
        mount(&p.space, &p.mem, 0x9000, 5, 0x1000, 5),
        mount(&p.space, &p.mem, 0x1000, 5, 0x9000, 5),
    ] {
        assert!(matches!(r, Err(SyscallError::InvalidPointer)));
    }
}

#[test]
fn working_directory_is_stored_with_its_address_and_length() {
    let mut p = process();
    assert_eq!(
        get_cwd_result(&p.space, &mut p.mem, b"/home", 0x1100, 0x1200),
        Ok(0x1200)
    );
    assert_eq!(get(&p, 0x1100, 5), b"/home");
    assert_eq!(
        get(&p, 0x1200, 16),
        [0, 0x11, 0, 0, 0, 0, 0, 0, 5, 0, 0, 0, 0, 0, 0, 0]
    );
    assert_eq!(
        get_cwd_result(&p.space, &mut p.mem, b"/home", 0x2100, 0x1300),
        Err(SyscallError::InvalidPointer)
    );
    assert_eq!(get(&p, 0x1300, 2), [0u8; 2]);
    assert_eq!(
        get_cwd_result(&p.space, &mut p.mem, b"/root", 0x1400, 0x2200),
        Err(SyscallError::InvalidPointer)
    );
    assert_eq!(get(&p, 0x1400, 5), b"/root");
}

#[test]
fn syscall_table() {
    let mut p = process();
    put(&mut p, 0x1000, b"/bin/sh");
    let call = |idx: usize, a: usize, b: usize, c: usize| {
        syscall_handler(&p.space, &p.mem, idx, a, b, c, 0, 0, 0).unwrap()
    };
    assert!(matches!(
        call(0, 0x1000, 7, 0),
        SyscallStep::DebugWrite { addr: 0x1000, len: 7 }
    ));
    assert!(matches!(call(1, 0, 0, 0), SyscallStep::ShowCpuId));
    match call(2, 0x1000, 7, 1) {
        SyscallStep::Fs(FsRequest::Open { path, mode }) => {
            assert_eq!(path, b"/bin/sh");
            assert_eq!(mode, OpenMode::Write);
        }
        other => panic!("{:?}", other),
    }
    assert!(matches!(call(2, 0x1000, 7, 5), SyscallStep::Done(0)));
    match call(3, 9, 0x1001, 3) {
        SyscallStep::Fs(FsRequest::Write { fd, data }) => {
            assert_eq!(fd, 9);
            assert_eq!(data, b"bin");
        }
        other => panic!("{:?}", other),
    }
    assert!(matches!(
        call(4, 9, 0x1000, 64),
        SyscallStep::Fs(FsRequest::Read { fd: 9, buf_addr: 0x1000, len: 64 })
    ));
    assert!(matches!(
        call(5, 0x1000, 7, 0),
        SyscallStep::DumpHexBuffer { addr: 0x1000, len: 7 }
    ));
    assert!(matches!(
        call(6, 0x1000, 0, 0),
        SyscallStep::CreateProcess { addr: 0x1000 }
    ));
    assert!(matches!(
        call(7, 32, 8, 0),
        SyscallStep::Malloc { size: 32, align: 8 }
    ));
    assert!(matches!(
        call(8, 0x1000, 32, 8),
        SyscallStep::Free { addr: 0x1000, size: 32, align: 8 }
    ));
    assert!(matches!(call(9, 4, 0, 0), SyscallStep::Fs(FsRequest::Close { fd: 4 })));
    assert!(matches!(
        call(10, 4, 100, 0),
        SyscallStep::Fs(FsRequest::Lseek { fd: 4, offset: 100 })
    ));
    assert!(matches!(call(11, 4, 0, 0), SyscallStep::Fs(FsRequest::Fsize { fd: 4 })));
    assert!(matches!(
        call(12, 0x1000, 0, 0),
        SyscallStep::Fs(FsRequest::OpenPipe { buf_addr: 0x1000 })
    ));
    assert!(matches!(call(13, 1, 2, 3), SyscallStep::Done(0)));
    assert!(matches!(call(usize::MAX, 1, 2, 3), SyscallStep::Done(0)));
    assert!(matches!(
        syscall_handler(&p.space, &p.mem, 2, 0x9000, 7, 0, 0, 0, 0),
        Err(SyscallError::InvalidPointer)
    ));
    assert!(matches!(
        syscall_handler(&p.space, &p.mem, 3, 1, 0x3000, 4, 0, 0, 0),
        Err(SyscallError::InvalidPointer)
    ));
}

#[test]
fn directory_entries_are_stored_with_their_names() {
    let mut p = process();
    let entries = vec![
        PlacedEntry {
            name: b"bin".to_vec(),
            ty: InodeTy::Dir,
            name_addr: 0x1100,
        },
        PlacedEntry {
            name: b"init.rae".to_vec(),
            ty: InodeTy::File,
            name_addr: 0x1108,
        },
    ];
    assert_eq!(list_dir_result(&p.space, &mut p.mem, 0x1200, &entries), Ok(0));
    assert_eq!(get(&p, 0x1100, 3), b"bin");
    assert_eq!(get(&p, 0x1108, 8), b"init.rae");
    let mut rows = vec![];
    for word in [0x1100u64, 3, 0, 0x1108, 8, 1] {
        push_word(&mut rows, word);
    }
    assert_eq!(get(&p, 0x1200, 48), rows);
    assert_eq!(list_dir_result(&p.space, &mut p.mem, 0x1300, &vec![]), Ok(0));
    assert_eq!(
        list_dir_result(&p.space, &mut p.mem, 0x2000, &entries),
        Err(SyscallError::InvalidPointer)
    );
    let misplaced = vec![PlacedEntry {
        name: b"bin".to_vec(),
        ty: InodeTy::Dir,
        name_addr: 0x3000,
    }];
    assert_eq!(
        list_dir_result(&p.space, &mut p.mem, 0x1400, &misplaced),
        Err(SyscallError::InvalidPointer)
    );
    assert_eq!(get(&p, 0x1400, 8), [0u8; 8]);
}
