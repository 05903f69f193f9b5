//! The syscall table.

use vstd::prelude::*;
use crate::memory::page_table::GeneralPageTable;
use crate::memory::phys::PhysMemory;
use crate::user::syscall::fs::{readable, user_bytes, FsRequest, SyscallError, SyscallStep};

pub mod fs;

verus! {

/// What the syscall with number `idx` and the arguments `arg1` to `arg3`
/// comes to, when all it does is decided by its number and these arguments.
pub open spec fn plain_step(idx: usize, arg1: usize, arg2: usize, arg3: usize) -> SyscallStep {
    if idx == 0 {
        SyscallStep::DebugWrite { addr: arg1, len: arg2 }
    } else if idx == 1 {
        SyscallStep::ShowCpuId
    } else if idx == 4 {
        SyscallStep::Fs(FsRequest::Read { fd: arg1, buf_addr: arg2, len: arg3 })
    } else if idx == 5 {
        SyscallStep::DumpHexBuffer { addr: arg1, len: arg2 }
    } else if idx == 6 {
        SyscallStep::CreateProcess { addr: arg1 }
    } else if idx == 7 {
        SyscallStep::Malloc { size: arg1, align: arg2 }
    } else if idx == 8 {
        SyscallStep::Free { addr: arg1, size: arg2, align: arg3 }
    } else if idx == 9 {
        SyscallStep::Fs(FsRequest::Close { fd: arg1 })
    } else if idx == 10 {
        SyscallStep::Fs(FsRequest::Lseek { fd: arg1, offset: arg2 })
    } else if idx == 11 {
        SyscallStep::Fs(FsRequest::Fsize { fd: arg1 })
    } else if idx == 12 {
        SyscallStep::Fs(FsRequest::OpenPipe { buf_addr: arg1 })
    } else {
        SyscallStep::Done(0)
    }
}

/// Decides what the syscall with number `idx` is to do for the process whose
/// address space is `space`. Numbers 2 and 3, opening a file and writing to
/// one, copy a buffer out of the process first; a number that names no
/// syscall returns 0.
pub fn syscall_handler(
    space: &GeneralPageTable,
    mem: &PhysMemory,
    idx: usize,
    arg1: usize,
    arg2: usize,
    arg3: usize,
    arg4: usize,
    arg5: usize,
    arg6: usize,
) -> (r: Result<SyscallStep, SyscallError>)
    ensures
        idx == 2 ==> (r.is_ok() <==> readable(*space, mem@, arg1, arg2 as int)) && (r.is_ok()
            ==> match r.unwrap() {
            SyscallStep::Fs(FsRequest::Open { path, mode }) => {
                &&& arg3 <= 1
                &&& mode == if arg3 == 0 {
                    fs::OpenMode::Read
                } else {
                    fs::OpenMode::Write
                }
                &&& path@ == user_bytes(*space, mem@, arg1, arg2 as int)
            },
            SyscallStep::Done(value) => value == 0 && arg3 > 1,
            _ => false,
        }),
        idx == 3 ==> (r.is_ok() <==> readable(*space, mem@, arg2, arg3 as int)) && (r.is_ok()
            ==> match r.unwrap() {
            SyscallStep::Fs(FsRequest::Write { fd, data }) => fd == arg1 && data@ == user_bytes(
                *space,
                mem@,
                arg2,
                arg3 as int,
            ),
            _ => false,
        }),
        idx != 2 && idx != 3 ==> r.is_ok() && r.unwrap() == plain_step(idx, arg1, arg2, arg3),
{
    match idx {
        0 => Ok(SyscallStep::DebugWrite { addr: arg1, len: arg2 }),
        1 => Ok(SyscallStep::ShowCpuId),
        2 => fs::open(space, mem, arg1, arg2, arg3),
        3 => fs::write(space, mem, arg1, arg2, arg3),
        4 => Ok(fs::read(arg1, arg2, arg3)),
        5 => Ok(SyscallStep::DumpHexBuffer { addr: arg1, len: arg2 }),
        6 => Ok(SyscallStep::CreateProcess { addr: arg1 }),
        7 => Ok(SyscallStep::Malloc { size: arg1, align: arg2 }),
        8 => Ok(SyscallStep::Free { addr: arg1, size: arg2, align: arg3 }),
        9 => Ok(fs::close(arg1)),
        10 => Ok(fs::lseek(arg1, arg2)),
        11 => Ok(fs::fsize(arg1)),
        12 => Ok(fs::open_pipe(arg1)),
        _ => Ok(SyscallStep::Done(0)),
    }
}

} // verus!
