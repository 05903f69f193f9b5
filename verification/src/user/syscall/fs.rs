//! The file syscalls. Each comes in two halves around the one call into the
//! filesystem layer: the first checks the arguments and copies what the
//! process passed by address out of its address space, the second turns what
//! the filesystem layer answered into the value that the process gets back.

use vstd::prelude::*;
use crate::memory::access::{
    accessible, load_bytes, store_bytes, targets, USER_READ, USER_WRITE,
};
use crate::memory::addr::{is_canonical, VirtAddr};
use crate::memory::page_table::GeneralPageTable;
use crate::memory::phys::PhysMemory;

verus! {

/// How a file is opened.
#[derive(Clone, Copy, PartialEq, Eq, Structural, Debug)]
pub enum OpenMode {
    Read,
    Write,
}

/// What an inode is.
#[derive(Clone, Copy, PartialEq, Eq, Structural, Debug)]
pub enum InodeTy {
    Dir,
    File,
}

/// Why a syscall could not use what the process passed.
#[derive(Clone, Copy, PartialEq, Eq, Structural, Debug)]
pub enum SyscallError {
    /// A buffer of the process is not wholly mapped in its address space.
    InvalidPointer,
}

/// One call into the filesystem layer.
#[derive(Debug)]
pub enum FsRequest {
    Open { path: Vec<u8>, mode: OpenMode },
    Write { fd: usize, data: Vec<u8> },
    Read { fd: usize, buf_addr: usize, len: usize },
    Close { fd: usize },
    Lseek { fd: usize, offset: usize },
    Fsize { fd: usize },
    OpenPipe { buf_addr: usize },
    DirItemNum { path: Vec<u8> },
    ListDir { path: Vec<u8>, buf_addr: usize },
    ChangeCwd { path: Vec<u8> },
    GetCwd,
    Create { path: Vec<u8>, ty: InodeTy },
    GetType { fd: usize },
    Mount { to: Vec<u8>, partition: Vec<u8> },
}

/// What is to be done next for a syscall.
#[derive(Debug)]
pub enum SyscallStep {
    /// Nothing: the syscall is over and returns this value.
    Done(usize),
    /// The call into the filesystem layer, whose answer the second half of
    /// the syscall takes.
    Fs(FsRequest),
    /// Print the bytes at `addr`.
    DebugWrite { addr: usize, len: usize },
    /// Print the number of the processor.
    ShowCpuId,
    /// Print the bytes at `addr` as hexadecimal numbers.
    DumpHexBuffer { addr: usize, len: usize },
    /// Start the program whose image lies at `addr`.
    CreateProcess { addr: usize },
    /// Take memory from the heap of the process.
    Malloc { size: usize, align: usize },
    /// Give memory back to the heap of the process.
    Free { addr: usize, size: usize, align: usize },
}

/// Whether the process can read the `len` bytes from `addr` on: each is
/// mapped for user mode.
pub open spec fn readable(space: GeneralPageTable, mem: Seq<u64>, addr: usize, len: int) -> bool {
    is_canonical(addr as u64) && accessible(
        mem,
        space.physical_address@,
        USER_READ,
        addr as u64,
        len,
    )
}

/// Whether the process can write the `len` bytes from `addr` on: each is
/// mapped for user mode and for writing.
pub open spec fn writable(space: GeneralPageTable, mem: Seq<u64>, addr: usize, len: int) -> bool {
    is_canonical(addr as u64) && accessible(
        mem,
        space.physical_address@,
        USER_WRITE,
        addr as u64,
        len,
    )
}

/// The `len` bytes that the process holds from `addr` on.
pub open spec fn user_bytes(space: GeneralPageTable, mem: Seq<u64>, addr: usize, len: int) -> Seq<
    u8,
> {
    load_bytes(mem, targets(mem, space.physical_address@, USER_READ, addr as u64, len))
}

/// The memory after `bytes` are stored in the process from `addr` on.
pub open spec fn stored(space: GeneralPageTable, mem: Seq<u64>, addr: usize, bytes: Seq<u8>) -> Seq<
    u64,
> {
    store_bytes(
        mem,
        targets(mem, space.physical_address@, USER_WRITE, addr as u64, bytes.len() as int),
        bytes,
    )
}

/// Copies the `len` bytes at the address `addr` of the process into a buffer
/// of the kernel.
pub fn copy_in(space: &GeneralPageTable, mem: &PhysMemory, addr: usize, len: usize) -> (r: Result<
    Vec<u8>,
    SyscallError,
>)
    ensures
        r.is_ok() <==> readable(*space, mem@, addr, len as int),
        r.is_ok() ==> r.unwrap()@ == user_bytes(*space, mem@, addr, len as int),
{
    let start = match VirtAddr::try_new(addr as u64) {
        Some(start) => start,
        None => {
            return Err(SyscallError::InvalidPointer);
        },
    };
    let mut buf: Vec<u8> = vec![0u8; len];
    match space.read_checked(mem, USER_READ, start, len, buf.as_mut_slice()) {
        Ok(()) => {
            assert(buf@.subrange(0, len as int) =~= buf@);
            Ok(buf)
        },
        Err(_) => Err(SyscallError::InvalidPointer),
    }
}

/// First half of `open`: copies the path out of the process and decodes the
/// mode, 0 for reading and 1 for writing. Any other mode ends the syscall
/// with 0.
pub fn open(
    space: &GeneralPageTable,
    mem: &PhysMemory,
    buf_addr: usize,
    buf_len: usize,
    open_mode: usize,
) -> (r: Result<SyscallStep, SyscallError>)
    ensures
        r.is_ok() <==> readable(*space, mem@, buf_addr, buf_len as int),
        r.is_ok() ==> match r.unwrap() {
            SyscallStep::Fs(FsRequest::Open { path, mode }) => {
                &&& open_mode <= 1
                &&& mode == if open_mode == 0 {
                    OpenMode::Read
                } else {
                    OpenMode::Write
                }
                &&& path@ == user_bytes(*space, mem@, buf_addr, buf_len as int)
            },
            SyscallStep::Done(value) => value == 0 && open_mode > 1,
            _ => false,
        },
{
    let path = match copy_in(space, mem, buf_addr, buf_len) {
        Ok(path) => path,
        Err(e) => {
            return Err(e);
        },
    };
    let mode = if open_mode == 0 {
        OpenMode::Read
    } else if open_mode == 1 {
        OpenMode::Write
    } else {
        return Ok(SyscallStep::Done(0));
    };
    Ok(SyscallStep::Fs(FsRequest::Open { path, mode }))
}

/// Second half of `open`: the descriptor that was opened, or 0.
pub fn open_result(fd: Option<usize>) -> (r: usize)
    ensures
        r == if fd.is_some() {
            fd.unwrap()
        } else {
            0
        },
{
    match fd {
        Some(fd) => fd,
        None => 0,
    }
}

/// First half of `write`: copies the bytes to write out of the process.
pub fn write(
    space: &GeneralPageTable,
    mem: &PhysMemory,
    fd: usize,
    buf_addr: usize,
    buf_len: usize,
) -> (r: Result<SyscallStep, SyscallError>)
    ensures
        r.is_ok() <==> readable(*space, mem@, buf_addr, buf_len as int),
        r.is_ok() ==> match r.unwrap() {
            SyscallStep::Fs(FsRequest::Write { fd: to, data }) => to == fd && data@ == user_bytes(
                *space,
                mem@,
                buf_addr,
                buf_len as int,
            ),
            _ => false,
        },
{
    match copy_in(space, mem, buf_addr, buf_len) {
        Ok(data) => Ok(SyscallStep::Fs(FsRequest::Write { fd, data })),
        Err(e) => Err(e),
    }
}

/// First half of `read`: asks the filesystem layer for up to `buf_len` bytes,
/// which the second half stores at `buf_addr`.
pub fn read(fd: usize, buf_addr: usize, buf_len: usize) -> (r: SyscallStep)
    ensures
        r == SyscallStep::Fs(FsRequest::Read { fd, buf_addr, len: buf_len }),
{
    SyscallStep::Fs(FsRequest::Read { fd, buf_addr, len: buf_len })
}

/// Second half of `read`: copies `data`, the buffer that the filesystem layer
/// filled, into the process at `buf_addr`, and returns `len`, the number of
/// bytes that the filesystem layer read.
pub fn read_result(
    space: &GeneralPageTable,
    mem: &mut PhysMemory,
    buf_addr: usize,
    data: &[u8],
    len: usize,
) -> (r: Result<usize, SyscallError>)
    ensures
        r.is_ok() <==> writable(*space, old(mem)@, buf_addr, data@.len() as int),
        r.is_ok() ==> r.unwrap() == len && final(mem)@ == stored(
            *space,
            old(mem)@,
            buf_addr,
            data@,
        ),
        r.is_err() ==> final(mem)@ == old(mem)@,
{
    let start = match VirtAddr::try_new(buf_addr as u64) {
        Some(start) => start,
        None => {
            return Err(SyscallError::InvalidPointer);
        },
    };
    match space.write_checked(mem, USER_WRITE, data, start) {
        Ok(()) => Ok(len),
        Err(_) => Err(SyscallError::InvalidPointer),
    }
}

/// First half of `close`.
pub fn close(fd: usize) -> (r: SyscallStep)
    ensures
        r matches SyscallStep::Fs(FsRequest::Close { fd: which }) && which == fd,
{
    SyscallStep::Fs(FsRequest::Close { fd })
}

/// Second half of `close`: 1 when the descriptor was closed, else 0.
pub fn close_result(closed: bool) -> (r: usize)
    ensures
        r == if closed {
            1usize
        } else {
            0usize
        },
{
    if closed {
        1
    } else {
        0
    }
}

/// First half of `lseek`.
pub fn lseek(fd: usize, offset: usize) -> (r: SyscallStep)
    ensures
        r matches SyscallStep::Fs(FsRequest::Lseek { fd: which, offset: to }) && which == fd && to
            == offset,
{
    SyscallStep::Fs(FsRequest::Lseek { fd, offset })
}

/// Second half of `lseek`: 1 when the position was set, else 0.
pub fn lseek_result(moved: bool) -> (r: usize)
    ensures
        r == if moved {
            1usize
        } else {
            0usize
        },
{
    if moved {
        1
    } else {
        0
    }
}

/// First half of `fsize`.
pub fn fsize(fd: usize) -> (r: SyscallStep)
    ensures
        r matches SyscallStep::Fs(FsRequest::Fsize { fd: which }) && which == fd,
{
    SyscallStep::Fs(FsRequest::Fsize { fd })
}

/// Second half of `fsize`: the size of the file, 0 when there is none.
pub fn fsize_result(size: Option<usize>) -> (r: usize)
    ensures
        r == if size.is_some() {
            size.unwrap()
        } else {
            0
        },
{
    match size {
        Some(size) => size,
        None => 0,
    }
}

/// First half of `open_pipe`: asks for a pipe, whose two descriptors the
/// second half stores at `buf_addr`.
pub fn open_pipe(buf_addr: usize) -> (r: SyscallStep)
    ensures
        r == SyscallStep::Fs(FsRequest::OpenPipe { buf_addr }),
{
    SyscallStep::Fs(FsRequest::OpenPipe { buf_addr })
}

/// The eight bytes of `value`, lowest first.
pub open spec fn word_bytes(value: u64) -> Seq<u8> {
    Seq::new(8, |i: int| ((value >> ((8 * i) as u64)) & 0xff) as u8)
}

/// Second half of `open_pipe`: stores the two descriptors of the new pipe,
/// the reading end first, as two words at `buf_addr` in the process, and
/// returns 1; returns 0 when no pipe was opened.
pub fn open_pipe_result(
    space: &GeneralPageTable,
    mem: &mut PhysMemory,
    buf_addr: usize,
    ends: Option<(usize, usize)>,
) -> (r: Result<usize, SyscallError>)
    ensures
        ends.is_none() ==> r == Ok::<usize, SyscallError>(0) && final(mem)@ == old(mem)@,
        ends.is_some() ==> {
            let bytes = word_bytes(ends.unwrap().0 as u64) + word_bytes(ends.unwrap().1 as u64);
            &&& r.is_ok() <==> writable(*space, old(mem)@, buf_addr, 16)
            &&& r.is_ok() ==> r.unwrap() == 1 && final(mem)@ == stored(
                *space,
                old(mem)@,
                buf_addr,
                bytes,
            )
            &&& r.is_err() ==> final(mem)@ == old(mem)@
        },
{
    match ends {
        None => Ok(0),
        Some((first, second)) => {
            let mut bytes: Vec<u8> = Vec::new();
            push_word(&mut bytes, first as u64);
            push_word(&mut bytes, second as u64);
            match read_result(space, mem, buf_addr, bytes.as_slice(), 1) {
                Ok(done) => Ok(done),
                Err(e) => Err(e),
            }
        },
    }
}

/// Appends the eight bytes of `value`, lowest first.
pub fn push_word(bytes: &mut Vec<u8>, value: u64)
    ensures
        final(bytes)@ == old(bytes)@ + word_bytes(value),
{
    let mut index: u64 = 0;
    while index < 8
        invariant
            index <= 8,
            bytes@ == old(bytes)@ + word_bytes(value).subrange(0, index as int),
        decreases 8 - index,
    {
        let shift = 8 * index;
        let lane = (value >> shift) & 0xff;
        assert(lane < 256) by (bit_vector)
            requires
                lane == (value >> shift) & 0xff,
        ;
        bytes.push(lane as u8);
        assert(bytes@ =~= old(bytes)@ + word_bytes(value).subrange(0, index + 1));
        index += 1;
    }
    assert(word_bytes(value).subrange(0, 8) =~= word_bytes(value));
}

/// First half of `dir_item_num`: copies the path out of the process. The
/// syscall returns the number of entries that the filesystem layer lists.
pub fn dir_item_num(
    space: &GeneralPageTable,
    mem: &PhysMemory,
    path_addr: usize,
    path_len: usize,
) -> (r: Result<SyscallStep, SyscallError>)
    ensures
        r.is_ok() <==> readable(*space, mem@, path_addr, path_len as int),
        r.is_ok() ==> match r.unwrap() {
            SyscallStep::Fs(FsRequest::DirItemNum { path }) => path@ == user_bytes(
                *space,
                mem@,
                path_addr,
                path_len as int,
            ),
            _ => false,
        },
{
    match copy_in(space, mem, path_addr, path_len) {
        Ok(path) => Ok(SyscallStep::Fs(FsRequest::DirItemNum { path })),
        Err(e) => Err(e),
    }
}

/// First half of `list_dir`: copies the path out of the process. The second
/// half takes the entries of the directory and stores them at `buf_addr`.
pub fn list_dir(
    space: &GeneralPageTable,
    mem: &PhysMemory,
    path_addr: usize,
    path_len: usize,
    buf_addr: usize,
) -> (r: Result<SyscallStep, SyscallError>)
    ensures
        r.is_ok() <==> readable(*space, mem@, path_addr, path_len as int),
        r.is_ok() ==> match r.unwrap() {
            SyscallStep::Fs(FsRequest::ListDir { path, buf_addr: to }) => to == buf_addr && path@
                == user_bytes(*space, mem@, path_addr, path_len as int),
            _ => false,
        },
{
    match copy_in(space, mem, path_addr, path_len) {
        Ok(path) => Ok(SyscallStep::Fs(FsRequest::ListDir { path, buf_addr })),
        Err(e) => Err(e),
    }
}

/// One entry of a directory, with the address in the process at which its
/// name is to be stored, taken from the heap of the process beforehand.
#[derive(Debug)]
pub struct PlacedEntry {
    pub name: Vec<u8>,
    pub ty: InodeTy,
    pub name_addr: usize,
}

/// The number that stands for a type of inode.
pub open spec fn type_number(ty: InodeTy) -> u64 {
    match ty {
        InodeTy::Dir => 0,
        InodeTy::File => 1,
    }
}

/// The three words that describe a directory entry to the process: the
/// address of its name, the length of its name, and its type.
pub open spec fn entry_row(entry: PlacedEntry) -> Seq<u8> {
    word_bytes(entry.name_addr as u64) + word_bytes(entry.name@.len() as u64) + word_bytes(
        type_number(entry.ty),
    )
}

/// The rows of the entries `entries`, one after the other.
pub open spec fn table_bytes(entries: Seq<PlacedEntry>) -> Seq<u8>
    decreases entries.len(),
{
    if entries.len() == 0 {
        Seq::empty()
    } else {
        table_bytes(entries.drop_last()) + entry_row(entries.last())
    }
}

/// The memory after the name of each of the entries `entries` is stored at
/// its address in the process, first to last; `None` when the process cannot
/// write one of these places.
pub open spec fn names_stored(space: GeneralPageTable, mem: Seq<u64>, entries: Seq<PlacedEntry>) -> Option<
    Seq<u64>,
>
    decreases entries.len(),
{
    if entries.len() == 0 {
        Some(mem)
    } else {
        match names_stored(space, mem, entries.drop_last()) {
            Some(before) => if writable(
                space,
                before,
                entries.last().name_addr,
                entries.last().name@.len() as int,
            ) {
                Some(stored(space, before, entries.last().name_addr, entries.last().name@))
            } else {
                None
            },
            None => None,
        }
    }
}

/// Second half of `list_dir`: stores the name of each entry at its address in
/// the process, then the rows of all entries at `buf_addr`, and returns 0.
/// Fails when the process cannot write one of these places; what was stored
/// before stays.
pub fn list_dir_result(
    space: &GeneralPageTable,
    mem: &mut PhysMemory,
    buf_addr: usize,
    entries: &Vec<PlacedEntry>,
) -> (r: Result<usize, SyscallError>)
    ensures
        match names_stored(*space, old(mem)@, entries@) {
            Some(named) => if writable(
                *space,
                named,
                buf_addr,
                table_bytes(entries@).len() as int,
            ) {
                r == Ok::<usize, SyscallError>(0) && final(mem)@ == stored(
                    *space,
                    named,
                    buf_addr,
                    table_bytes(entries@),
                )
            } else {
                r.is_err() && final(mem)@ == named
            },
            None => r.is_err(),
        },
{
    let ghost mem0 = mem@;
    let mut table: Vec<u8> = Vec::new();
    let mut index: usize = 0;
    while index < entries.len()
        invariant
            index <= entries@.len(),
            mem0 == old(mem)@,
            names_stored(*space, mem0, entries@.take(index as int)) == Some(mem@),
            table@ == table_bytes(entries@.take(index as int)),
        decreases entries@.len() - index,
    {
        let entry = &entries[index];
        proof {
            let more = entries@.take(index + 1);
            assert(more.drop_last() =~= entries@.take(index as int));
            assert(more.last() == entries@[index as int]);
            if !writable(*space, mem@, entry.name_addr, entry.name@.len() as int) {
                lemma_names_stored_fail(*space, mem0, entries@, index + 1);
            }
        }
        match read_result(space, mem, entry.name_addr, entry.name.as_slice(), 0) {
            Ok(_) => {},
            Err(e) => {
                return Err(e);
            },
        }
        push_word(&mut table, entry.name_addr as u64);
        push_word(&mut table, entry.name.len() as u64);
        let number: u64 = match entry.ty {
            InodeTy::Dir => 0,
            InodeTy::File => 1,
        };
        push_word(&mut table, number);
        proof {
            assert(table@ =~= table_bytes(entries@.take(index as int)) + entry_row(
                entries@[index as int],
            ));
        }
        index += 1;
    }
    proof {
        assert(entries@.take(index as int) =~= entries@);
    }
    match read_result(space, mem, buf_addr, table.as_slice(), 0) {
        Ok(done) => Ok(done),
        Err(e) => Err(e),
    }
}

/// Once a name cannot be stored, the names of no longer list of entries can.
pub proof fn lemma_names_stored_fail(
    space: GeneralPageTable,
    mem: Seq<u64>,
    entries: Seq<PlacedEntry>,
    upto: int,
)
    requires
        0 <= upto <= entries.len(),
        names_stored(space, mem, entries.take(upto)).is_none(),
    ensures
        names_stored(space, mem, entries).is_none(),
    decreases entries.len() - upto,
{
    if upto < entries.len() {
        let more = entries.take(upto + 1);
        assert(more.drop_last() =~= entries.take(upto));
        lemma_names_stored_fail(space, mem, entries, upto + 1);
    } else {
        assert(entries.take(upto) =~= entries);
    }
}

/// First half of `change_cwd`: copies the path out of the process.
pub fn change_cwd(
    space: &GeneralPageTable,
    mem: &PhysMemory,
    path_addr: usize,
    path_len: usize,
) -> (r: Result<SyscallStep, SyscallError>)
    ensures
        r.is_ok() <==> readable(*space, mem@, path_addr, path_len as int),
        r.is_ok() ==> match r.unwrap() {
            SyscallStep::Fs(FsRequest::ChangeCwd { path }) => path@ == user_bytes(
                *space,
                mem@,
                path_addr,
                path_len as int,
            ),
            _ => false,
        },
{
    match copy_in(space, mem, path_addr, path_len) {
        Ok(path) => Ok(SyscallStep::Fs(FsRequest::ChangeCwd { path })),
        Err(e) => Err(e),
    }
}

/// Second half of `change_cwd`: always 0.
pub fn change_cwd_result() -> (r: usize)
    ensures
        r == 0,
{
    0
}

/// First half of `get_cwd`.
pub fn get_cwd() -> (r: SyscallStep)
    ensures
        r is Fs && r->Fs_0 is GetCwd,
{
    SyscallStep::Fs(FsRequest::GetCwd)
}

/// Second half of `get_cwd`: stores the path at `path_addr` in the process,
/// and its address and length as two words at `ret_addr`, both places taken
/// from the heap of the process beforehand, and returns `ret_addr`.
pub fn get_cwd_result(
    space: &GeneralPageTable,
    mem: &mut PhysMemory,
    path: &[u8],
    path_addr: usize,
    ret_addr: usize,
) -> (r: Result<usize, SyscallError>)
    ensures
        ({
            let first = stored(*space, old(mem)@, path_addr, path@);
            let words = word_bytes(path_addr as u64) + word_bytes(path@.len() as u64);
            if !writable(*space, old(mem)@, path_addr, path@.len() as int) {
                r.is_err() && final(mem)@ == old(mem)@
            } else if !writable(*space, first, ret_addr, 16) {
                r.is_err() && final(mem)@ == first
            } else {
                r == Ok::<usize, SyscallError>(ret_addr) && final(mem)@ == stored(
                    *space,
                    first,
                    ret_addr,
                    words,
                )
            }
        }),
{
    match read_result(space, mem, path_addr, path, 0) {
        Ok(_) => {},
        Err(e) => {
            return Err(e);
        },
    }
    let mut words: Vec<u8> = Vec::new();
    push_word(&mut words, path_addr as u64);
    push_word(&mut words, path.len() as u64);
    match read_result(space, mem, ret_addr, words.as_slice(), ret_addr) {
        Ok(done) => Ok(done),
        Err(e) => Err(e),
    }
}

/// First half of `create`: copies the path out of the process and decodes the
/// type, 0 for a directory and 1 for a file. Any other type ends the syscall
/// with 0.
pub fn create(
    space: &GeneralPageTable,
    mem: &PhysMemory,
    path_addr: usize,
    path_len: usize,
    ty: usize,
) -> (r: Result<SyscallStep, SyscallError>)
    ensures
        r.is_ok() <==> readable(*space, mem@, path_addr, path_len as int),
        r.is_ok() ==> match r.unwrap() {
            SyscallStep::Fs(FsRequest::Create { path, ty: kind }) => {
                &&& ty <= 1
                &&& kind == if ty == 0 {
                    InodeTy::Dir
                } else {
                    InodeTy::File
                }
                &&& path@ == user_bytes(*space, mem@, path_addr, path_len as int)
            },
            SyscallStep::Done(value) => value == 0 && ty > 1,
            _ => false,
        },
{
    let path = match copy_in(space, mem, path_addr, path_len) {
        Ok(path) => path,
        Err(e) => {
            return Err(e);
        },
    };
    let kind = if ty == 0 {
        InodeTy::Dir
    } else if ty == 1 {
        InodeTy::File
    } else {
        return Ok(SyscallStep::Done(0));
    };
    Ok(SyscallStep::Fs(FsRequest::Create { path, ty: kind }))
}

/// Second half of `create`: the descriptor of what was created, or 0.
pub fn create_result(fd: Option<usize>) -> (r: usize)
    ensures
        r == if fd.is_some() {
            fd.unwrap()
        } else {
            0
        },
{
    open_result(fd)
}

/// First half of `get_type`.
pub fn get_type(fd: usize) -> (r: SyscallStep)
    ensures
        r matches SyscallStep::Fs(FsRequest::GetType { fd: which }) && which == fd,
{
    SyscallStep::Fs(FsRequest::GetType { fd })
}

/// Second half of `get_type`: 0 for a directory, 1 for a file, and the
/// largest number when the descriptor names nothing.
pub fn get_type_result(ty: Option<InodeTy>) -> (r: usize)
    ensures
        r == match ty {
            Some(InodeTy::Dir) => 0usize,
            Some(InodeTy::File) => 1usize,
            None => usize::MAX,
        },
{
    match ty {
        Some(InodeTy::Dir) => 0,
        Some(InodeTy::File) => 1,
        None => usize::MAX,
    }
}

/// First half of `mount`: copies both paths out of the process, the place to
/// mount at first.
pub fn mount(
    space: &GeneralPageTable,
    mem: &PhysMemory,
    to_path_addr: usize,
    to_path_len: usize,
    p_path_addr: usize,
    p_path_len: usize,
) -> (r: Result<SyscallStep, SyscallError>)
    ensures
        r.is_ok() <==> readable(*space, mem@, to_path_addr, to_path_len as int) && readable(
            *space,
            mem@,
            p_path_addr,
            p_path_len as int,
        ),
        r.is_ok() ==> match r.unwrap() {
            SyscallStep::Fs(FsRequest::Mount { to, partition }) => {
                &&& to@ == user_bytes(*space, mem@, to_path_addr, to_path_len as int)
                &&& partition@ == user_bytes(*space, mem@, p_path_addr, p_path_len as int)
            },
            _ => false,
        },
{
    let to = match copy_in(space, mem, to_path_addr, to_path_len) {
        Ok(to) => to,
        Err(e) => {
            return Err(e);
        },
    };
    let partition = match copy_in(space, mem, p_path_addr, p_path_len) {
        Ok(partition) => partition,
        Err(e) => {
            return Err(e);
        },
    };
    Ok(SyscallStep::Fs(FsRequest::Mount { to, partition }))
}

/// Second half of `mount`: 1 when the partition was mounted, else 0.
pub fn mount_result(mounted: bool) -> (r: usize)
    ensures
        r == if mounted {
            1usize
        } else {
            0usize
        },
{
    close_result(mounted)
}

} // verus!
