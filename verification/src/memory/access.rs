//! The cross-space memory accessor: copies between a kernel buffer and a
//! range of virtual addresses of any address space, active or not.

use vstd::prelude::*;
use crate::memory::addr::VirtAddr;
use crate::memory::entry::{USER_ACCESSIBLE, WRITABLE};
use crate::memory::page_table::{GeneralPageTable, TranslateResult};
use crate::memory::phys::{
    byte_at, in_window, lemma_store_byte, store_byte, PhysMemory,
};
use crate::memory::walk::{translate_spec, Translation};

verus! {

/// A byte of the range cannot be reached: its page is not mapped, or is
/// mapped to a frame outside the memory, or is mapped without a flag that the
/// copy asks for.
#[derive(Clone, Copy, PartialEq, Eq, Structural, Debug)]
pub struct AccessFault;

/// The address `offset` bytes behind `start`.
pub open spec fn byte_address(start: u64, offset: int) -> u64 {
    (start + offset) as u64
}

/// The flags that a copy on behalf of the kernel itself asks of a mapping:
/// none.
pub const KERNEL_ACCESS: u64 = 0;

/// The flags that a mapping must have for a process to read through it.
pub const USER_READ: u64 = USER_ACCESSIBLE;

/// The flags that a mapping must have for a process to write through it.
pub const USER_WRITE: u64 = USER_ACCESSIBLE | WRITABLE;

/// The physical address of the byte that lies `offset` bytes behind the
/// virtual address `start` in the address space with the top table at `root`,
/// if that byte can be reached: its address is a virtual address, is mapped
/// under flags that hold all of `required`, and is mapped into the memory.
pub open spec fn byte_target(
    mem: Seq<u64>,
    root: u64,
    required: u64,
    start: u64,
    offset: int,
) -> Option<int> {
    if start + offset > u64::MAX {
        None
    } else {
        match translate_spec(mem, root, byte_address(start, offset)) {
            Translation::Mapped { address, flags } => if in_window(mem, address as int) && flags
                & required == required {
                Some(address as int)
            } else {
                None
            },
            Translation::Unmapped => None,
        }
    }
}

/// Whether each of the `len` bytes from `start` on can be reached.
pub open spec fn accessible(mem: Seq<u64>, root: u64, required: u64, start: u64, len: int) -> bool {
    forall|offset: int|
        0 <= offset < len ==> #[trigger] byte_target(mem, root, required, start, offset).is_some()
}

/// The physical addresses of the `len` bytes from `start` on.
pub open spec fn targets(mem: Seq<u64>, root: u64, required: u64, start: u64, len: int) -> Seq<int> {
    Seq::new(len as nat, |offset: int| byte_target(mem, root, required, start, offset).unwrap())
}

/// The bytes that the memory holds at the physical addresses `addrs`.
pub open spec fn load_bytes(mem: Seq<u64>, addrs: Seq<int>) -> Seq<u8> {
    Seq::new(addrs.len(), |i: int| byte_at(mem, addrs[i]))
}

/// The memory after `bytes` are stored at the physical addresses `addrs`, one
/// after the other, first to last.
pub open spec fn store_bytes(mem: Seq<u64>, addrs: Seq<int>, bytes: Seq<u8>) -> Seq<u64>
    decreases addrs.len(),
{
    if addrs.len() == 0 {
        mem
    } else {
        store_byte(
            store_bytes(mem, addrs.drop_last(), bytes.drop_last()),
            addrs.last(),
            bytes.last(),
        )
    }
}

impl GeneralPageTable {
    /// The physical address of the byte `offset` bytes behind `addr`, if it
    /// can be reached.
    fn locate(&self, mem: &PhysMemory, required: u64, addr: VirtAddr, offset: usize) -> (r: Option<
        u64,
    >)
        ensures
            r.is_some() == byte_target(
                mem@,
                self.physical_address@,
                required,
                addr@,
                offset as int,
            ).is_some(),
            r.is_some() ==> r.unwrap() == byte_target(
                mem@,
                self.physical_address@,
                required,
                addr@,
                offset as int,
            ).unwrap(),
    {
        let start = addr.as_u64();
        if offset as u64 > u64::MAX - start {
            return None;
        }
        let at = match VirtAddr::try_new(start + offset as u64) {
            Some(at) => at,
            None => {
                return None;
            },
        };
        match self.translate(mem, at) {
            TranslateResult::Mapped { address, flags } => {
                let target = address.as_u64();
                if target / 8 < mem.word_count() as u64 && flags.contains(required) {
                    Some(target)
                } else {
                    None
                }
            },
            TranslateResult::Unmapped => None,
        }
    }

    /// Copies the `len` bytes from the virtual address `addr` on into the
    /// front of `buf`, translating each address in this address space and
    /// asking of each mapping the flags `required`.
    ///
    /// Fails at the first byte that cannot be reached; what `buf` holds then
    /// is not specified.
    pub fn read_checked(
        &self,
        mem: &PhysMemory,
        required: u64,
        addr: VirtAddr,
        len: usize,
        buf: &mut [u8],
    ) -> (r: Result<(), AccessFault>)
        requires
            len <= old(buf)@.len(),
        ensures
            final(buf)@.len() == old(buf)@.len(),
            r.is_ok() <==> accessible(mem@, self.physical_address@, required, addr@, len as int),
            r.is_ok() ==> final(buf)@.subrange(0, len as int) == load_bytes(
                mem@,
                targets(mem@, self.physical_address@, required, addr@, len as int),
            ) && final(buf)@.subrange(len as int, old(buf)@.len() as int) == old(buf)@.subrange(
                len as int,
                old(buf)@.len() as int,
            ),
    {
        let ghost root = self.physical_address@;
        let ghost size = buf@.len();
        let mut index: usize = 0;
        while index < len
            invariant
                index <= len <= size,
                buf@.len() == size,
                size == old(buf)@.len(),
                root == self.physical_address@,
                accessible(mem@, root, required, addr@, index as int),
                forall|i: int|
                    0 <= i < index ==> #[trigger] buf@[i] == byte_at(
                        mem@,
                        byte_target(mem@, root, required, addr@, i).unwrap(),
                    ),
                forall|i: int| len <= i < size ==> #[trigger] buf@[i] == old(buf)@[i],
            decreases len - index,
        {
            let target = match self.locate(mem, required, addr, index) {
                Some(target) => target,
                None => {
                    return Err(AccessFault);
                },
            };
            let byte = mem.read_byte(target).unwrap();
            buf[index] = byte;
            index += 1;
        }
        proof {
            let got = buf@.subrange(0, len as int);
            let want = load_bytes(mem@, targets(mem@, root, required, addr@, len as int));
            assert(got =~= want);
            assert(buf@.subrange(len as int, size as int) =~= old(buf)@.subrange(
                len as int,
                size as int,
            ));
        }
        Ok(())
    }

    /// Copies `buf` to the virtual address `addr` and on, translating each
    /// address in this address space as the memory stands before the copy,
    /// and asking of each mapping the flags `required`.
    ///
    /// Fails when a byte of the range cannot be reached, and stores nothing
    /// then.
    pub fn write_checked(
        &self,
        mem: &mut PhysMemory,
        required: u64,
        buf: &[u8],
        addr: VirtAddr,
    ) -> (r: Result<(), AccessFault>)
        ensures
            r.is_ok() <==> accessible(
                old(mem)@,
                self.physical_address@,
                required,
                addr@,
                buf@.len() as int,
            ),
            r.is_err() ==> final(mem)@ == old(mem)@,
            r.is_ok() ==> final(mem)@ == store_bytes(
                old(mem)@,
                targets(old(mem)@, self.physical_address@, required, addr@, buf@.len() as int),
                buf@,
            ),
    {
        let ghost root = self.physical_address@;
        let ghost mem0 = mem@;
        let len = buf.len();
        let mut places: Vec<u64> = Vec::new();
        let mut index: usize = 0;
        while index < len
            invariant
                index <= len,
                len == buf@.len(),
                mem@ == mem0,
                root == self.physical_address@,
                places@.len() == index,
                accessible(mem0, root, required, addr@, index as int),
                forall|i: int|
                    0 <= i < index ==> #[trigger] places@[i] as int == byte_target(
                        mem0,
                        root,
                        required,
                        addr@,
                        i,
                    ).unwrap(),
            decreases len - index,
        {
            match self.locate(mem, required, addr, index) {
                Some(target) => {
                    places.push(target);
                },
                None => {
                    return Err(AccessFault);
                },
            }
            index += 1;
        }
        let ghost addrs = targets(mem0, root, required, addr@, len as int);
        let mut index: usize = 0;
        while index < len
            invariant
                index <= len,
                len == buf@.len(),
                places@.len() == len,
                mem@.len() == mem0.len(),
                addrs == targets(mem0, root, required, addr@, len as int),
                accessible(mem0, root, required, addr@, len as int),
                forall|i: int| 0 <= i < len ==> #[trigger] places@[i] as int == addrs[i],
                mem@ == store_bytes(
                    mem0,
                    addrs.subrange(0, index as int),
                    buf@.subrange(0, index as int),
                ),
            decreases len - index,
        {
            let ghost before = mem@;
            proof {
                assert(byte_target(mem0, root, required, addr@, index as int).is_some());
                assert(in_window(mem0, addrs[index as int]));
                lemma_store_byte(before, addrs[index as int], buf@[index as int]);
            }
            mem.write_byte(places[index], buf[index]);
            proof {
                let more = addrs.subrange(0, index + 1);
                let bytes = buf@.subrange(0, index + 1);
                assert(more.drop_last() =~= addrs.subrange(0, index as int));
                assert(bytes.drop_last() =~= buf@.subrange(0, index as int));
            }
            index += 1;
        }
        proof {
            assert(addrs.subrange(0, len as int) =~= addrs);
            assert(buf@.subrange(0, len as int) =~= buf@);
        }
        Ok(())
    }

    /// Copies the `len` bytes from the virtual address `addr` on into the
    /// front of `buf`, for the kernel itself: every mapped byte can be read.
    pub fn read(&self, mem: &PhysMemory, addr: VirtAddr, len: usize, buf: &mut [u8]) -> (r: Result<
        (),
        AccessFault,
    >)
        requires
            len <= old(buf)@.len(),
        ensures
            final(buf)@.len() == old(buf)@.len(),
            r.is_ok() <==> accessible(
                mem@,
                self.physical_address@,
                KERNEL_ACCESS,
                addr@,
                len as int,
            ),
            r.is_ok() ==> final(buf)@.subrange(0, len as int) == load_bytes(
                mem@,
                targets(mem@, self.physical_address@, KERNEL_ACCESS, addr@, len as int),
            ) && final(buf)@.subrange(len as int, old(buf)@.len() as int) == old(buf)@.subrange(
                len as int,
                old(buf)@.len() as int,
            ),
    {
        self.read_checked(mem, KERNEL_ACCESS, addr, len, buf)
    }

    /// Copies `buf` to the virtual address `addr` and on, for the kernel
    /// itself: every mapped byte can be written.
    pub fn write(&self, mem: &mut PhysMemory, buf: &[u8], addr: VirtAddr) -> (r: Result<
        (),
        AccessFault,
    >)
        ensures
            r.is_ok() <==> accessible(
                old(mem)@,
                self.physical_address@,
                KERNEL_ACCESS,
                addr@,
                buf@.len() as int,
            ),
            r.is_err() ==> final(mem)@ == old(mem)@,
            r.is_ok() ==> final(mem)@ == store_bytes(
                old(mem)@,
                targets(old(mem)@, self.physical_address@, KERNEL_ACCESS, addr@, buf@.len() as int),
                buf@,
            ),
    {
        self.write_checked(mem, KERNEL_ACCESS, buf, addr)
    }
}

} // verus!
