//! What holds of the operations on address spaces taken together.

use vstd::prelude::*;
use crate::memory::access::{
    accessible, byte_address, byte_target, load_bytes, store_bytes, targets,
};
use crate::memory::addr::{
    lemma_same_page, page_base, page_offset_bits, Page, PageTableLevel, PhysFrame,
};
use crate::memory::cloner::clone_post;
use crate::memory::entry::{
    entry_address, entry_flags, lemma_entry_of, lemma_entry_parts, PageTableFlags, PRESENT,
};
use crate::memory::frame_alloc::{grows, is_used};
use crate::memory::mapper::{
    map_post, only_touched, unmap_post, update_flags_post, FlagUpdateError, MapToError,
    MapperFlush, UnmapError,
};
use crate::memory::page_table::GeneralPageTable;
use crate::memory::teardown::{lemma_subtree_owned, released, subtree_frames};
use crate::memory::phys::{byte_at, in_window, lemma_store_byte, same_frame};
use crate::memory::walk::{
    agree_on, lemma_closed_agree, lemma_walk_agree, offset_mask, translate_spec, walk, Translation,
};

verus! {

/// An address space keeps its shape and its translations when memory changes
/// only in frames that are none of its tables and the allocator only hands
/// out frames.
pub proof fn lemma_bystander(
    other: GeneralPageTable,
    mem: Seq<u64>,
    alloc: Seq<bool>,
    mem2: Seq<u64>,
    alloc2: Seq<bool>,
    touched: Set<int>,
)
    requires
        other.wf(mem, alloc),
        only_touched(mem, mem2, touched),
        other.tables().dom().disjoint(touched),
        grows(alloc, alloc2),
    ensures
        other.wf(mem2, alloc2),
        forall|a: u64| #[trigger] other.translation(mem2, a) == other.translation(mem, a),
{
    assert(agree_on(mem, mem2, other.tables().dom()));
    lemma_closed_agree(mem, mem2, other.tables());
    assert forall|a: u64| #[trigger] other.translation(mem2, a) == other.translation(mem, a) by {
        lemma_walk_agree(mem, mem2, other.tables(), other.root(), a);
    }
}

/// After `page` was mapped to `frame` under `flags`
/// that hold present, every address of the page translates to the address of
/// the frame plus the offset of the address in the page, under the same
/// flags.
pub proof fn lemma_translate_after_map(
    pre: GeneralPageTable,
    mem: Seq<u64>,
    alloc: Seq<bool>,
    page: Page,
    frame: PhysFrame,
    flags: PageTableFlags,
    post: GeneralPageTable,
    mem2: Seq<u64>,
    alloc2: Seq<bool>,
    r: Result<MapperFlush, MapToError>,
    addr: u64,
)
    requires
        page.inv(),
        frame.inv(),
        flags.inv(),
        map_post(pre, mem, alloc, page, frame@, flags@, post, mem2, alloc2, r),
        r.is_ok(),
        flags.spec_contains(PRESENT),
        page.contains(addr),
    ensures
        post.translation(mem2, addr) == (Translation::Mapped {
            address: (frame@ + page_offset_bits(addr)) as u64,
            flags: flags@,
        }),
{
    lemma_entry_of(frame@, flags@);
    lemma_leaf_address(frame@, addr);
}

/// A frame address and the offset of an address in its page add up as the
/// translation through a level-one entry says.
pub proof fn lemma_leaf_address(frame: u64, addr: u64)
    requires
        page_base(frame) == frame,
    ensures
        (frame & !offset_mask(PageTableLevel::One)) + (addr & offset_mask(PageTableLevel::One))
            == frame + page_offset_bits(addr),
{
}

/// Unmapping a page that was mapped under flags that hold
/// present hands back the frame it was mapped to, and afterwards no address
/// of the page translates.
pub proof fn lemma_unmap_after_map(
    pre: GeneralPageTable,
    mem: Seq<u64>,
    alloc: Seq<bool>,
    page: Page,
    frame: PhysFrame,
    flags: PageTableFlags,
    post: GeneralPageTable,
    mem2: Seq<u64>,
    alloc2: Seq<bool>,
    r: Result<MapperFlush, MapToError>,
    mem3: Seq<u64>,
    u: Result<(PhysFrame, MapperFlush), UnmapError>,
)
    requires
        page.inv(),
        frame.inv(),
        flags.inv(),
        map_post(pre, mem, alloc, page, frame@, flags@, post, mem2, alloc2, r),
        r.is_ok(),
        flags.spec_contains(PRESENT),
        unmap_post(post, mem2, page, mem3, u),
    ensures
        u.is_ok(),
        u.unwrap().0@ == frame@,
        forall|addr: u64|
            page.contains(addr) ==> #[trigger] post.translation(mem3, addr)
                == Translation::Unmapped,
{
    lemma_entry_of(frame@, flags@);
}

/// A successful update of the flags of a page leaves
/// the frame address of its entry as it was, and leaves the translation of
/// every address outside the page as it was. An address of the page
/// translates to the same physical address as before, under the new flags,
/// when these hold present.
pub proof fn lemma_update_flags_isolation(
    space: GeneralPageTable,
    mem: Seq<u64>,
    page: Page,
    flags: PageTableFlags,
    mem2: Seq<u64>,
    r: Result<MapperFlush, FlagUpdateError>,
    addr: u64,
)
    requires
        page.inv(),
        flags.inv(),
        update_flags_post(space, mem, page, flags@, mem2, r),
        r.is_ok(),
    ensures
        entry_address(walk(mem2, space.root(), page@, PageTableLevel::Four).1) == entry_address(
            walk(mem, space.root(), page@, PageTableLevel::Four).1,
        ),
        entry_flags(walk(mem2, space.root(), page@, PageTableLevel::Four).1) == flags@,
        !page.contains(addr) ==> space.translation(mem2, addr) == space.translation(mem, addr),
        page.contains(addr) && flags.spec_contains(PRESENT) ==> space.translation(mem, addr)
            is Mapped && space.translation(mem2, addr) == (Translation::Mapped {
            address: space.translation(mem, addr)->address,
            flags: flags@,
        }),
{
    let e = walk(mem, space.root(), page@, PageTableLevel::Four).1;
    lemma_entry_parts(e);
    lemma_entry_of(entry_address(e), flags@);
    if page.contains(addr) {
        lemma_same_page(addr, page@);
        crate::memory::walk::lemma_walk_indices(
            mem,
            space.root(),
            PageTableLevel::Four,
            addr,
            page@,
        );
    }
}

/// Mapping a page in any address
/// space leaves every address space that shares no table with it well formed
/// and changes none of its translations. After a clone this holds of the
/// source when the clone is changed.
pub proof fn lemma_map_leaves_others(
    other: GeneralPageTable,
    pre: GeneralPageTable,
    mem: Seq<u64>,
    alloc: Seq<bool>,
    page: Page,
    frame: u64,
    flags: u64,
    post: GeneralPageTable,
    mem2: Seq<u64>,
    alloc2: Seq<bool>,
    r: Result<MapperFlush, MapToError>,
)
    requires
        other.wf(mem, alloc),
        other.disjoint(pre),
        map_post(pre, mem, alloc, page, frame, flags, post, mem2, alloc2, r),
    ensures
        other.wf(mem2, alloc2),
        other.disjoint(post),
        forall|a: u64| #[trigger] other.translation(mem2, a) == other.translation(mem, a),
{
    assert(other.tables().dom().disjoint(post.tables().dom())) by {
        assert forall|t: int| other.tables().dom().contains(t) implies !post.tables().dom().contains(
            t,
        ) by {
            assert(is_used(alloc, t));
            assert(!pre.tables().dom().contains(t));
        }
    }
    lemma_bystander(other, mem, alloc, mem2, alloc2, post.tables().dom());
}

/// After a clone, mapping a page in the clone
/// changes no translation of the source, and mapping a page in the source
/// changes no translation of the clone.
pub proof fn lemma_clone_independent(
    source: GeneralPageTable,
    mem: Seq<u64>,
    alloc: Seq<bool>,
    target: GeneralPageTable,
    mem1: Seq<u64>,
    alloc1: Seq<bool>,
    page: Page,
    frame: u64,
    flags: u64,
    mem2: Seq<u64>,
    alloc2: Seq<bool>,
    changed: GeneralPageTable,
    r: Result<MapperFlush, MapToError>,
)
    requires
        clone_post(source, mem, alloc, mem1, alloc1, Ok(target)),
    ensures
        map_post(target, mem1, alloc1, page, frame, flags, changed, mem2, alloc2, r) ==> (forall|
            a: u64,
        | #[trigger] source.translation(mem2, a) == source.translation(mem, a)),
        map_post(source, mem1, alloc1, page, frame, flags, changed, mem2, alloc2, r) ==> (forall|
            a: u64,
        | #[trigger] target.translation(mem2, a) == target.translation(mem1, a)),
{
    if map_post(target, mem1, alloc1, page, frame, flags, changed, mem2, alloc2, r) {
        assert(source.disjoint(target));
        lemma_map_leaves_others(
            source,
            target,
            mem1,
            alloc1,
            page,
            frame,
            flags,
            changed,
            mem2,
            alloc2,
            r,
        );
        assert forall|a: u64| #[trigger] source.translation(mem2, a) == source.translation(
            mem,
            a,
        ) by {
            assert(source.translation(mem2, a) == source.translation(mem1, a));
            assert(source.translation(mem1, a) == source.translation(mem, a));
        }
    }
    if map_post(source, mem1, alloc1, page, frame, flags, changed, mem2, alloc2, r) {
        lemma_map_leaves_others(
            target,
            source,
            mem1,
            alloc1,
            page,
            frame,
            flags,
            changed,
            mem2,
            alloc2,
            r,
        );
    }
}

/// A clone leaves alone every address space that was there before it: each
/// stays well formed, shares no table with the clone, and translates every
/// address as before.
pub proof fn lemma_clone_leaves_others(
    other: GeneralPageTable,
    source: GeneralPageTable,
    mem: Seq<u64>,
    alloc: Seq<bool>,
    target: GeneralPageTable,
    mem1: Seq<u64>,
    alloc1: Seq<bool>,
)
    requires
        other.wf(mem, alloc),
        clone_post(source, mem, alloc, mem1, alloc1, Ok(target)),
    ensures
        other.wf(mem1, alloc1),
        other.disjoint(target),
        forall|a: u64| #[trigger] other.translation(mem1, a) == other.translation(mem, a),
{
    assert(other.tables().dom().disjoint(target.tables().dom())) by {
        assert forall|t: int| other.tables().dom().contains(t) implies !target.tables().dom().contains(
            t,
        ) by {
            assert(is_used(alloc, t));
        }
    }
    lemma_bystander(other, mem, alloc, mem1, alloc1, target.tables().dom());
}

/// The end of one address space leaves alone every address space that shares
/// no table with it: its tables stay marked as used, so that it stays well
/// formed, and its translations are as before, the memory being as before.
pub proof fn lemma_destroy_leaves_others(
    other: GeneralPageTable,
    ended: GeneralPageTable,
    mem: Seq<u64>,
    alloc: Seq<bool>,
)
    requires
        other.wf(mem, alloc),
        ended.wf(mem, alloc),
        other.disjoint(ended),
    ensures
        other.wf(
            mem,
            released(alloc, subtree_frames(mem, ended.root(), PageTableLevel::Four, 512)),
        ),
{
    lemma_subtree_owned(mem, ended.tables(), ended.root(), 512);
    let after = released(alloc, subtree_frames(mem, ended.root(), PageTableLevel::Four, 512));
    assert forall|t: int| #[trigger] other.tables().dom().contains(t) implies is_used(after, t) by {
        assert(is_used(alloc, t));
        assert(!ended.tables().dom().contains(t));
    }
}

/// After a clone, every address translates in the clone
/// to the physical address, and under the flags, that it translates to in the
/// source.
pub proof fn lemma_clone_aliases(
    source: GeneralPageTable,
    mem: Seq<u64>,
    alloc: Seq<bool>,
    target: GeneralPageTable,
    mem1: Seq<u64>,
    alloc1: Seq<bool>,
    addr: u64,
)
    requires
        clone_post(source, mem, alloc, mem1, alloc1, Ok(target)),
    ensures
        target.translation(mem1, addr) == source.translation(mem, addr),
        target.translation(mem1, addr) == source.translation(mem1, addr),
{
}

/// Whether each of the physical addresses `addrs` lies in the memory.
pub open spec fn all_in_window(mem: Seq<u64>, addrs: Seq<int>) -> bool {
    forall|i: int| 0 <= i < addrs.len() ==> #[trigger] in_window(mem, addrs[i])
}

/// Storing bytes keeps the size of the memory and every word that holds none
/// of the addresses stored to.
pub proof fn lemma_store_bytes_frame(mem: Seq<u64>, addrs: Seq<int>, bytes: Seq<u8>)
    requires
        all_in_window(mem, addrs),
        bytes.len() == addrs.len(),
    ensures
        store_bytes(mem, addrs, bytes).len() == mem.len(),
        forall|w: int|
            0 <= w < mem.len() && (forall|i: int| 0 <= i < addrs.len() ==> addrs[i] / 8 != w)
                ==> #[trigger] store_bytes(mem, addrs, bytes)[w] == mem[w],
    decreases addrs.len(),
{
    if addrs.len() > 0 {
        let front = addrs.drop_last();
        let before = store_bytes(mem, front, bytes.drop_last());
        assert(all_in_window(mem, front)) by {
            assert forall|i: int| 0 <= i < front.len() implies #[trigger] in_window(
                mem,
                front[i],
            ) by {
                assert(in_window(mem, addrs[i]));
            }
        }
        lemma_store_bytes_frame(mem, front, bytes.drop_last());
        assert(in_window(mem, addrs[addrs.len() - 1]));
        lemma_store_byte(before, addrs.last(), bytes.last());
        assert forall|w: int|
            0 <= w < mem.len() && (forall|i: int|
                0 <= i < addrs.len() ==> addrs[i] / 8 != w) implies #[trigger] store_bytes(
            mem,
            addrs,
            bytes,
        )[w] == mem[w] by {
            assert(addrs[addrs.len() - 1] / 8 != w);
            assert forall|i: int| 0 <= i < front.len() implies front[i] / 8 != w by {
                assert(addrs[i] / 8 != w);
            }
            assert(before[w] == mem[w]);
        }
    }
}

/// Bytes stored at addresses of which no two are equal are the bytes that
/// the memory then holds at these addresses.
pub proof fn lemma_store_then_load(mem: Seq<u64>, addrs: Seq<int>, bytes: Seq<u8>)
    requires
        all_in_window(mem, addrs),
        bytes.len() == addrs.len(),
        addrs.no_duplicates(),
    ensures
        load_bytes(store_bytes(mem, addrs, bytes), addrs) == bytes,
    decreases addrs.len(),
{
    let after = store_bytes(mem, addrs, bytes);
    if addrs.len() > 0 {
        let front = addrs.drop_last();
        let before = store_bytes(mem, front, bytes.drop_last());
        assert(all_in_window(mem, front)) by {
            assert forall|i: int| 0 <= i < front.len() implies #[trigger] in_window(
                mem,
                front[i],
            ) by {
                assert(in_window(mem, addrs[i]));
            }
        }
        assert(front.no_duplicates()) by {
            assert forall|i: int, j: int|
                0 <= i < front.len() && 0 <= j < front.len() && i != j implies front[i]
                != front[j] by {
                assert(addrs[i] != addrs[j]);
            }
        }
        lemma_store_then_load(mem, front, bytes.drop_last());
        lemma_store_bytes_frame(mem, front, bytes.drop_last());
        assert(in_window(mem, addrs[addrs.len() - 1]));
        lemma_store_byte(before, addrs.last(), bytes.last());
        assert forall|i: int| 0 <= i < addrs.len() implies byte_at(after, addrs[i]) == bytes[i] by {
            if i < addrs.len() - 1 {
                assert(addrs[i] != addrs[addrs.len() - 1]);
                assert(in_window(mem, addrs[i]));
                assert(load_bytes(before, front)[i] == bytes.drop_last()[i]);
                assert(byte_at(before, front[i]) == bytes[i]);
            }
        }
    }
    assert(load_bytes(after, addrs) =~= bytes);
}

/// Writes are observed across address spaces: when bytes are written through
/// one address space to a range, and a second address space translates the
/// range as the first does, then reading the range through the second gives
/// the bytes written. This needs that the range is mapped to physical
/// addresses of which no two are equal, and to none in a table of the second
/// address space. After a clone, it holds of the source and the clone for
/// every range that is so mapped.
pub proof fn lemma_write_then_read(
    writer: GeneralPageTable,
    reader: GeneralPageTable,
    mem: Seq<u64>,
    required: u64,
    start: u64,
    bytes: Seq<u8>,
)
    requires
        reader.structured(mem),
        accessible(mem, writer.physical_address@, required, start, bytes.len() as int),
        targets(mem, writer.physical_address@, required, start, bytes.len() as int).no_duplicates(),
        forall|i: int|
            0 <= i < bytes.len() ==> !reader.tables().dom().contains(
                #[trigger] targets(
                    mem,
                    writer.physical_address@,
                    required,
                    start,
                    bytes.len() as int,
                )[i] / 4096,
            ),
        forall|a: u64| #[trigger] reader.translation(mem, a) == writer.translation(mem, a),
    ensures
        ({
            let addrs = targets(mem, writer.physical_address@, required, start, bytes.len() as int);
            let after = store_bytes(mem, addrs, bytes);
            &&& accessible(after, reader.physical_address@, required, start, bytes.len() as int)
            &&& load_bytes(
                after,
                targets(after, reader.physical_address@, required, start, bytes.len() as int),
            ) == bytes
        }),
{
    let len = bytes.len() as int;
    let addrs = targets(mem, writer.physical_address@, required, start, len);
    let after = store_bytes(mem, addrs, bytes);
    assert(all_in_window(mem, addrs)) by {
        assert forall|i: int| 0 <= i < addrs.len() implies #[trigger] in_window(mem, addrs[i]) by {
            assert(byte_target(mem, writer.physical_address@, required, start, i).is_some());
        }
    }
    lemma_store_bytes_frame(mem, addrs, bytes);
    assert(agree_on(mem, after, reader.tables().dom())) by {
        assert forall|t: int| reader.tables().dom().contains(t) implies #[trigger] same_frame(
            mem,
            after,
            t,
        ) by {
            crate::memory::phys::lemma_frame_words(mem, t);
            assert forall|k: int| 0 <= k < 512 implies #[trigger] crate::memory::phys::entry_at(
                mem,
                t,
                k,
            ) == crate::memory::phys::entry_at(after, t, k) by {
                let w = t * 512 + k;
                assert forall|i: int| 0 <= i < addrs.len() implies addrs[i] / 8 != w by {
                    assert(!reader.tables().dom().contains(addrs[i] / 4096));
                    if addrs[i] / 8 == w {
                        assert(addrs[i] / 4096 == t);
                    }
                }
            }
        }
    }
    assert forall|a: u64| #[trigger]
        reader.translation(after, a) == writer.translation(mem, a) by {
        lemma_walk_agree(mem, after, reader.tables(), reader.root(), a);
        assert(reader.translation(mem, a) == writer.translation(mem, a));
    }
    assert forall|offset: int| 0 <= offset < len implies #[trigger] byte_target(
        after,
        reader.physical_address@,
        required,
        start,
        offset,
    ) == byte_target(mem, writer.physical_address@, required, start, offset) by {
        assert(byte_target(mem, writer.physical_address@, required, start, offset).is_some());
        let a = byte_address(start, offset);
        assert(reader.translation(after, a) == writer.translation(mem, a));
    }
    assert(targets(after, reader.physical_address@, required, start, len) =~= addrs);
    lemma_store_then_load(mem, addrs, bytes);
}

/// Translations within one huge or ordinary page lie side by side.
pub proof fn lemma_same_page_offsets(e: u64, a: u64, b: u64)
    requires
        page_base(a) == page_base(b),
        a <= b,
    ensures
        forall|level: PageTableLevel|
            (entry_address(e) & !#[trigger] offset_mask(level)) + (a & offset_mask(level)) <= (
            entry_address(e) & !offset_mask(level)) + (b & offset_mask(level)),
{
    assert(a & !0xfffu64 == b & !0xfffu64 && a <= b ==> a & 0xfff <= b & 0xfff && a & 0x1f_ffff
        <= b & 0x1f_ffff && a & 0x3fff_ffff <= b & 0x3fff_ffff && a & 0x7f_ffff_ffff <= b
        & 0x7f_ffff_ffff) by (bit_vector);
}

/// All addresses of a page are
/// mapped or none is, and a range that lies in one page can be reached exactly
/// when its last byte can, which is when the page is mapped and the byte lies
/// in the memory.
pub proof fn lemma_one_page_access(mem: Seq<u64>, root: u64, required: u64, start: u64, len: int)
    requires
        0 < len,
        start + len - 1 <= u64::MAX,
        page_base(start) == page_base((start + len - 1) as u64),
    ensures
        forall|offset: int|
            0 <= offset < len ==> (translate_spec(mem, root, #[trigger] byte_address(start, offset))
                is Mapped <==> translate_spec(mem, root, start) is Mapped),
        accessible(mem, root, required, start, len) <==> byte_target(
            mem,
            root,
            required,
            start,
            len - 1,
        ).is_some(),
{
    let last = (start + len - 1) as u64;
    assert forall|offset: int| 0 <= offset < len implies page_base(
        #[trigger] byte_address(start, offset),
    ) == page_base(start) by {
        let a = byte_address(start, offset);
        assert(start & !0xfffu64 == last & !0xfffu64 && start <= a && a <= last ==> a & !0xfffu64
            == start & !0xfffu64) by (bit_vector);
    }
    assert forall|offset: int| 0 <= offset < len implies (translate_spec(
        mem,
        root,
        #[trigger] byte_address(start, offset),
    ) is Mapped <==> translate_spec(mem, root, start) is Mapped) by {
        let a = byte_address(start, offset);
        lemma_same_page(a, start);
        crate::memory::walk::lemma_walk_indices(
            mem,
            root as int / 4096,
            PageTableLevel::Four,
            a,
            start,
        );
    }
    if byte_target(mem, root, required, start, len - 1).is_some() {
        assert forall|offset: int| 0 <= offset < len implies #[trigger] byte_target(
            mem,
            root,
            required,
            start,
            offset,
        ).is_some() by {
            let a = byte_address(start, offset);
            assert(page_base(a) == page_base(start));
            lemma_same_page(a, last);
            crate::memory::walk::lemma_walk_indices(
                mem,
                root as int / 4096,
                PageTableLevel::Four,
                a,
                last,
            );
            let e = walk(mem, root as int / 4096, last, PageTableLevel::Four).1;
            lemma_same_page_offsets(e, a, last);
            crate::memory::page_table::lemma_offset_sum(e, a);
            crate::memory::page_table::lemma_offset_sum(e, last);
        }
    }
}

/// A range with a byte that cannot
/// be reached, such as one on an unmapped second page, cannot be reached as
/// a whole, so that a copy over it fails.
pub proof fn lemma_fault_in_range(
    mem: Seq<u64>,
    root: u64,
    required: u64,
    start: u64,
    len: int,
    offset: int,
)
    requires
        0 <= offset < len,
        byte_target(mem, root, required, start, offset).is_none(),
    ensures
        !accessible(mem, root, required, start, len),
{
    if accessible(mem, root, required, start, len) {
        assert(byte_target(mem, root, required, start, offset).is_some());
    }
}

} // verus!
