//! The address-space cloner: a new tree that mirrors an existing one, with
//! tables of its own and the same leaves.

use vstd::prelude::*;
use crate::memory::addr::{index_bits, lemma_aligned_number, lemma_index_bits_bound, PageTableLevel};
use crate::memory::entry::{entry_flags, lemma_entry_of, lemma_entry_parts, PageTableEntry};
use crate::memory::frame_alloc::{
    free_frames, grows, is_used, lowest_free, BitmapFrameAllocator,
};
use crate::memory::mapper::{only_touched, taken_fresh, MapToError};
use crate::memory::page_table::{next_table, GeneralPageTable};
use crate::memory::phys::{entry_at, frame_count, lemma_frame_words, same_frame, PhysMemory};
use crate::memory::walk::{
    agree_on, child_frame, closed_under_links, descends, is_link, lemma_closed_agree,
    lemma_walk_agree,
    level_at, walk, zeroed,
};

verus! {

/// How many tables the tree below `table`, a table of `level`, is made of,
/// when of the entries of `table` only the first `upto` are followed.
pub open spec fn subtree_size(mem: Seq<u64>, table: int, level: PageTableLevel, upto: nat) -> nat
    decreases level.spec_number(), upto,
{
    if upto == 0 {
        1
    } else {
        let e = entry_at(mem, table, upto - 1);
        subtree_size(mem, table, level, (upto - 1) as nat) + if descends(mem, e, level) {
            subtree_size(mem, child_frame(e), level.spec_lower(), 512)
        } else {
            0
        }
    }
}

/// The largest number of tables that a tree below a table of `level` can have.
pub open spec fn subtree_cap(level: PageTableLevel) -> nat {
    match level {
        PageTableLevel::One => 1,
        PageTableLevel::Two => 513,
        PageTableLevel::Three => 262_657,
        PageTableLevel::Four => 134_480_385,
    }
}

/// A tree has at least its top table and no more tables than its height
/// allows.
pub proof fn lemma_subtree_size_bound(mem: Seq<u64>, table: int, level: PageTableLevel, upto: nat)
    requires
        upto <= 512,
    ensures
        1 <= subtree_size(mem, table, level, upto),
        level == PageTableLevel::One ==> subtree_size(mem, table, level, upto) == 1,
        level != PageTableLevel::One ==> subtree_size(mem, table, level, upto) <= 1 + upto
            * subtree_cap(level.spec_lower()),
        subtree_size(mem, table, level, upto) <= subtree_cap(level),
    decreases level.spec_number(), upto,
{
    let cap = subtree_cap(level.spec_lower());
    if upto > 0 {
        let e = entry_at(mem, table, upto - 1);
        lemma_subtree_size_bound(mem, table, level, (upto - 1) as nat);
        if descends(mem, e, level) {
            lemma_subtree_size_bound(mem, child_frame(e), level.spec_lower(), 512);
        }
        assert((upto - 1) * cap + cap == upto * cap) by (nonlinear_arith);
    }
    assert(upto * cap <= 512 * cap) by (nonlinear_arith)
        requires
            upto <= 512,
    ;
}

/// Following more entries finds no fewer tables.
pub proof fn lemma_subtree_size_grows(
    mem: Seq<u64>,
    table: int,
    level: PageTableLevel,
    upto: nat,
    more: nat,
)
    requires
        upto <= more,
    ensures
        subtree_size(mem, table, level, upto) <= subtree_size(mem, table, level, more),
    decreases more,
{
    if upto < more {
        lemma_subtree_size_grows(mem, table, level, upto, (more - 1) as nat);
    }
}

/// Two memories that agree on the frames of a complete tree give its parts the
/// same sizes.
pub proof fn lemma_subtree_size_agree(
    a: Seq<u64>,
    b: Seq<u64>,
    tables: Map<int, Seq<int>>,
    table: int,
    upto: nat,
)
    requires
        closed_under_links(a, tables),
        agree_on(a, b, tables.dom()),
        tables.dom().contains(table),
        upto <= 512,
    ensures
        subtree_size(b, table, level_at(tables[table].len()), upto) == subtree_size(
            a,
            table,
            level_at(tables[table].len()),
            upto,
        ),
    decreases 4 - tables[table].len(), upto,
{
    if upto > 0 {
        let level = level_at(tables[table].len());
        assert(same_frame(a, b, table));
        let e = entry_at(a, table, upto - 1);
        assert(entry_at(b, table, upto - 1) == e);
        lemma_subtree_size_agree(a, b, tables, table, (upto - 1) as nat);
        if descends(a, e, level) {
            assert(tables[child_frame(e)] == tables[table].push(upto - 1));
            lemma_subtree_size_agree(a, b, tables, child_frame(e), 512);
        }
    }
}

/// Counts the tables of the tree below `table`, a table of `level`.
pub fn count_tables(mem: &PhysMemory, table: usize, level: PageTableLevel) -> (count: usize)
    requires
        table < frame_count(mem@),
    ensures
        count == subtree_size(mem@, table as int, level, 512),
    decreases level.spec_number(),
{
    let mut count: usize = 1;
    let mut index: usize = 0;
    while index < 512
        invariant
            index <= 512,
            table < frame_count(mem@),
            count == subtree_size(mem@, table as int, level, index as nat),
        decreases 512 - index,
    {
        let entry = mem.read_entry(table, index);
        proof {
            lemma_subtree_size_bound(mem@, table as int, level, (index + 1) as nat);
        }
        match next_table(mem, entry, level) {
            Some(child) => {
                let below = count_tables(mem, child, level.next_lower_level().unwrap());
                count = count + below;
            },
            None => {},
        }
        index += 1;
    }
    count
}

/// Whether the table `target` mirrors the table `source`, both of `level`:
/// each of its entries is the copy of the source's entry in the same place.
/// An entry that ends the walk is copied as it is, address and flags. A link
/// is copied with its flags, to a table that mirrors the one below the source
/// entry.
pub open spec fn mirrors(mem: Seq<u64>, source: int, target: int, level: PageTableLevel) -> bool
    decreases level.spec_number(),
{
    forall|slot: int|
        #![trigger entry_at(mem, target, slot)]
        0 <= slot < 512 ==> if descends(mem, entry_at(mem, source, slot), level) {
            &&& descends(mem, entry_at(mem, target, slot), level)
            &&& entry_flags(entry_at(mem, target, slot)) == entry_flags(
                entry_at(mem, source, slot),
            )
            &&& mirrors(
                mem,
                child_frame(entry_at(mem, source, slot)),
                child_frame(entry_at(mem, target, slot)),
                level.spec_lower(),
            )
        } else {
            entry_at(mem, target, slot) == entry_at(mem, source, slot)
        }
}

/// Whether entry `slot` of the table `target` is the copy of entry `slot` of
/// the table `source`, both tables of `level`.
pub open spec fn slot_mirrors(
    mem: Seq<u64>,
    source: int,
    target: int,
    level: PageTableLevel,
    slot: int,
) -> bool {
    let es = entry_at(mem, source, slot);
    let et = entry_at(mem, target, slot);
    if descends(mem, es, level) {
        &&& descends(mem, et, level)
        &&& entry_flags(et) == entry_flags(es)
        &&& mirrors(mem, child_frame(es), child_frame(et), level.spec_lower())
    } else {
        et == es
    }
}

/// A table mirrors another exactly when each of its entries is the copy of
/// the other's.
pub proof fn lemma_mirrors_slots(mem: Seq<u64>, source: int, target: int, level: PageTableLevel)
    ensures
        mirrors(mem, source, target, level) <==> forall|slot: int|
            0 <= slot < 512 ==> #[trigger] slot_mirrors(mem, source, target, level, slot),
{
    if mirrors(mem, source, target, level) {
        assert forall|slot: int| 0 <= slot < 512 implies #[trigger] slot_mirrors(
            mem,
            source,
            target,
            level,
            slot,
        ) by {
            assert(0 <= slot < 512 ==> entry_at(mem, target, slot) == entry_at(mem, target, slot));
        }
    }
    if forall|slot: int| 0 <= slot < 512 ==> #[trigger] slot_mirrors(mem, source, target, level, slot) {
        assert forall|slot: int|
            #![trigger entry_at(mem, target, slot)]
            0 <= slot < 512 implies if descends(mem, entry_at(mem, source, slot), level) {
            &&& descends(mem, entry_at(mem, target, slot), level)
            &&& entry_flags(entry_at(mem, target, slot)) == entry_flags(
                entry_at(mem, source, slot),
            )
            &&& mirrors(
                mem,
                child_frame(entry_at(mem, source, slot)),
                child_frame(entry_at(mem, target, slot)),
                level.spec_lower(),
            )
        } else {
            entry_at(mem, target, slot) == entry_at(mem, source, slot)
        } by {
            assert(slot_mirrors(mem, source, target, level, slot));
        }
    }
}

/// Walks from a table and from a table that mirrors it end at equal entries.
pub proof fn lemma_mirrors_walk(
    mem: Seq<u64>,
    source: int,
    target: int,
    level: PageTableLevel,
    addr: u64,
)
    requires
        mirrors(mem, source, target, level),
    ensures
        walk(mem, target, addr, level) == walk(mem, source, addr, level),
    decreases level.spec_number(),
{
    let i = index_bits(addr, level) as int;
    lemma_index_bits_bound(addr);
    lemma_mirrors_slots(mem, source, target, level);
    assert(slot_mirrors(mem, source, target, level, i));
    let es = entry_at(mem, source, i);
    if descends(mem, es, level) {
        lemma_mirrors_walk(
            mem,
            child_frame(es),
            child_frame(entry_at(mem, target, i)),
            level.spec_lower(),
            addr,
        );
    }
}

/// A table that mirrors another in one memory does so in every memory that
/// agrees with it on the frames of both trees.
pub proof fn lemma_mirrors_agree(
    a: Seq<u64>,
    b: Seq<u64>,
    from: Map<int, Seq<int>>,
    to: Map<int, Seq<int>>,
    source: int,
    target: int,
)
    requires
        closed_under_links(a, from),
        closed_under_links(a, to),
        agree_on(a, b, from.dom()),
        agree_on(a, b, to.dom()),
        from.dom().contains(source),
        to.dom().contains(target),
        from[source].len() == to[target].len(),
        mirrors(a, source, target, level_at(from[source].len())),
    ensures
        mirrors(b, source, target, level_at(from[source].len())),
    decreases 4 - from[source].len(),
{
    let level = level_at(from[source].len());
    lemma_mirrors_slots(a, source, target, level);
    lemma_mirrors_slots(b, source, target, level);
    assert forall|slot: int| 0 <= slot < 512 implies #[trigger] slot_mirrors(
        b,
        source,
        target,
        level,
        slot,
    ) by {
        assert(slot_mirrors(a, source, target, level, slot));
        assert(same_frame(a, b, source));
        assert(same_frame(a, b, target));
        let es = entry_at(a, source, slot);
        let et = entry_at(a, target, slot);
        assert(entry_at(b, source, slot) == es);
        assert(entry_at(b, target, slot) == et);
        if descends(a, es, level) {
            assert(from[child_frame(es)] == from[source].push(slot));
            assert(to[child_frame(et)] == to[target].push(slot));
            lemma_mirrors_agree(a, b, from, to, child_frame(es), child_frame(et));
        }
    }
}

/// Two complete trees without a common frame are complete together.
pub proof fn lemma_closed_union(mem: Seq<u64>, one: Map<int, Seq<int>>, other: Map<int, Seq<int>>)
    requires
        closed_under_links(mem, one),
        closed_under_links(mem, other),
        one.dom().disjoint(other.dom()),
    ensures
        closed_under_links(mem, one.union_prefer_right(other)),
{
    let both = one.union_prefer_right(other);
    assert forall|t: int, i: int|
        both.dom().contains(t) && 0 <= i < 512 && is_link(#[trigger] entry_at(mem, t, i), level_at(both[t].len())) implies both.dom().contains(child_frame(entry_at(mem, t, i))) && both[child_frame(
        entry_at(mem, t, i),
    )] == both[t].push(i) by {
        let child = child_frame(entry_at(mem, t, i));
        if other.dom().contains(t) {
            assert(other.dom().contains(child));
        } else {
            assert(one.dom().contains(child));
            assert(!other.dom().contains(child));
        }
    }
}

/// A complete tree whose top table has the shortest path stays complete when
/// the top table is left out.
pub proof fn lemma_closed_below(mem: Seq<u64>, tables: Map<int, Seq<int>>, top: int)
    requires
        closed_under_links(mem, tables),
        tables.dom().contains(top),
        forall|t: int| #[trigger]
            tables.dom().contains(t) && t != top ==> tables[t].len() > tables[top].len(),
    ensures
        closed_under_links(mem, tables.remove(top)),
{
    let rest = tables.remove(top);
    assert forall|t: int, i: int|
        rest.dom().contains(t) && 0 <= i < 512 && is_link(#[trigger] entry_at(mem, t, i), level_at(rest[t].len())) implies rest.dom().contains(child_frame(entry_at(mem, t, i))) && rest[child_frame(
        entry_at(mem, t, i),
    )] == rest[t].push(i) by {
        let child = child_frame(entry_at(mem, t, i));
        assert(tables.dom().contains(t));
        assert(tables[child] == tables[t].push(i));
    }
}

/// Replacing one entry of a table of a complete tree keeps the tree complete
/// when the new entry names no table or names a table of the tree one index
/// further down.
pub proof fn lemma_closed_update(
    mem: Seq<u64>,
    tables: Map<int, Seq<int>>,
    target: int,
    slot: int,
    value: u64,
)
    requires
        closed_under_links(mem, tables),
        tables.dom().contains(target),
        0 <= slot < 512,
        is_link(value, level_at(tables[target].len())) ==> tables.dom().contains(
            child_frame(value),
        ) && tables[child_frame(value)] == tables[target].push(slot),
    ensures
        closed_under_links(mem.update(target * 512 + slot, value), tables),
{
    let after = mem.update(target * 512 + slot, value);
    lemma_frame_words(mem, target);
    assert forall|t: int, i: int|
        tables.dom().contains(t) && 0 <= i < 512 && is_link(#[trigger] entry_at(after, t, i), level_at(tables[t].len())) implies tables.dom().contains(child_frame(entry_at(after, t, i))) && tables[child_frame(
        entry_at(after, t, i),
    )] == tables[t].push(i) by {
        lemma_frame_words(mem, t);
        if t == target && i == slot {
        } else {
            assert(entry_at(after, t, i) == entry_at(mem, t, i));
        }
    }
}

/// The copies made so far in a table stay copies when memory changes outside
/// the source tree and outside the tables below the target, and the copied
/// entries of the target stay as they are.
pub proof fn lemma_slots_kept(
    a: Seq<u64>,
    b: Seq<u64>,
    from: Map<int, Seq<int>>,
    to: Map<int, Seq<int>>,
    source: int,
    target: int,
    upto: int,
)
    requires
        closed_under_links(a, from),
        closed_under_links(a, to),
        agree_on(a, b, from.dom()),
        agree_on(a, b, to.remove(target).dom()),
        from.dom().contains(source),
        to.dom().contains(target),
        from[source].len() == to[target].len(),
        forall|t: int| #[trigger] to.dom().contains(t) && t != target ==> to[t].len() > to[target].len(),
        0 <= upto <= 512,
        forall|j: int|
            0 <= j < upto ==> #[trigger] slot_mirrors(
                a,
                source,
                target,
                level_at(from[source].len()),
                j,
            ),
        forall|j: int| 0 <= j < upto ==> #[trigger] entry_at(b, target, j) == entry_at(a, target, j),
    ensures
        forall|j: int|
            0 <= j < upto ==> #[trigger] slot_mirrors(
                b,
                source,
                target,
                level_at(from[source].len()),
                j,
            ),
{
    let level = level_at(from[source].len());
    let below = to.remove(target);
    lemma_closed_below(a, to, target);
    assert forall|j: int| 0 <= j < upto implies #[trigger] slot_mirrors(
        b,
        source,
        target,
        level,
        j,
    ) by {
        assert(slot_mirrors(a, source, target, level, j));
        assert(same_frame(a, b, source));
        let es = entry_at(a, source, j);
        let et = entry_at(a, target, j);
        assert(entry_at(b, source, j) == es);
        assert(entry_at(b, target, j) == et);
        if descends(a, es, level) {
            assert(from[child_frame(es)] == from[source].push(j));
            assert(to[child_frame(et)] == to[target].push(j));
            assert(below.dom().contains(child_frame(et)));
            lemma_mirrors_agree(a, b, from, below, child_frame(es), child_frame(et));
        }
    }
}

/// Copies the table `source` into the empty table `target`, both of `level`:
/// entries that end the walk as they are, links as links to new tables, each
/// taken from the allocator and filled in the same way.
fn clone_table(
    mem: &mut PhysMemory,
    frame_allocator: &mut BitmapFrameAllocator,
    source: usize,
    target: usize,
    level: PageTableLevel,
    Ghost(from): Ghost<Map<int, Seq<int>>>,
) -> (made: Ghost<Map<int, Seq<int>>>)
    requires
        closed_under_links(old(mem)@, from),
        from.dom().contains(source as int),
        level == level_at(from[source as int].len()),
        forall|t: int| #[trigger] from.dom().contains(t) ==> is_used(old(frame_allocator)@, t),
        old(frame_allocator)@.len() <= frame_count(old(mem)@),
        is_used(old(frame_allocator)@, target as int),
        !from.dom().contains(target as int),
        zeroed(old(mem)@, target as int),
        free_frames(old(frame_allocator)@) >= subtree_size(old(mem)@, source as int, level, 512)
            - 1,
    ensures
        made@.dom().contains(target as int),
        made@[target as int] == from[source as int],
        forall|t: int| #[trigger]
            made@.dom().contains(t) && t != target ==> !is_used(old(frame_allocator)@, t)
                && made@[t].len() > made@[target as int].len(),
        forall|t: int| #[trigger] made@.dom().contains(t) ==> is_used(final(frame_allocator)@, t),
        closed_under_links(final(mem)@, made@),
        only_touched(old(mem)@, final(mem)@, made@.dom()),
        grows(old(frame_allocator)@, final(frame_allocator)@),
        forall|f: int|
            0 <= f < final(frame_allocator)@.len() && #[trigger] final(frame_allocator)@[f] ==> old(frame_allocator)@[f] || made@.dom().contains(f),
        free_frames(final(frame_allocator)@) + subtree_size(old(mem)@, source as int, level, 512)
            - 1 == free_frames(old(frame_allocator)@),
        mirrors(final(mem)@, source as int, target as int, level),
    decreases level.spec_number(),
{
    let ghost mem0 = mem@;
    let ghost alloc0 = frame_allocator@;
    let ghost mut made: Map<int, Seq<int>> = Map::empty().insert(
        target as int,
        from[source as int],
    );
    proof {
        lemma_entry_parts(0);
        assert(closed_under_links(mem0, made)) by {
            assert forall|t: int, i: int|
                made.dom().contains(t) && 0 <= i < 512 && is_link(#[trigger] entry_at(mem0, t, i), level_at(made[t].len())) implies made.dom().contains(child_frame(entry_at(mem0, t, i))) && made[child_frame(
                entry_at(mem0, t, i),
            )] == made[t].push(i) by {
                assert(entry_at(mem0, target as int, i) == 0);
            }
        }
    }
    let mut index: usize = 0;
    while index < 512
        invariant
            index <= 512,
            mem0 == old(mem)@,
            alloc0 == old(frame_allocator)@,
            closed_under_links(mem0, from),
            from.dom().contains(source as int),
            level == level_at(from[source as int].len()),
            forall|t: int| #[trigger] from.dom().contains(t) ==> is_used(alloc0, t),
            alloc0.len() <= frame_count(mem0),
            is_used(alloc0, target as int),
            !from.dom().contains(target as int),
            free_frames(alloc0) >= subtree_size(mem0, source as int, level, 512) - 1,
            agree_on(mem0, mem@, from.dom()),
            closed_under_links(mem@, from),
            made.dom().contains(target as int),
            made[target as int] == from[source as int],
            forall|t: int| #[trigger]
                made.dom().contains(t) && t != target ==> !is_used(alloc0, t) && made[t].len()
                    > made[target as int].len(),
            forall|t: int| #[trigger] made.dom().contains(t) ==> is_used(frame_allocator@, t),
            closed_under_links(mem@, made),
            only_touched(mem0, mem@, made.dom()),
            grows(alloc0, frame_allocator@),
            forall|f: int|
                0 <= f < frame_allocator@.len() && #[trigger] frame_allocator@[f] ==> alloc0[f]
                    || made.dom().contains(f),
            free_frames(frame_allocator@) + subtree_size(mem0, source as int, level, index as nat)
                - 1 == free_frames(alloc0),
            forall|j: int|
                0 <= j < index ==> #[trigger] slot_mirrors(mem@, source as int, target as int, level, j),
            forall|j: int| index <= j < 512 ==> #[trigger] entry_at(mem@, target as int, j) == 0,
        decreases 512 - index,
    {
        let ghost mem_a = mem@;
        let ghost alloc_a = frame_allocator@;
        let ghost made_a = made;
        let es = mem.read_entry(source, index);
        proof {
            assert(same_frame(mem0, mem_a, source as int));
            assert(entry_at(mem0, source as int, index as int) == es@);
            lemma_frame_words(mem_a, target as int);
            lemma_frame_words(mem_a, source as int);
            lemma_subtree_size_grows(mem0, source as int, level, (index + 1) as nat, 512);
        }
        match next_table(mem, es, level) {
            None => {
                mem.write_entry(target, index, es);
                proof {
                    let mem_d = mem@;
                    assert(agree_on(mem_a, mem_d, from.dom())) by {
                        assert forall|t: int| from.dom().contains(t) implies #[trigger] same_frame(
                            mem_a,
                            mem_d,
                            t,
                        ) by {
                            lemma_frame_words(mem_a, t);
                        }
                    }
                    assert(agree_on(mem_a, mem_d, made_a.remove(target as int).dom())) by {
                        assert forall|t: int|
                            made_a.remove(target as int).dom().contains(
                                t,
                            ) implies #[trigger] same_frame(mem_a, mem_d, t) by {
                            lemma_frame_words(mem_a, t);
                        }
                    }
                    lemma_closed_agree(mem_a, mem_d, from);
                    lemma_closed_update(mem_a, made_a, target as int, index as int, es@);
                    lemma_slots_kept(
                        mem_a,
                        mem_d,
                        from,
                        made_a,
                        source as int,
                        target as int,
                        index as int,
                    );
                    assert(entry_at(mem_d, source as int, index as int) == es@);
                    assert(slot_mirrors(mem_d, source as int, target as int, level, index as int));
                    assert forall|j: int| index + 1 <= j < 512 implies #[trigger] entry_at(
                        mem_d,
                        target as int,
                        j,
                    ) == 0 by {
                        assert(entry_at(mem_a, target as int, j) == 0);
                    }
                    assert(agree_on(mem0, mem_d, from.dom())) by {
                        assert forall|t: int| from.dom().contains(t) implies #[trigger] same_frame(
                            mem0,
                            mem_d,
                            t,
                        ) by {
                            assert(same_frame(mem0, mem_a, t));
                            assert(same_frame(mem_a, mem_d, t));
                        }
                    }
                    assert(only_touched(mem0, mem_d, made.dom())) by {
                        assert forall|f: int|
                            0 <= f < frame_count(mem0) && !made.dom().contains(
                                f,
                            ) implies #[trigger] same_frame(mem0, mem_d, f) by {
                            assert(same_frame(mem0, mem_a, f));
                            lemma_frame_words(mem_a, f);
                            assert forall|i: int| 0 <= i < 512 implies #[trigger] entry_at(mem0, f, i)
                                == entry_at(mem_d, f, i) by {
                                assert(entry_at(mem0, f, i) == entry_at(mem_a, f, i));
                            }
                        }
                    }
                }
            },
            Some(below) => {
                let lower = level.next_lower_level().unwrap();
                proof {
                    lemma_subtree_size_bound(mem0, below as int, lower, 512);
                    assert(from[below as int] == from[source as int].push(index as int));
                }
                let next = match frame_allocator.allocate_frame() {
                    Some(next) => next,
                    None => {
                        proof {
                            assert(false);
                        }
                        return Ghost(made);
                    },
                };
                let fresh = next.number() as usize;
                mem.zero_frame(fresh);
                let ghost mem_b = mem@;
                proof {
                    lemma_frame_words(mem_a, fresh as int);
                    assert(!made_a.dom().contains(fresh as int));
                    assert(!from.dom().contains(fresh as int));
                    assert(agree_on(mem_a, mem_b, from.dom())) by {
                        assert forall|t: int| from.dom().contains(t) implies #[trigger] same_frame(
                            mem_a,
                            mem_b,
                            t,
                        ) by {
                            lemma_frame_words(mem_a, t);
                        }
                    }
                    assert(agree_on(mem_a, mem_b, made_a.dom())) by {
                        assert forall|t: int| made_a.dom().contains(t) implies #[trigger] same_frame(
                            mem_a,
                            mem_b,
                            t,
                        ) by {
                            lemma_frame_words(mem_a, t);
                        }
                    }
                    lemma_closed_agree(mem_a, mem_b, from);
                    lemma_closed_agree(mem_a, mem_b, made_a);
                    assert(agree_on(mem0, mem_b, from.dom())) by {
                        assert forall|t: int| from.dom().contains(t) implies #[trigger] same_frame(
                            mem0,
                            mem_b,
                            t,
                        ) by {
                            assert(same_frame(mem0, mem_a, t));
                            assert(same_frame(mem_a, mem_b, t));
                        }
                    }
                    lemma_subtree_size_agree(mem0, mem_b, from, below as int, 512);
                    assert(zeroed(mem_b, fresh as int));
                }
                let sub = clone_table(mem, frame_allocator, below, fresh, lower, Ghost(from));
                let ghost mem_c = mem@;
                let mut et = PageTableEntry::new();
                et.set_addr(next.start_address(), es.flags());
                proof {
                    use_type_invariant(&next);
                    lemma_entry_parts(es@);
                    lemma_entry_of(next@, entry_flags(es@));
                    lemma_aligned_number(next@);
                    assert(made_a.dom().disjoint(sub@.dom())) by {
                        assert forall|t: int| made_a.dom().contains(t) implies !sub@.dom().contains(
                            t,
                        ) by {
                            assert(is_used(alloc_a, t));
                        }
                    }
                    assert(agree_on(mem_b, mem_c, from.dom())) by {
                        assert forall|t: int| from.dom().contains(t) implies #[trigger] same_frame(
                            mem_b,
                            mem_c,
                            t,
                        ) by {
                            assert(is_used(alloc0, t));
                            assert(!sub@.dom().contains(t));
                        }
                    }
                    assert(agree_on(mem_b, mem_c, made_a.dom())) by {
                        assert forall|t: int| made_a.dom().contains(t) implies #[trigger] same_frame(
                            mem_b,
                            mem_c,
                            t,
                        ) by {
                            assert(!sub@.dom().contains(t));
                        }
                    }
                    lemma_closed_agree(mem_b, mem_c, from);
                    lemma_closed_agree(mem_b, mem_c, made_a);
                    lemma_closed_union(mem_c, made_a, sub@);
                    made = made_a.union_prefer_right(sub@);
                    assert(made[fresh as int] == made[target as int].push(index as int));
                    assert(descends(mem_c, et@, level));
                    lemma_closed_update(mem_c, made, target as int, index as int, et@);
                    lemma_frame_words(mem_c, target as int);
                }
                mem.write_entry(target, index, et);
                proof {
                    let mem_d = mem@;
                    assert(agree_on(mem_c, mem_d, from.dom())) by {
                        assert forall|t: int| from.dom().contains(t) implies #[trigger] same_frame(
                            mem_c,
                            mem_d,
                            t,
                        ) by {
                            lemma_frame_words(mem_c, t);
                        }
                    }
                    assert(agree_on(mem_c, mem_d, sub@.dom())) by {
                        assert forall|t: int| sub@.dom().contains(t) implies #[trigger] same_frame(
                            mem_c,
                            mem_d,
                            t,
                        ) by {
                            lemma_frame_words(mem_c, t);
                        }
                    }
                    lemma_closed_agree(mem_c, mem_d, from);
                    lemma_mirrors_agree(mem_c, mem_d, from, sub@, below as int, fresh as int);
                    assert(agree_on(mem_a, mem_d, from.dom())) by {
                        assert forall|t: int| from.dom().contains(t) implies #[trigger] same_frame(
                            mem_a,
                            mem_d,
                            t,
                        ) by {
                            assert(same_frame(mem_a, mem_b, t));
                            assert(same_frame(mem_b, mem_c, t));
                            assert(same_frame(mem_c, mem_d, t));
                        }
                    }
                    assert(agree_on(mem_a, mem_d, made_a.remove(target as int).dom())) by {
                        assert forall|t: int|
                            made_a.remove(target as int).dom().contains(
                                t,
                            ) implies #[trigger] same_frame(mem_a, mem_d, t) by {
                            assert(made_a.dom().contains(t));
                            assert(same_frame(mem_a, mem_b, t));
                            assert(same_frame(mem_b, mem_c, t));
                            lemma_frame_words(mem_c, t);
                            assert forall|i: int| 0 <= i < 512 implies #[trigger] entry_at(mem_a, t, i)
                                == entry_at(mem_d, t, i) by {
                                assert(entry_at(mem_a, t, i) == entry_at(mem_b, t, i));
                                assert(entry_at(mem_b, t, i) == entry_at(mem_c, t, i));
                            }
                        }
                    }
                    assert forall|j: int| 0 <= j < index implies #[trigger] entry_at(
                        mem_d,
                        target as int,
                        j,
                    ) == entry_at(mem_a, target as int, j) by {
                        assert(same_frame(mem_a, mem_b, target as int));
                        assert(same_frame(mem_b, mem_c, target as int));
                        assert(entry_at(mem_a, target as int, j) == entry_at(mem_b, target as int, j));
                        assert(entry_at(mem_b, target as int, j) == entry_at(mem_c, target as int, j));
                    }
                    lemma_slots_kept(
                        mem_a,
                        mem_d,
                        from,
                        made_a,
                        source as int,
                        target as int,
                        index as int,
                    );
                    assert(entry_at(mem_d, source as int, index as int) == es@) by {
                        assert(same_frame(mem_a, mem_d, source as int));
                    }
                    assert(entry_at(mem_d, target as int, index as int) == et@);
                    assert(slot_mirrors(mem_d, source as int, target as int, level, index as int));
                    assert forall|j: int| index + 1 <= j < 512 implies #[trigger] entry_at(
                        mem_d,
                        target as int,
                        j,
                    ) == 0 by {
                        assert(same_frame(mem_a, mem_b, target as int));
                        assert(same_frame(mem_b, mem_c, target as int));
                        assert(entry_at(mem_a, target as int, j) == entry_at(mem_b, target as int, j));
                        assert(entry_at(mem_b, target as int, j) == entry_at(mem_c, target as int, j));
                    }
                    assert(agree_on(mem0, mem_d, from.dom())) by {
                        assert forall|t: int| from.dom().contains(t) implies #[trigger] same_frame(
                            mem0,
                            mem_d,
                            t,
                        ) by {
                            assert(same_frame(mem0, mem_a, t));
                            assert(same_frame(mem_a, mem_d, t));
                        }
                    }
                    assert(only_touched(mem0, mem_d, made.dom())) by {
                        assert forall|f: int|
                            0 <= f < frame_count(mem0) && !made.dom().contains(
                                f,
                            ) implies #[trigger] same_frame(mem0, mem_d, f) by {
                            assert(same_frame(mem0, mem_a, f));
                            lemma_frame_words(mem_a, f);
                            assert(same_frame(mem_b, mem_c, f));
                            assert forall|i: int| 0 <= i < 512 implies #[trigger] entry_at(mem0, f, i)
                                == entry_at(mem_d, f, i) by {
                                assert(entry_at(mem0, f, i) == entry_at(mem_a, f, i));
                                assert(entry_at(mem_b, f, i) == entry_at(mem_c, f, i));
                            }
                        }
                    }
                }
            },
        }
        index += 1;
    }
    proof {
        lemma_mirrors_slots(mem@, source as int, target as int, level);
    }
    Ghost(made)
}

/// What cloning the address space `source` makes of the memory `mem` and the
/// allocator state `alloc`.
///
/// The clone takes one frame for each table of the source. With fewer free
/// frames than that, nothing changes. With enough, the new address space is
/// well formed, has as its top table the first frame taken, the free frame
/// with the lowest address, owns only frames that were free, and mirrors the
/// source table by table: every address translates in it as it does in the source, which
/// itself is left as it was.
pub open spec fn clone_post(
    source: GeneralPageTable,
    mem: Seq<u64>,
    alloc: Seq<bool>,
    mem2: Seq<u64>,
    alloc2: Seq<bool>,
    r: Result<GeneralPageTable, MapToError>,
) -> bool {
    let size = subtree_size(mem, source.root(), PageTableLevel::Four, 512);
    match r {
        Err(e) => {
            &&& e == MapToError::FrameAllocationFailed
            &&& free_frames(alloc) < size
            &&& mem2 == mem
            &&& alloc2 == alloc
        },
        Ok(target) => {
            &&& free_frames(alloc) >= size
            &&& free_frames(alloc2) == free_frames(alloc) - size
            &&& target.wf(mem2, alloc2)
            &&& source.wf(mem2, alloc2)
            &&& target.disjoint(source)
            &&& lowest_free(alloc, target.root())
            &&& only_touched(mem, mem2, target.tables().dom())
            &&& taken_fresh(alloc, alloc2, Set::empty(), target.tables().dom())
            &&& mirrors(mem2, source.root(), target.root(), PageTableLevel::Four)
            &&& forall|a: u64| #[trigger]
                target.translation(mem2, a) == source.translation(mem, a)
            &&& forall|a: u64| #[trigger]
                source.translation(mem2, a) == source.translation(mem, a)
        },
    }
}

impl GeneralPageTable {
    /// Clones the address space `source`: the new address space has a copy of
    /// its own of every table of the source, and shares with it every mapped
    /// frame, ordinary or huge. Nothing is taken from the allocator unless it
    /// has a frame for each table.
    pub fn new_from_address(
        mem: &mut PhysMemory,
        frame_allocator: &mut BitmapFrameAllocator,
        source: &GeneralPageTable,
    ) -> (r: Result<GeneralPageTable, MapToError>)
        requires
            source.wf(old(mem)@, old(frame_allocator)@),
        ensures
            clone_post(
                *source,
                old(mem)@,
                old(frame_allocator)@,
                final(mem)@,
                final(frame_allocator)@,
                r,
            ),
    {
        let ghost mem0 = mem@;
        let ghost alloc0 = frame_allocator@;
        let ghost from = source.tables();
        let top = source.root_table(mem);
        let needed = count_tables(mem, top, PageTableLevel::Four);
        if frame_allocator.free_count() < needed {
            return Err(MapToError::FrameAllocationFailed);
        }
        proof {
            lemma_subtree_size_bound(mem0, top as int, PageTableLevel::Four, 512);
        }
        let next = match frame_allocator.allocate_frame() {
            Some(next) => next,
            None => {
                return Err(MapToError::FrameAllocationFailed);
            },
        };
        let fresh = next.number() as usize;
        mem.zero_frame(fresh);
        let ghost mem1 = mem@;
        let ghost alloc1 = frame_allocator@;
        proof {
            assert(!from.dom().contains(fresh as int));
            assert(agree_on(mem0, mem1, from.dom())) by {
                assert forall|t: int| from.dom().contains(t) implies #[trigger] same_frame(
                    mem0,
                    mem1,
                    t,
                ) by {
                    lemma_frame_words(mem0, t);
                }
            }
            lemma_closed_agree(mem0, mem1, from);
            lemma_subtree_size_agree(mem0, mem1, from, top as int, 512);
        }
        let made = clone_table(
            mem,
            frame_allocator,
            top,
            fresh,
            PageTableLevel::Four,
            Ghost(from),
        );
        let target = GeneralPageTable { physical_address: next.start_address(), tables: made };
        proof {
            let mem2 = mem@;
            let alloc2 = frame_allocator@;
            use_type_invariant(&next);
            lemma_aligned_number(next@);
            assert(target.root() == fresh);
            assert(agree_on(mem1, mem2, from.dom())) by {
                assert forall|t: int| from.dom().contains(t) implies #[trigger] same_frame(
                    mem1,
                    mem2,
                    t,
                ) by {
                    assert(is_used(alloc0, t));
                    assert(!made@.dom().contains(t));
                }
            }
            lemma_closed_agree(mem1, mem2, from);
            assert(target.disjoint(*source)) by {
                assert forall|t: int| made@.dom().contains(t) implies !from.dom().contains(t) by {
                    if from.dom().contains(t) {
                        assert(is_used(alloc0, t));
                    }
                }
            }
            assert forall|a: u64| #[trigger]
                source.translation(mem2, a) == source.translation(mem0, a) by {
                lemma_walk_agree(mem0, mem1, from, top as int, a);
                lemma_walk_agree(mem1, mem2, from, top as int, a);
            }
            assert forall|a: u64| #[trigger]
                target.translation(mem2, a) == source.translation(mem0, a) by {
                lemma_mirrors_walk(mem2, top as int, fresh as int, PageTableLevel::Four, a);
                assert(source.translation(mem2, a) == source.translation(mem0, a));
            }
            assert(only_touched(mem0, mem2, made@.dom())) by {
                assert forall|f: int|
                    0 <= f < frame_count(mem0) && !made@.dom().contains(
                        f,
                    ) implies #[trigger] same_frame(mem0, mem2, f) by {
                    lemma_frame_words(mem0, f);
                    assert(same_frame(mem1, mem2, f));
                    assert forall|i: int| 0 <= i < 512 implies #[trigger] entry_at(mem0, f, i)
                        == entry_at(mem2, f, i) by {
                        assert(entry_at(mem1, f, i) == entry_at(mem2, f, i));
                    }
                }
            }
            assert(taken_fresh(alloc0, alloc2, Set::empty(), made@.dom())) by {
                assert forall|f: int| #[trigger] made@.dom().contains(f) implies !is_used(
                    alloc0,
                    f,
                ) by {
                    if f != fresh {
                        assert(!is_used(alloc1, f));
                    }
                }
            }
        }
        Ok(target)
    }
}

} // verus!
