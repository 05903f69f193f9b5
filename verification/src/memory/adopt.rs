//! Taking over a tree of page tables that is already in memory, such as the
//! one that the processor runs on.

use vstd::prelude::*;
use crate::memory::addr::{lemma_aligned_number, PageTableLevel, PhysFrame};
use crate::memory::cloner::lemma_closed_union;
use crate::memory::frame_alloc::{is_used, BitmapFrameAllocator};
use crate::memory::page_table::GeneralPageTable;
use crate::memory::phys::{entry_at, frame_count, PhysMemory};
use crate::memory::walk::{child_frame, closed_under_links, is_link, level_at};

verus! {

/// Whether `tables` describes the tables below the top table in frame `root`
/// as a tree that an address space can own: the allocator manages frames of
/// the memory, the tables are complete for the memory from the top table
/// down, and each is marked as used.
pub open spec fn tree_at(
    mem: Seq<u64>,
    alloc: Seq<bool>,
    root: int,
    tables: Map<int, Seq<int>>,
) -> bool {
    &&& alloc.len() <= frame_count(mem)
    &&& tables.dom().contains(root)
    &&& tables[root] == Seq::<int>::empty()
    &&& closed_under_links(mem, tables)
    &&& forall|t: int| #[trigger] tables.dom().contains(t) ==> is_used(alloc, t)
}

/// Whether the tables below the top table in frame `root` are a tree that an
/// address space can own: no table is reached in two ways, none lies outside
/// the memory, and each is marked as used.
pub open spec fn adoptable(mem: Seq<u64>, alloc: Seq<bool>, root: int) -> bool {
    exists|tables: Map<int, Seq<int>>| #[trigger] tree_at(mem, alloc, root, tables)
}

/// How many places in the order of the walk a table at `depth` links below
/// the top takes up with all that lies below it.
pub open spec fn span(depth: nat) -> int {
    if depth == 0 {
        135_005_697
    } else if depth == 1 {
        263_169
    } else if depth == 2 {
        513
    } else {
        1
    }
}

/// The place of the table at the end of `path` in the order in which a walk
/// through the whole tree comes to the tables: a table before all below it,
/// and what lies below an entry before what lies below the next.
pub open spec fn rank(path: Seq<int>) -> int
    decreases path.len(),
{
    if path.len() == 0 {
        0
    } else {
        rank(path.drop_last()) + (path.last() + 1) * span(path.len())
    }
}

/// Whether `tables` holds each table of `found`, at the end of the same
/// indices.
pub open spec fn agrees(tables: Map<int, Seq<int>>, found: Map<int, Seq<int>>) -> bool {
    forall|f: int| #[trigger]
        found.dom().contains(f) ==> tables.dom().contains(f) && tables[f] == found[f]
}

/// The place of a table one index further down.
pub proof fn lemma_rank_push(path: Seq<int>, index: int)
    ensures
        rank(path.push(index)) == rank(path) + (index + 1) * span(path.len() + 1),
{
    assert(path.push(index).drop_last() =~= path);
}

/// A complete tree stays complete when a table is put on top of it whose
/// entries name only top tables of the tree, each one index further down.
pub proof fn lemma_closed_top(
    mem: Seq<u64>,
    below: Map<int, Seq<int>>,
    table: int,
    path: Seq<int>,
)
    requires
        closed_under_links(mem, below),
        !below.dom().contains(table),
        0 <= table < frame_count(mem),
        path.len() <= 3,
        forall|i: int|
            0 <= i < 512 && is_link(#[trigger] entry_at(mem, table, i), level_at(path.len()))
                ==> below.dom().contains(child_frame(entry_at(mem, table, i))) && below[child_frame(
                entry_at(mem, table, i),
            )] == path.push(i),
    ensures
        closed_under_links(mem, below.insert(table, path)),
{
    let made = below.insert(table, path);
    assert forall|t: int, i: int|
        made.dom().contains(t) && 0 <= i < 512 && is_link(
            #[trigger] entry_at(mem, t, i),
            level_at(made[t].len()),
        ) implies made.dom().contains(child_frame(entry_at(mem, t, i))) && made[child_frame(
        entry_at(mem, t, i),
    )] == made[t].push(i) by {
        let child = child_frame(entry_at(mem, t, i));
        if t != table {
            assert(below.dom().contains(child));
        }
    }
}

/// Walks through the tree below `table`, a table of `level` that the walk
/// came to by the indices `path`, and marks each table it comes to in
/// `visited`. The walk ends without success at an entry that names a table
/// outside the memory, one that is not marked as used, or one that the walk
/// has come to before.
fn survey(
    mem: &PhysMemory,
    frame_allocator: &BitmapFrameAllocator,
    visited: &mut Vec<bool>,
    table: usize,
    level: PageTableLevel,
    Ghost(root): Ghost<int>,
    Ghost(path): Ghost<Seq<int>>,
    Ghost(found): Ghost<Map<int, Seq<int>>>,
) -> (r: (bool, Ghost<Map<int, Seq<int>>>))
    requires
        old(visited)@.len() == frame_count(mem@),
        forall|f: int|
            0 <= f < old(visited)@.len() ==> old(visited)@[f] == found.dom().contains(f),
        table < frame_count(mem@),
        !old(visited)@[table as int],
        is_used(frame_allocator@, table as int),
        level == level_at(path.len()),
        path.len() <= 3,
        forall|f: int| #[trigger] found.dom().contains(f) ==> rank(found[f]) < rank(path),
        forall|tables: Map<int, Seq<int>>| #[trigger]
            tree_at(mem@, frame_allocator@, root, tables) ==> tables.dom().contains(table as int)
                && tables[table as int] == path && agrees(tables, found),
    ensures
        final(visited)@.len() == old(visited)@.len(),
        r.0 ==> {
            let made = r.1@;
            &&& made.dom().contains(table as int)
            &&& made[table as int] == path
            &&& closed_under_links(mem@, made)
            &&& forall|f: int| #[trigger]
                made.dom().contains(f) ==> {
                    &&& !found.dom().contains(f)
                    &&& is_used(frame_allocator@, f)
                    &&& rank(path) <= rank(made[f]) < rank(path) + span(path.len())
                    &&& f != table ==> made[f].len() > path.len()
                }
            &&& forall|f: int|
                0 <= f < final(visited)@.len() ==> final(visited)@[f] == (found.dom().contains(f)
                    || made.dom().contains(f))
            &&& forall|tables: Map<int, Seq<int>>| #[trigger]
                tree_at(mem@, frame_allocator@, root, tables) ==> agrees(tables, made)
        },
        !r.0 ==> forall|tables: Map<int, Seq<int>>|
            !#[trigger] tree_at(mem@, frame_allocator@, root, tables),
    decreases level.spec_number(),
{
    let ghost depth = path.len();
    let ghost step = span(depth + 1);
    let ghost mut below: Map<int, Seq<int>> = Map::empty();
    visited[table] = true;
    proof {
        assert(span(depth) == 513 * step || depth == 3);
    }
    let mut index: usize = 0;
    while index < 512
        invariant
            index <= 512,
            depth == path.len(),
            depth <= 3,
            step == span(depth + 1),
            level == level_at(depth),
            table < frame_count(mem@),
            is_used(frame_allocator@, table as int),
            visited@.len() == frame_count(mem@),
            visited@.len() == old(visited)@.len(),
            !found.dom().contains(table as int),
            forall|f: int|
                0 <= f < old(visited)@.len() ==> old(visited)@[f] == found.dom().contains(f),
            forall|f: int| #[trigger] found.dom().contains(f) ==> rank(found[f]) < rank(path),
            forall|tables: Map<int, Seq<int>>| #[trigger]
                tree_at(mem@, frame_allocator@, root, tables) ==> tables.dom().contains(
                    table as int,
                ) && tables[table as int] == path && agrees(tables, found),
            forall|f: int|
                0 <= f < visited@.len() ==> visited@[f] == (found.dom().contains(f) || f == table
                    || below.dom().contains(f)),
            closed_under_links(mem@, below),
            forall|f: int| #[trigger]
                below.dom().contains(f) ==> {
                    &&& !found.dom().contains(f)
                    &&& f != table
                    &&& is_used(frame_allocator@, f)
                    &&& rank(path) < rank(below[f]) < rank(path) + (index + 1) * step
                    &&& below[f].len() > depth
                },
            forall|i: int|
                0 <= i < index && is_link(#[trigger] entry_at(mem@, table as int, i), level)
                    ==> below.dom().contains(child_frame(entry_at(mem@, table as int, i)))
                    && below[child_frame(entry_at(mem@, table as int, i))] == path.push(i),
            forall|tables: Map<int, Seq<int>>| #[trigger]
                tree_at(mem@, frame_allocator@, root, tables) ==> agrees(tables, below),
            level == PageTableLevel::One ==> below.dom() =~= Set::<int>::empty(),
        decreases 512 - index,
    {
        let entry = mem.read_entry(table, index);
        let ghost e = entry@;
        proof {
            assert((index + 2) * step == (index + 1) * step + step) by (nonlinear_arith);
            assert((index + 1) * step >= step) by (nonlinear_arith)
                requires
                    index >= 0,
                    step >= 1,
            ;
            lemma_rank_push(path, index as int);
        }
        if level != PageTableLevel::One && !entry.is_unused() && !entry.is_huge() {
            let named = PhysFrame::containing_address(entry.addr());
            let number = named.number();
            let ghost child = child_frame(e);
            let ghost seen = found.insert(table as int, path).union_prefer_right(below);
            proof {
                assert(number == child);
                assert forall|tables: Map<int, Seq<int>>| #[trigger]
                    tree_at(mem@, frame_allocator@, root, tables) implies tables.dom().contains(
                    child,
                ) && tables[child] == path.push(index as int) && agrees(tables, seen) by {
                    assert(agrees(tables, found));
                    assert(agrees(tables, below));
                    assert(entry_at(mem@, table as int, index as int) == e);
                    assert(is_link(e, level_at(tables[table as int].len())));
                }
            }
            if number >= mem.frame_count() as u64 {
                return (false, Ghost(below));
            }
            let next = number as usize;
            if visited[next] {
                proof {
                    assert forall|tables: Map<int, Seq<int>>| !#[trigger] tree_at(
                        mem@,
                        frame_allocator@,
                        root,
                        tables,
                    ) by {
                        if tree_at(mem@, frame_allocator@, root, tables) {
                            assert(seen.dom().contains(child));
                            assert(tables[child] == seen[child]);
                            if below.dom().contains(child) {
                                assert(seen[child] == below[child]);
                            } else if child == table {
                                assert(seen[child] == path);
                            } else {
                                assert(seen[child] == found[child]);
                            }
                        }
                    }
                }
                return (false, Ghost(below));
            }
            if !frame_allocator.is_used(named) {
                return (false, Ghost(below));
            }
            proof {
                assert forall|f: int| #[trigger] seen.dom().contains(f) implies rank(seen[f])
                    < rank(path.push(index as int)) by {
                    if below.dom().contains(f) {
                        assert(seen[f] == below[f]);
                    } else if f == table {
                        assert(seen[f] == path);
                    } else {
                        assert(seen[f] == found[f]);
                    }
                }
            }
            let (ok, sub) = survey(
                mem,
                frame_allocator,
                visited,
                next,
                level.next_lower_level().unwrap(),
                Ghost(root),
                Ghost(path.push(index as int)),
                Ghost(seen),
            );
            if !ok {
                return (false, Ghost(below));
            }
            proof {
                assert(below.dom().disjoint(sub@.dom())) by {
                    assert forall|f: int| below.dom().contains(f) implies !sub@.dom().contains(
                        f,
                    ) by {
                        assert(seen.dom().contains(f));
                    }
                }
                lemma_closed_union(mem@, below, sub@);
                let grown = below.union_prefer_right(sub@);
                assert forall|f: int| #[trigger] grown.dom().contains(f) implies {
                    &&& !found.dom().contains(f)
                    &&& f != table
                    &&& is_used(frame_allocator@, f)
                    &&& rank(path) < rank(grown[f]) < rank(path) + (index + 2) * step
                    &&& grown[f].len() > depth
                } by {
                    if sub@.dom().contains(f) {
                        assert(!seen.dom().contains(f));
                        assert(grown[f] == sub@[f]);
                        assert(span(depth + 1) == step);
                    } else {
                        assert(grown[f] == below[f]);
                    }
                }
                assert forall|tables: Map<int, Seq<int>>| #[trigger]
                    tree_at(mem@, frame_allocator@, root, tables) implies agrees(tables, grown) by {
                    assert(agrees(tables, below));
                    assert(agrees(tables, sub@));
                    assert forall|f: int| #[trigger] grown.dom().contains(f) implies tables.dom().contains(
                        f,
                    ) && tables[f] == grown[f] by {
                        if sub@.dom().contains(f) {
                            assert(grown[f] == sub@[f]);
                        } else {
                            assert(below.dom().contains(f));
                            assert(grown[f] == below[f]);
                        }
                    }
                }
                assert forall|i: int|
                    0 <= i < index + 1 && is_link(
                        #[trigger] entry_at(mem@, table as int, i),
                        level,
                    ) implies grown.dom().contains(child_frame(entry_at(mem@, table as int, i)))
                    && grown[child_frame(entry_at(mem@, table as int, i))] == path.push(i) by {
                    let c = child_frame(entry_at(mem@, table as int, i));
                    if i < index {
                        assert(below.dom().contains(c));
                        assert(!sub@.dom().contains(c)) by {
                            assert(seen.dom().contains(c));
                        }
                    }
                }
                assert forall|f: int| 0 <= f < visited@.len() implies visited@[f] == (
                found.dom().contains(f) || f == table || grown.dom().contains(f)) by {
                    assert(seen.dom().contains(f) == (found.dom().contains(f) || f == table
                        || below.dom().contains(f)));
                }
                below = grown;
            }
        }
        index += 1;
    }
    proof {
        lemma_closed_top(mem@, below, table as int, path);
        let made = below.insert(table as int, path);
        assert forall|f: int| #[trigger] made.dom().contains(f) implies {
            &&& !found.dom().contains(f)
            &&& is_used(frame_allocator@, f)
            &&& rank(path) <= rank(made[f]) < rank(path) + span(depth)
            &&& f != table ==> made[f].len() > path.len()
        } by {
            if f != table {
                assert(below.dom().contains(f));
                assert(made[f] == below[f]);
            }
        }
        assert forall|tables: Map<int, Seq<int>>| #[trigger]
            tree_at(mem@, frame_allocator@, root, tables) implies agrees(tables, made) by {
            assert(agrees(tables, below));
        }
    }
    (true, Ghost(below.insert(table as int, path)))
}

impl GeneralPageTable {
    /// A handle for the tree below the top table in `root` that is already in
    /// the memory, for example the one that the processor runs on, if the tree
    /// is one that an address space can own. The handle is well formed, so
    /// that pages can be mapped and unmapped in it and it can be cloned.
    pub fn adopt(mem: &PhysMemory, frame_allocator: &BitmapFrameAllocator, root: PhysFrame) -> (r:
        Option<GeneralPageTable>)
        ensures
            r.is_some() <==> adoptable(mem@, frame_allocator@, root.spec_number()),
            r.is_some() ==> r.unwrap().physical_address@ == root@ && r.unwrap().wf(
                mem@,
                frame_allocator@,
            ),
    {
        let frames = mem.frame_count();
        let number = root.number();
        proof {
            use_type_invariant(&root);
            lemma_aligned_number(root@);
        }
        if frame_allocator.frame_count() > frames || number >= frames as u64
            || !frame_allocator.is_used(root) {
            return None;
        }
        let mut visited: Vec<bool> = vec![false; frames];
        let ghost found: Map<int, Seq<int>> = Map::empty();
        proof {
            assert(rank(Seq::<int>::empty()) == 0);
        }
        let (ok, made) = survey(
            mem,
            frame_allocator,
            &mut visited,
            number as usize,
            PageTableLevel::Four,
            Ghost(number as int),
            Ghost(Seq::empty()),
            Ghost(found),
        );
        if !ok {
            return None;
        }
        proof {
            assert(tree_at(mem@, frame_allocator@, number as int, made@));
        }
        Some(GeneralPageTable { physical_address: root.start_address(), tables: made })
    }
}

} // verus!
