//! The root of the filesystem tree: a directory of mounted nodes.

use vstd::prelude::*;
use vstd::utf8::encode_utf8;

verus! {

/// Names an inode in the table of inodes that the kernel keeps.
#[derive(Clone, Copy, PartialEq, Eq, Structural, Debug)]
pub struct InodeRef {
    pub id: usize,
}

/// Whether the bytes `a` come before the bytes `b` in the order of a
/// dictionary: at the first place where they differ `a` has the smaller byte,
/// or `a` ends there and `b` goes on.
pub open spec fn bytes_less(a: Seq<u8>, b: Seq<u8>) -> bool
    decreases a.len(),
{
    if b.len() == 0 {
        false
    } else if a.len() == 0 {
        true
    } else if a[0] != b[0] {
        a[0] < b[0]
    } else {
        bytes_less(a.subrange(1, a.len() as int), b.subrange(1, b.len() as int))
    }
}

/// Whether the name `a` comes before the name `b`: names are ordered as
/// their bytes are.
pub open spec fn name_before(a: Seq<char>, b: Seq<char>) -> bool {
    bytes_less(encode_utf8(a), encode_utf8(b))
}

/// Whether no name of `names` comes before a name that stands before it.
pub open spec fn in_name_order(names: Seq<Seq<char>>) -> bool {
    forall|i: int, j: int| 0 <= i < j < names.len() ==> !name_before(names[j], names[i])
}

/// The place of the first of the names from `from` on that `name` comes
/// before, or the number of names when there is none.
pub open spec fn insertion_point(names: Seq<Seq<char>>, name: Seq<char>, from: int) -> int
    decreases names.len() - from,
{
    if from < 0 || from >= names.len() {
        names.len() as int
    } else if name_before(name, names[from]) {
        from
    } else {
        insertion_point(names, name, from + 1)
    }
}

/// No bytes come before themselves.
pub proof fn lemma_bytes_less_irreflexive(a: Seq<u8>)
    ensures
        !bytes_less(a, a),
    decreases a.len(),
{
    if a.len() > 0 {
        lemma_bytes_less_irreflexive(a.subrange(1, a.len() as int));
    }
}

/// What comes before bytes that come before others comes before these.
pub proof fn lemma_bytes_less_transitive(a: Seq<u8>, b: Seq<u8>, c: Seq<u8>)
    requires
        bytes_less(a, b),
        bytes_less(b, c),
    ensures
        bytes_less(a, c),
    decreases a.len(),
{
    if a.len() > 0 && a[0] == b[0] && b[0] == c[0] {
        lemma_bytes_less_transitive(
            a.subrange(1, a.len() as int),
            b.subrange(1, b.len() as int),
            c.subrange(1, c.len() as int),
        );
    }
}

/// Where the insertion point lies, and what it says of the names before it.
pub proof fn lemma_insertion_point(names: Seq<Seq<char>>, name: Seq<char>, from: int)
    requires
        0 <= from <= names.len(),
    ensures
        from <= insertion_point(names, name, from) <= names.len(),
        forall|i: int|
            from <= i < insertion_point(names, name, from) ==> !name_before(name, #[trigger] names[i]),
        insertion_point(names, name, from) < names.len() ==> name_before(
            name,
            names[insertion_point(names, name, from)],
        ),
    decreases names.len() - from,
{
    if from < names.len() && !name_before(name, names[from]) {
        lemma_insertion_point(names, name, from + 1);
    }
}

/// Names in order stay in order when a name is put in at its insertion
/// point.
pub proof fn lemma_insert_in_order(names: Seq<Seq<char>>, name: Seq<char>)
    requires
        in_name_order(names),
    ensures
        in_name_order(names.insert(insertion_point(names, name, 0), name)),
{
    let p = insertion_point(names, name, 0);
    lemma_insertion_point(names, name, 0);
    let grown = names.insert(p, name);
    assert forall|i: int, j: int| 0 <= i < j < grown.len() implies !name_before(
        grown[j],
        grown[i],
    ) by {
        if i == p {
            let later = names[j - 1];
            assert(grown[i] == name);
            assert(grown[j] == later);
            assert(name_before(name, names[p]));
            if name_before(later, name) {
                lemma_bytes_less_transitive(
                    encode_utf8(later),
                    encode_utf8(name),
                    encode_utf8(names[p]),
                );
                lemma_bytes_less_irreflexive(encode_utf8(names[p]));
                if j - 1 > p {
                    assert(!name_before(names[j - 1], names[p]));
                }
            }
        } else if j == p {
            assert(grown[i] == names[i]);
            assert(grown[j] == name);
            assert(!name_before(name, names[i]));
        } else if i < p && j > p {
            assert(grown[i] == names[i]);
            assert(grown[j] == names[j - 1]);
            assert(!name_before(names[j - 1], names[i]));
        } else if i < p {
            assert(grown[i] == names[i]);
            assert(grown[j] == names[j]);
            assert(!name_before(names[j], names[i]));
        } else {
            assert(grown[i] == names[i - 1]);
            assert(grown[j] == names[j - 1]);
            assert(!name_before(names[j - 1], names[i - 1]));
        }
    }
}

/// Whether the bytes `a` come before the bytes `b` in the order of a
/// dictionary.
pub fn bytes_before(a: &[u8], b: &[u8]) -> (r: bool)
    ensures
        r == bytes_less(a@, b@),
{
    let mut index: usize = 0;
    proof {
        assert(a@.subrange(0, a@.len() as int) =~= a@);
        assert(b@.subrange(0, b@.len() as int) =~= b@);
    }
    loop
        invariant
            index <= a@.len(),
            index <= b@.len(),
            bytes_less(a@, b@) == bytes_less(
                a@.subrange(index as int, a@.len() as int),
                b@.subrange(index as int, b@.len() as int),
            ),
        decreases a@.len() - index,
    {
        let ghost rest_a = a@.subrange(index as int, a@.len() as int);
        let ghost rest_b = b@.subrange(index as int, b@.len() as int);
        if index >= b.len() {
            return false;
        }
        if index >= a.len() {
            return true;
        }
        if a[index] != b[index] {
            return a[index] < b[index];
        }
        proof {
            assert(rest_a.subrange(1, rest_a.len() as int) =~= a@.subrange(
                index + 1,
                a@.len() as int,
            ));
            assert(rest_b.subrange(1, rest_b.len() as int) =~= b@.subrange(
                index + 1,
                b@.len() as int,
            ));
        }
        index += 1;
    }
}

/// The root directory: the nodes mounted in it, each under its name, and the
/// path that the root itself is mounted at.
pub struct RootFS {
    nodes: Vec<(String, InodeRef)>,
    path: String,
}

impl RootFS {
    /// No two of the mounted nodes have the same name, and they are kept in
    /// the order of their names.
    pub closed spec fn inv(self) -> bool {
        &&& forall|i: int, j: int|
            0 <= i < self.nodes@.len() && 0 <= j < self.nodes@.len() && i != j
                ==> self.nodes@[i].0@ != self.nodes@[j].0@
        &&& in_name_order(self.names())
    }

    /// The names of the mounted nodes, in the order of names.
    pub closed spec fn names(self) -> Seq<Seq<char>> {
        Seq::new(self.nodes@.len(), |i: int| self.nodes@[i].0@)
    }

    /// The mounted nodes, each at the place of its name in `names`.
    pub closed spec fn children(self) -> Seq<InodeRef> {
        Seq::new(self.nodes@.len(), |i: int| self.nodes@[i].1)
    }

    /// The path that the root is mounted at.
    pub closed spec fn path(self) -> Seq<char> {
        self.path@
    }

    /// The node mounted under `name`, if there is one.
    pub open spec fn lookup(self, name: Seq<char>) -> Option<InodeRef> {
        if self.names().contains(name) {
            Some(self.children()[self.names().index_of(name)])
        } else {
            None
        }
    }

    /// A root with nothing mounted in it, itself mounted nowhere.
    pub fn new() -> (root: RootFS)
        ensures
            root.inv(),
            root.names() == Seq::<Seq<char>>::empty(),
            root.children() == Seq::<InodeRef>::empty(),
            root.path() == Seq::<char>::empty(),
    {
        let root = RootFS { nodes: Vec::new(), path: String::new() };
        proof {
            assert(root.names() =~= Seq::<Seq<char>>::empty());
            assert(root.children() =~= Seq::<InodeRef>::empty());
        }
        root
    }

    /// Takes note of the path that the root was mounted at.
    pub fn when_mounted(&mut self, path: String, _father: Option<InodeRef>)
        requires
            old(self).inv(),
        ensures
            final(self).inv(),
            final(self).path() == path@,
            final(self).names() == old(self).names(),
            final(self).children() == old(self).children(),
    {
        let ghost before = *self;
        self.path = path;
        proof {
            assert(self.names() =~= before.names());
        }
    }

    /// The nodes that are to be told that they are unmounted with the root:
    /// all that are mounted in it, in the order of their names.
    pub fn when_umounted(&self) -> (told: Vec<InodeRef>)
        ensures
            told@ == self.children(),
    {
        let mut told: Vec<InodeRef> = Vec::new();
        let mut index: usize = 0;
        while index < self.nodes.len()
            invariant
                index <= self.nodes@.len(),
                told@.len() == index,
                forall|i: int| 0 <= i < index ==> told@[i] == self.nodes@[i].1,
            decreases self.nodes@.len() - index,
        {
            told.push(self.nodes[index].1);
            index += 1;
        }
        proof {
            assert(told@ =~= self.children());
        }
        told
    }

    /// The place of `name` among the names, if a node is mounted under it.
    fn position(&self, name: &String) -> (r: Option<usize>)
        requires
            self.inv(),
        ensures
            r.is_some() <==> self.names().contains(name@),
            r.is_some() ==> r.unwrap() < self.names().len() && self.names()[r.unwrap() as int]
                == name@ && r.unwrap() == self.names().index_of(name@),
    {
        let mut index: usize = 0;
        while index < self.nodes.len()
            invariant
                self.inv(),
                index <= self.nodes@.len(),
                forall|i: int| 0 <= i < index ==> self.nodes@[i].0@ != name@,
            decreases self.nodes@.len() - index,
        {
            if self.nodes[index].0 == *name {
                proof {
                    let names = self.names();
                    assert(names[index as int] == name@);
                    assert(names.contains(name@));
                    let found = names.index_of(name@);
                    assert(names[found] == name@);
                    assert(self.nodes@[found].0@ == name@);
                }
                return Some(index);
            }
            index += 1;
        }
        proof {
            let names = self.names();
            if names.contains(name@) {
                let i = names.index_of(name@);
                assert(names[i] == name@);
                assert(self.nodes@[i].0@ == name@);
            }
        }
        None
    }

    /// The place at which `name` is to be put among the names: that of the
    /// first name that it comes before.
    fn slot(&self, name: &String) -> (r: usize)
        ensures
            r == insertion_point(self.names(), name@, 0),
            r <= self.names().len(),
    {
        let bytes = name.as_str().as_bytes();
        let mut index: usize = 0;
        while index < self.nodes.len()
            invariant
                index <= self.nodes@.len(),
                bytes@ == encode_utf8(name@),
                insertion_point(self.names(), name@, 0) == insertion_point(
                    self.names(),
                    name@,
                    index as int,
                ),
            decreases self.nodes@.len() - index,
        {
            let other = self.nodes[index].0.as_str().as_bytes();
            proof {
                assert(self.names()[index as int] == self.nodes@[index as int].0@);
            }
            if bytes_before(bytes, other) {
                return index;
            }
            index += 1;
        }
        index
    }

    /// Mounts `node` under `name`. A node that was mounted under the name
    /// before gives way to it; a new name takes its place in the order of
    /// names.
    pub fn mount(&mut self, node: InodeRef, name: String)
        requires
            old(self).inv(),
        ensures
            final(self).inv(),
            final(self).path() == old(self).path(),
            final(self).lookup(name@) == Some(node),
            forall|other: Seq<char>|
                other != name@ ==> #[trigger] final(self).lookup(other) == old(self).lookup(other),
            old(self).names().contains(name@) ==> final(self).names() == old(self).names()
                && final(self).children() == old(self).children().update(
                old(self).names().index_of(name@),
                node,
            ),
            !old(self).names().contains(name@) ==> final(self).names() == old(self).names().insert(
                insertion_point(old(self).names(), name@, 0),
                name@,
            ) && final(self).children() == old(self).children().insert(
                insertion_point(old(self).names(), name@, 0),
                node,
            ),
    {
        let ghost before = *self;
        let ghost label = name@;
        let ghost shift = insertion_point(before.names(), label, 0);
        match self.position(&name) {
            Some(index) => {
                self.nodes[index] = (name, node);
                proof {
                    assert(self.names() =~= before.names());
                    assert(self.children() =~= before.children().update(index as int, node));
                    assert forall|i: int, j: int|
                        0 <= i < self.nodes@.len() && 0 <= j < self.nodes@.len() && i
                            != j implies self.nodes@[i].0@ != self.nodes@[j].0@ by {
                        assert(self.names()[i] == before.names()[i]);
                        assert(self.names()[j] == before.names()[j]);
                        assert(before.nodes@[i].0@ != before.nodes@[j].0@);
                    }
                    assert forall|other: Seq<char>| other != label implies #[trigger] self.lookup(
                        other,
                    ) == before.lookup(other) by {
                        if before.names().contains(other) {
                            let i = before.names().index_of(other);
                            assert(before.names()[i] == other);
                            assert(self.children()[i] == before.children()[i]);
                        }
                    }
                }
            },
            None => {
                let place = self.slot(&name);
                self.nodes.insert(place, (name, node));
                proof {
                    lemma_insertion_point(before.names(), label, 0);
                    lemma_insert_in_order(before.names(), label);
                    assert(self.names() =~= before.names().insert(shift, label));
                    assert(self.children() =~= before.children().insert(shift, node));
                    assert forall|i: int, j: int|
                        0 <= i < self.nodes@.len() && 0 <= j < self.nodes@.len() && i
                            != j implies self.nodes@[i].0@ != self.nodes@[j].0@ by {
                        let a = if i < shift {
                            i
                        } else {
                            i - 1
                        };
                        let b = if j < shift {
                            j
                        } else {
                            j - 1
                        };
                        if i != shift {
                            assert(self.nodes@[i].0@ == before.names()[a]);
                            assert(before.names().contains(self.nodes@[i].0@));
                        }
                        if j != shift {
                            assert(self.nodes@[j].0@ == before.names()[b]);
                            assert(before.names().contains(self.nodes@[j].0@));
                        }
                        if i != shift && j != shift {
                            assert(before.nodes@[a].0@ != before.nodes@[b].0@);
                        }
                    }
                    let names = self.names();
                    assert(names[shift] == label);
                    assert forall|other: Seq<char>| other != label implies #[trigger] self.lookup(
                        other,
                    ) == before.lookup(other) by {
                        if before.names().contains(other) {
                            let i = before.names().index_of(other);
                            assert(before.names()[i] == other);
                            let moved = if i < shift {
                                i
                            } else {
                                i + 1
                            };
                            assert(names[moved] == other);
                            assert(names.contains(other));
                            let k = names.index_of(other);
                            assert(names[k] == other);
                            assert(self.nodes@[k].0@ == self.nodes@[moved].0@);
                            assert(k == moved);
                            assert(self.children()[moved] == before.children()[i]);
                        }
                        if names.contains(other) {
                            let k = names.index_of(other);
                            assert(names[k] == other);
                            let back = if k < shift {
                                k
                            } else {
                                k - 1
                            };
                            assert(before.names()[back] == other);
                            assert(before.names().contains(other));
                        }
                    }
                }
            },
        }
        proof {
            let names = self.names();
            assert(names.contains(label));
            let found = names.index_of(label);
            assert(names[found] == label);
            assert(self.nodes@[found].0@ == label);
        }
    }

    /// The path that the root is mounted at.
    pub fn get_path(&self) -> (path: String)
        ensures
            path@ == self.path(),
    {
        self.path.clone()
    }

    /// The node mounted under `name`, if there is one.
    pub fn open(&self, name: String) -> (r: Option<InodeRef>)
        requires
            self.inv(),
        ensures
            r == self.lookup(name@),
    {
        match self.position(&name) {
            Some(index) => Some(self.nodes[index].1),
            None => None,
        }
    }
}

} // verus!
