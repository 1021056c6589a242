use vstd::prelude::*;

use crate::inventory::Entry;
use crate::search::Move;

verus! {

/// `a` and `b` joined as path components: an empty component adds nothing,
/// and one `/` stands between two non-empty ones.
pub open spec fn join_path(a: Seq<u8>, b: Seq<u8>) -> Seq<u8> {
    if b.len() == 0 {
        a
    } else if a.len() == 0 {
        b
    } else if a.last() == 47u8 {
        a + b
    } else {
        a.push(47u8) + b
    }
}

/// The byte strings of a list of names.
pub open spec fn name_seqs(list: Seq<Vec<u8>>) -> Seq<Seq<u8>> {
    list.map_values(|v: Vec<u8>| v@)
}

/// No name occurs twice in the list.
pub open spec fn distinct(list: Seq<Seq<u8>>) -> bool {
    forall|i: int, j: int| 0 <= i < list.len() && 0 <= j < list.len() && i != j ==> #[trigger] list[i] != #[trigger] list[j]
}

/// A move written as full paths.
#[derive(Debug, Clone, PartialEq, Eq)]
pub struct PathMove {
    pub source: Vec<u8>,
    pub target: Vec<u8>,
}

/// Interns path components as small ids: roots, top-level subdirs, and the
/// rest of each path below its subdir.
#[derive(Debug)]
pub struct StateNames {
    pub roots: Vec<Vec<u8>>,
    pub subdirs: Vec<Vec<u8>>,
    pub subpath: Vec<Vec<u8>>,
}

/// Whether two byte strings are equal.
pub fn bytes_eq(a: &Vec<u8>, b: &Vec<u8>) -> (r: bool)
    ensures
        r == (a@ == b@),
{
    if a.len() != b.len() {
        return false;
    }
    let mut i: usize = 0;
    while i < a.len()
        invariant
            i <= a@.len(),
            a@.len() == b@.len(),
            forall|j: int| 0 <= j < i ==> a@[j] == b@[j],
        decreases a@.len() - i,
    {
        if a[i] != b[i] {
            return false;
        }
        i += 1;
    }
    assert(a@ =~= b@);
    true
}

/// The id of `name` in `list`, if it is there.
pub fn position(list: &Vec<Vec<u8>>, name: &Vec<u8>) -> (r: Option<usize>)
    ensures
        match r {
            Some(i) => i < list@.len() && list@[i as int]@ == name@ && forall|j: int|
                0 <= j < i ==> (#[trigger] list@[j])@ != name@,
            None => forall|j: int| 0 <= j < list@.len() ==> (#[trigger] list@[j])@ != name@,
        },
{
    let mut i: usize = 0;
    while i < list.len()
        invariant
            i <= list@.len(),
            forall|j: int| 0 <= j < i ==> (#[trigger] list@[j])@ != name@,
        decreases list@.len() - i,
    {
        if bytes_eq(&list[i], name) {
            return Some(i);
        }
        i += 1;
    }
    None
}

/// The id of `name` in `list`, appending it first if it is new.
fn intern(list: &mut Vec<Vec<u8>>, name: &Vec<u8>) -> (r: usize)
    requires
        distinct(name_seqs(old(list)@)),
    ensures
        distinct(name_seqs(final(list)@)),
        r < final(list)@.len(),
        final(list)@[r as int]@ == name@,
        name_seqs(old(list)@).contains(name@) ==> final(list)@ == old(list)@,
        !name_seqs(old(list)@).contains(name@) ==> name_seqs(final(list)@) == name_seqs(
            old(list)@,
        ).push(name@) && r == old(list)@.len(),
{
    match position(list, name) {
        Some(i) => {
            assert(name_seqs(list@)[i as int] == name@);
            i
        },
        None => {
            let ghost before = list@;
            assert(!name_seqs(before).contains(name@)) by {
                if name_seqs(before).contains(name@) {
                    let j = choose|j: int| 0 <= j < before.len() && name_seqs(before)[j] == name@;
                    assert(before[j]@ == name@);
                }
            }
            let copy = crate::state::copy_vec(name);
            list.push(copy);
            assert(name_seqs(list@) =~= name_seqs(before).push(name@));
            list.len() - 1
        },
    }
}

/// `a` and `b` joined as path components.
pub fn join(a: &Vec<u8>, b: &Vec<u8>) -> (r: Vec<u8>)
    ensures
        r@ == join_path(a@, b@),
{
    let mut r = crate::state::copy_vec(a);
    if b.len() == 0 {
        return r;
    }
    if a.len() > 0 && a[a.len() - 1] != 47u8 {
        r.push(47u8);
    }
    let ghost head = r@;
    let mut i: usize = 0;
    while i < b.len()
        invariant
            i <= b@.len(),
            r@ == head + b@.subrange(0, i as int),
        decreases b@.len() - i,
    {
        r.push(b[i]);
        i += 1;
        assert(r@ =~= head + b@.subrange(0, i as int));
    }
    assert(b@.subrange(0, b@.len() as int) =~= b@);
    if a.len() == 0 {
        assert(r@ =~= b@);
    }
    r
}

/// Splits a path relative to its root into its top-level subdir and the rest:
/// the part before the first `/` and the part after it. A path with no `/`
/// names a file directly under the root: its subdir is empty and the whole
/// path is the rest.
pub fn split_subdir(rel: &Vec<u8>) -> (r: (Vec<u8>, Vec<u8>))
    ensures
        (forall|k: int| 0 <= k < rel@.len() ==> rel@[k] != 47u8) ==> r.0@ == Seq::<u8>::empty()
            && r.1@ == rel@,
        forall|k: int|
            0 <= k < rel@.len() && rel@[k] == 47u8 && (forall|j: int| 0 <= j < k ==> rel@[j] != 47u8)
                ==> #[trigger] rel@.subrange(0, k) == r.0@ && r.1@ == rel@.subrange(k + 1, rel@.len() as int),
{
    let mut k: usize = 0;
    while k < rel.len() && rel[k] != 47u8
        invariant
            k <= rel@.len(),
            forall|j: int| 0 <= j < k ==> rel@[j] != 47u8,
        decreases rel@.len() - k,
    {
        k += 1;
    }
    if k == rel.len() {
        assert(rel@.subrange(0, rel@.len() as int) =~= rel@);
        return (Vec::new(), crate::state::copy_vec(rel));
    }
    let mut head: Vec<u8> = Vec::new();
    let mut i: usize = 0;
    while i < k
        invariant
            i <= k,
            k < rel@.len(),
            head@ == rel@.subrange(0, i as int),
        decreases k - i,
    {
        head.push(rel[i]);
        i += 1;
    }
    let mut tail: Vec<u8> = Vec::new();
    i = k + 1;
    while i < rel.len()
        invariant
            k + 1 <= i <= rel@.len(),
            tail@ == rel@.subrange(k + 1, i as int),
        decreases rel@.len() - i,
    {
        tail.push(rel[i]);
        i += 1;
    }
    proof {
        assert forall|k2: int|
            0 <= k2 < rel@.len() && rel@[k2] == 47u8 && (forall|j: int| 0 <= j < k2 ==> rel@[j] != 47u8)
            implies #[trigger] rel@.subrange(0, k2) == head@ && tail@ == rel@.subrange(k2 + 1, rel@.len() as int) by {
            if k2 < k {
            } else if k2 > k {
                assert(rel@[k as int] == 47u8);
            }
        }
    }
    (head, tail)
}

impl StateNames {
    /// Each list holds every name once.
    pub open spec fn wf(&self) -> bool {
        &&& distinct(name_seqs(self.roots@))
        &&& distinct(name_seqs(self.subdirs@))
        &&& distinct(name_seqs(self.subpath@))
    }

    /// The full path of a record placed as `e` says.
    pub open spec fn path_of(&self, e: Entry) -> Seq<u8> {
        join_path(
            join_path(self.roots@[e.root_idx as int]@, self.subdirs@[e.subdir_idx as int]@),
            self.subpath@[e.subpath_idx as int]@,
        )
    }

    /// The ids of `e` all name known components.
    pub open spec fn knows(&self, e: Entry) -> bool {
        &&& e.root_idx < self.roots@.len()
        &&& e.subdir_idx < self.subdirs@.len()
        &&& e.subpath_idx < self.subpath@.len()
    }

    pub fn new() -> (r: Self)
        ensures
            r.wf(),
            r.roots@.len() == 0,
            r.subdirs@.len() == 0,
            r.subpath@.len() == 0,
    {
        let r = StateNames { roots: Vec::new(), subdirs: Vec::new(), subpath: Vec::new() };
        assert(name_seqs(r.roots@) =~= Seq::<Seq<u8>>::empty());
        assert(name_seqs(r.subdirs@) =~= Seq::<Seq<u8>>::empty());
        assert(name_seqs(r.subpath@) =~= Seq::<Seq<u8>>::empty());
        r
    }

    /// The id of a root already interned.
    pub fn root_id(&self, path: &Vec<u8>) -> (r: Option<usize>)
        ensures
            match r {
                Some(i) => i < self.roots@.len() && self.roots@[i as int]@ == path@,
                None => !name_seqs(self.roots@).contains(path@),
            },
    {
        let r = position(&self.roots, path);
        proof {
            if r is None && name_seqs(self.roots@).contains(path@) {
                let j = choose|j: int| 0 <= j < self.roots@.len() && name_seqs(self.roots@)[j] == path@;
                assert(self.roots@[j]@ == path@);
            }
        }
        r
    }

    pub fn intern_root(&mut self, path: &Vec<u8>) -> (r: usize)
        requires
            old(self).wf(),
        ensures
            final(self).wf(),
            r < final(self).roots@.len(),
            final(self).roots@[r as int]@ == path@,
            final(self).subdirs == old(self).subdirs,
            final(self).subpath == old(self).subpath,
            name_seqs(old(self).roots@).contains(path@) ==> final(self).roots@ == old(self).roots@,
            !name_seqs(old(self).roots@).contains(path@) ==> name_seqs(final(self).roots@)
                == name_seqs(old(self).roots@).push(path@) && r == old(self).roots@.len(),
    {
        intern(&mut self.roots, path)
    }

    pub fn intern_subdir(&mut self, path: &Vec<u8>) -> (r: usize)
        requires
            old(self).wf(),
        ensures
            final(self).wf(),
            r < final(self).subdirs@.len(),
            final(self).subdirs@[r as int]@ == path@,
            final(self).roots == old(self).roots,
            final(self).subpath == old(self).subpath,
            name_seqs(old(self).subdirs@).contains(path@) ==> final(self).subdirs@ == old(
                self,
            ).subdirs@,
            !name_seqs(old(self).subdirs@).contains(path@) ==> name_seqs(final(self).subdirs@)
                == name_seqs(old(self).subdirs@).push(path@) && r == old(self).subdirs@.len(),
    {
        intern(&mut self.subdirs, path)
    }

    pub fn intern_subpath(&mut self, path: &Vec<u8>) -> (r: usize)
        requires
            old(self).wf(),
        ensures
            final(self).wf(),
            r < final(self).subpath@.len(),
            final(self).subpath@[r as int]@ == path@,
            final(self).roots == old(self).roots,
            final(self).subdirs == old(self).subdirs,
            name_seqs(old(self).subpath@).contains(path@) ==> final(self).subpath@ == old(
                self,
            ).subpath@,
            !name_seqs(old(self).subpath@).contains(path@) ==> name_seqs(final(self).subpath@)
                == name_seqs(old(self).subpath@).push(path@) && r == old(self).subpath@.len(),
    {
        intern(&mut self.subpath, path)
    }

    /// The full path of a record placed as `entry` says: root, subdir and
    /// subpath joined.
    pub fn name(&self, entry: &Entry) -> (r: Vec<u8>)
        requires
            self.knows(*entry),
        ensures
            r@ == self.path_of(*entry),
    {
        let head = join(&self.roots[entry.root_idx], &self.subdirs[entry.subdir_idx]);
        join(&head, &self.subpath[entry.subpath_idx])
    }

    /// A move written as full paths: the same subdir and subpath under the
    /// source root and under the target root.
    pub fn path_move(&self, m: &Move) -> (r: PathMove)
        requires
            self.knows(m.source),
            self.knows(m.target),
        ensures
            r.source@ == self.path_of(m.source),
            r.target@ == self.path_of(m.target),
    {
        PathMove { source: self.name(&m.source), target: self.name(&m.target) }
    }
}

} // verus!
