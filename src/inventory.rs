use vstd::prelude::*;

verus! {

/// One file found by a scan: its size and where it was found, as ids of the
/// name interner.
#[derive(Debug, Clone, Copy, PartialEq, Eq, Hash)]
pub struct Entry {
    pub size: u64,
    pub root_idx: usize,
    pub subdir_idx: usize,
    pub subpath_idx: usize,
}

/// The root a record has been moved to, for records that left their origin.
#[derive(Debug, Clone, Copy, PartialEq, Eq, Hash)]
pub struct DeltaEntry {
    pub root_idx: usize,
}

impl Entry {
    pub fn new(root_idx: usize, subdir_idx: usize, subpath_idx: usize, size: u64) -> (r: Self)
        ensures
            r == (Entry { size, root_idx, subdir_idx, subpath_idx }),
    {
        Entry { size, root_idx, subdir_idx, subpath_idx }
    }
}

/// The root a record currently sits at: its overlay entry if it has one,
/// else its origin.
pub open spec fn current_root(e: Entry, o: Option<DeltaEntry>) -> usize {
    match o {
        Some(d) => d.root_idx,
        None => e.root_idx,
    }
}

/// Sum of `f(record, current root)` over the first `n` records.
pub open spec fn tally(
    entries: Seq<Entry>,
    ov: Seq<Option<DeltaEntry>>,
    n: int,
    f: spec_fn(Entry, usize) -> int,
) -> int
    decreases n,
{
    if n <= 0 {
        0
    } else {
        tally(entries, ov, n - 1, f) + f(entries[n - 1], current_root(entries[n - 1], ov[n - 1]))
    }
}

/// The overlay in which no record has moved.
pub open spec fn unmoved(n: nat) -> Seq<Option<DeltaEntry>> {
    Seq::new(n, |i: int| None)
}

/// Counts the records of subdir `s` at root `r`.
pub open spec fn in_cell(s: usize, r: usize) -> spec_fn(Entry, usize) -> int {
    |e: Entry, c: usize|
        if e.subdir_idx == s && c == r {
            1int
        } else {
            0int
        }
}

/// Number of the first `n` records of subdir `s` that sit at root `r`.
pub open spec fn count_at(
    entries: Seq<Entry>,
    ov: Seq<Option<DeltaEntry>>,
    n: int,
    s: usize,
    r: usize,
) -> int {
    tally(entries, ov, n, in_cell(s, r))
}

/// Bytes of the first `n` records.
pub open spec fn size_sum(entries: Seq<Entry>, n: int) -> int
    decreases n,
{
    if n <= 0 {
        0
    } else {
        size_sum(entries, n - 1) + entries[n - 1].size
    }
}

/// The inventory: every file found by the scans, fixed once scanning ends.
#[derive(Debug, Clone)]
pub struct Inventory {
    pub entries: Vec<Entry>,
    /// One more than the largest subdir id of any record.
    pub n_subdirs: usize,
    /// Bytes of all records.
    pub total_size: u64,
}

impl Inventory {
    pub open spec fn wf(&self) -> bool {
        &&& forall|i: int|
            0 <= i < self.entries@.len() ==> #[trigger] self.entries@[i].subdir_idx
                < self.n_subdirs
        &&& self.total_size == size_sum(self.entries@, self.entries@.len() as int)
        &&& self.entries@.len() <= usize::MAX
    }

    /// Every record names a root among the first `n_roots`.
    pub open spec fn roots_below(&self, n_roots: int) -> bool {
        forall|i: int|
            0 <= i < self.entries@.len() ==> #[trigger] self.entries@[i].root_idx < n_roots
    }

    pub fn new() -> (r: Self)
        ensures
            r.wf(),
            r.entries@.len() == 0,
            r.n_subdirs == 0,
    {
        Inventory { entries: Vec::new(), n_subdirs: 0, total_size: 0 }
    }

    /// Records a file of `size` bytes found under root `root_idx`, subdir
    /// `subdir_idx`, with the rest of its path `subpath_idx`.
    pub fn add_entry(&mut self, root_idx: usize, subdir_idx: usize, subpath_idx: usize, size: u64)
        requires
            old(self).wf(),
            old(self).total_size + size <= u64::MAX,
            subdir_idx < usize::MAX,
        ensures
            final(self).wf(),
            final(self).entries@ == old(self).entries@.push(
                Entry { size, root_idx, subdir_idx, subpath_idx },
            ),
            final(self).n_subdirs == if subdir_idx < old(self).n_subdirs {
                old(self).n_subdirs
            } else {
                (subdir_idx + 1) as usize
            },
            final(self).total_size == old(self).total_size + size,
    {
        let ghost before = self.entries@;
        self.entries.push(Entry { size, root_idx, subdir_idx, subpath_idx });
        self.total_size = self.total_size + size;
        if subdir_idx >= self.n_subdirs {
            self.n_subdirs = subdir_idx + 1;
        }
        let len = self.entries.len();
        assert(len == self.entries@.len());
        proof {
            let n = self.entries@.len() as int;
            assert(self.entries@.subrange(0, n - 1) =~= before);
            lemma_size_sum_prefix(self.entries@, before, n - 1);
        }
    }
}

/// Sums over a prefix depend on that prefix alone.
pub proof fn lemma_size_sum_prefix(a: Seq<Entry>, b: Seq<Entry>, n: int)
    requires
        0 <= n <= a.len(),
        n <= b.len(),
        forall|i: int| 0 <= i < n ==> a[i] == b[i],
    ensures
        size_sum(a, n) == size_sum(b, n),
    decreases n,
{
    if n > 0 {
        lemma_size_sum_prefix(a, b, n - 1);
    }
}

/// Changing one record's placement changes a tally by that record's terms.
pub proof fn lemma_tally_update(
    entries: Seq<Entry>,
    ov: Seq<Option<DeltaEntry>>,
    j: int,
    o: Option<DeltaEntry>,
    n: int,
    f: spec_fn(Entry, usize) -> int,
)
    requires
        0 <= j < ov.len(),
        n <= ov.len(),
        n <= entries.len(),
    ensures
        tally(entries, ov.update(j, o), n, f) == tally(entries, ov, n, f) + if j < n {
            f(entries[j], current_root(entries[j], o)) - f(
                entries[j],
                current_root(entries[j], ov[j]),
            )
        } else {
            0
        },
    decreases n,
{
    if n > 0 {
        lemma_tally_update(entries, ov, j, o, n - 1, f);
    }
}

/// Tallies are monotone in the summed function.
pub proof fn lemma_tally_mono(
    entries: Seq<Entry>,
    ov: Seq<Option<DeltaEntry>>,
    n: int,
    f: spec_fn(Entry, usize) -> int,
    g: spec_fn(Entry, usize) -> int,
)
    requires
        forall|e: Entry, c: usize| #[trigger] f(e, c) <= #[trigger] g(e, c),
    ensures
        tally(entries, ov, n, f) <= tally(entries, ov, n, g),
    decreases n,
{
    if n > 0 {
        lemma_tally_mono(entries, ov, n - 1, f, g);
    }
}

/// Tallies of pointwise equal functions are equal.
pub proof fn lemma_tally_ext(
    entries: Seq<Entry>,
    ov: Seq<Option<DeltaEntry>>,
    n: int,
    f: spec_fn(Entry, usize) -> int,
    g: spec_fn(Entry, usize) -> int,
)
    requires
        forall|e: Entry, c: usize| #[trigger] f(e, c) == #[trigger] g(e, c),
    ensures
        tally(entries, ov, n, f) == tally(entries, ov, n, g),
    decreases n,
{
    if n > 0 {
        lemma_tally_ext(entries, ov, n - 1, f, g);
    }
}

/// The tally of a sum is the sum of the tallies.
pub proof fn lemma_tally_add(
    entries: Seq<Entry>,
    ov: Seq<Option<DeltaEntry>>,
    n: int,
    f: spec_fn(Entry, usize) -> int,
    g: spec_fn(Entry, usize) -> int,
)
    ensures
        tally(entries, ov, n, |e: Entry, c: usize| f(e, c) + g(e, c)) == tally(entries, ov, n, f)
            + tally(entries, ov, n, g),
    decreases n,
{
    if n > 0 {
        lemma_tally_add(entries, ov, n - 1, f, g);
    }
}

/// With no negative terms, a tally is at least any one of its terms.
pub proof fn lemma_tally_term(
    entries: Seq<Entry>,
    ov: Seq<Option<DeltaEntry>>,
    n: int,
    j: int,
    f: spec_fn(Entry, usize) -> int,
)
    requires
        0 <= j < n,
        forall|e: Entry, c: usize| #[trigger] f(e, c) >= 0,
    ensures
        tally(entries, ov, n, f) >= f(entries[j], current_root(entries[j], ov[j])),
        tally(entries, ov, n, f) >= 0,
    decreases n,
{
    if n - 1 > j {
        lemma_tally_term(entries, ov, n - 1, j, f);
    } else {
        lemma_tally_nonneg(entries, ov, n - 1, f);
    }
}

/// With no negative terms, a longer prefix tallies to at least as much.
pub proof fn lemma_tally_prefix_mono(
    entries: Seq<Entry>,
    ov: Seq<Option<DeltaEntry>>,
    m: int,
    n: int,
    f: spec_fn(Entry, usize) -> int,
)
    requires
        0 <= m <= n,
        forall|e: Entry, c: usize| #[trigger] f(e, c) >= 0,
    ensures
        tally(entries, ov, m, f) <= tally(entries, ov, n, f),
    decreases n - m,
{
    if m < n {
        lemma_tally_prefix_mono(entries, ov, m, n - 1, f);
    }
}

/// A tally of terms of at most one is at most the number of records.
pub proof fn lemma_tally_at_most_len(
    entries: Seq<Entry>,
    ov: Seq<Option<DeltaEntry>>,
    n: int,
    f: spec_fn(Entry, usize) -> int,
)
    requires
        0 <= n,
        forall|e: Entry, c: usize| #[trigger] f(e, c) <= 1,
    ensures
        tally(entries, ov, n, f) <= n,
    decreases n,
{
    if n > 0 {
        lemma_tally_at_most_len(entries, ov, n - 1, f);
    }
}

/// Tallies of functions that agree on every record where it sits are equal.
pub proof fn lemma_tally_agree(
    entries: Seq<Entry>,
    ov: Seq<Option<DeltaEntry>>,
    n: int,
    f: spec_fn(Entry, usize) -> int,
    g: spec_fn(Entry, usize) -> int,
)
    requires
        forall|i: int|
            0 <= i < n ==> #[trigger] f(entries[i], current_root(entries[i], ov[i])) == g(
                entries[i],
                current_root(entries[i], ov[i]),
            ),
    ensures
        tally(entries, ov, n, f) == tally(entries, ov, n, g),
    decreases n,
{
    if n > 0 {
        lemma_tally_agree(entries, ov, n - 1, f, g);
    }
}

/// With no negative terms, a tally is not negative.
pub proof fn lemma_tally_nonneg(
    entries: Seq<Entry>,
    ov: Seq<Option<DeltaEntry>>,
    n: int,
    f: spec_fn(Entry, usize) -> int,
)
    requires
        forall|e: Entry, c: usize| #[trigger] f(e, c) >= 0,
    ensures
        tally(entries, ov, n, f) >= 0,
    decreases n,
{
    if n > 0 {
        lemma_tally_nonneg(entries, ov, n - 1, f);
    }
}

/// The size of every record is a tally.
pub proof fn lemma_size_sum_tally(entries: Seq<Entry>, ov: Seq<Option<DeltaEntry>>, n: int)
    ensures
        size_sum(entries, n) == tally(entries, ov, n, |e: Entry, c: usize| e.size as int),
    decreases n,
{
    if n > 0 {
        lemma_size_sum_tally(entries, ov, n - 1);
    }
}

} // verus!
