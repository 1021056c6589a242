use vstd::prelude::*;

use crate::filesystem::{blocks_for, FileSystem};
use crate::inventory::{
    count_at, current_root, in_cell, lemma_size_sum_tally, lemma_tally_add,
    lemma_tally_at_most_len, lemma_tally_ext, lemma_tally_mono, lemma_tally_nonneg,
    lemma_tally_prefix_mono, lemma_tally_term, lemma_tally_update, size_sum, tally, unmoved,
    DeltaEntry, Entry, Inventory,
};

verus! {

/// One placement of every record over the roots, with the free space and
/// per-cell file counts that follow from it.
#[derive(Debug, Clone, PartialEq, Eq, Hash)]
pub struct OverlayState {
    /// Space accounting, indexed by root id.
    pub roots: Vec<FileSystem>,
    /// For each record, the root it was moved to, if it left its origin.
    pub overlay_entries: Vec<Option<DeltaEntry>>,
    /// Number of files of each subdir (outer index) at each root (inner index).
    pub usage: Vec<Vec<u64>>,
}

/// The mathematical value of an [`OverlayState`].
pub struct StateView {
    pub roots: Seq<FileSystem>,
    pub overlay: Seq<Option<DeltaEntry>>,
    pub usage: Seq<Seq<u64>>,
}

impl View for OverlayState {
    type V = StateView;

    open spec fn view(&self) -> StateView {
        StateView {
            roots: self.roots@,
            overlay: self.overlay_entries@,
            usage: self.usage@.map_values(|row: Vec<u64>| row@),
        }
    }
}

/// Blocks that a record takes if it sits at root `r`, with blocks of `bs`
/// bytes there.
pub open spec fn blocks_at(r: usize, bs: u64) -> spec_fn(Entry, usize) -> int {
    |e: Entry, c: usize|
        if c == r {
            blocks_for(bs as int, e.size as int)
        } else {
            0int
        }
}

/// Blocks that the records at root `r` take, with blocks of `bs` bytes.
pub open spec fn occupied(
    entries: Seq<Entry>,
    ov: Seq<Option<DeltaEntry>>,
    r: usize,
    bs: u64,
) -> int {
    tally(entries, ov, entries.len() as int, blocks_at(r, bs))
}

/// The overlay entry that a record moved to root `d` gets: none when `d` is
/// its origin.
pub open spec fn delta_for(e: Entry, d: usize) -> Option<DeltaEntry> {
    if d == e.root_idx {
        None
    } else {
        Some(DeltaEntry { root_idx: d })
    }
}

/// `fs` with `blocks_available` set to `n`.
pub open spec fn with_available(fs: FileSystem, n: int) -> FileSystem {
    FileSystem {
        id: fs.id,
        block_size: fs.block_size,
        blocks_available: n as u64,
        scratch: fs.scratch,
    }
}

impl StateView {
    pub open spec fn root_of(&self, entries: Seq<Entry>, i: int) -> usize {
        current_root(entries[i], self.overlay[i])
    }

    /// No overlay entry names its record's origin root, and each names a root.
    pub open spec fn overlay_elided(&self, entries: Seq<Entry>) -> bool {
        forall|i: int|
            0 <= i < entries.len() ==> match #[trigger] self.overlay[i] {
                Some(d) => d.root_idx < self.roots.len() && d.root_idx != entries[i].root_idx,
                None => true,
            }
    }

    /// Every usage cell holds the number of records of its subdir at its root.
    pub open spec fn usage_matches(&self, entries: Seq<Entry>, n_subdirs: int) -> bool {
        &&& self.usage.len() == n_subdirs
        &&& forall|s: int| 0 <= s < n_subdirs ==> #[trigger] self.usage[s].len() == self.roots.len()
        &&& forall|s: int, r: int|
            0 <= s < n_subdirs && 0 <= r < self.roots.len() ==> #[trigger] self.usage[s][r]
                == count_at(entries, self.overlay, entries.len() as int, s as usize, r as usize)
    }

    /// The free blocks of each root plus the blocks its records take fit a
    /// `u64`, so that moving records out never overflows the count.
    pub open spec fn capacity_fits(&self, entries: Seq<Entry>) -> bool {
        forall|r: int| 0 <= r < self.roots.len() ==> #[trigger] self.capacity(entries, r) <= u64::MAX
    }

    /// Free blocks of root `r` plus the blocks that its records take.
    pub open spec fn capacity(&self, entries: Seq<Entry>, r: int) -> int {
        self.roots[r].blocks_available + occupied(
            entries,
            self.overlay,
            r as usize,
            self.roots[r].block_size,
        )
    }

    pub open spec fn wf(&self, inv: Inventory) -> bool {
        &&& inv.wf()
        &&& inv.roots_below(self.roots.len() as int)
        &&& self.roots.len() <= usize::MAX
        &&& forall|r: int| 0 <= r < self.roots.len() ==> (#[trigger] self.roots[r]).wf()
        &&& self.overlay.len() == inv.entries@.len()
        &&& self.overlay_elided(inv.entries@)
        &&& self.usage_matches(inv.entries@, inv.n_subdirs as int)
        &&& self.capacity_fits(inv.entries@)
    }

    /// Moving record `i` to root `d` is allowed: `d` is another root than the
    /// record's current one, and it has the blocks the record needs.
    pub open spec fn can_move(&self, entries: Seq<Entry>, i: int, d: usize) -> bool {
        &&& 0 <= i < entries.len()
        &&& d < self.roots.len()
        &&& d != self.root_of(entries, i)
        &&& self.roots[d as int].can_hold(entries[i].size)
    }

    /// The state after record `i` moved from its current root to root `d`.
    pub open spec fn apply_move(&self, entries: Seq<Entry>, i: int, d: usize) -> StateView {
        let e = entries[i];
        let c = self.root_of(entries, i);
        let fc = self.roots[c as int];
        let fd = self.roots[d as int];
        let s = e.subdir_idx as int;
        StateView {
            roots: self.roots.update(
                c as int,
                with_available(fc, fc.blocks_available + blocks_for(fc.block_size as int, e.size as int)),
            ).update(
                d as int,
                with_available(fd, fd.blocks_available - blocks_for(fd.block_size as int, e.size as int)),
            ),
            overlay: self.overlay.update(i, delta_for(e, d)),
            usage: self.usage.update(
                s,
                self.usage[s].update(c as int, (self.usage[s][c as int] - 1) as u64).update(
                    d as int,
                    (self.usage[s][d as int] + 1) as u64,
                ),
            ),
        }
    }
}

/// A copy of a vector of plain values.
pub fn copy_vec<T: Copy>(v: &Vec<T>) -> (r: Vec<T>)
    ensures
        r@ == v@,
{
    let mut r: Vec<T> = Vec::new();
    let mut i: usize = 0;
    while i < v.len()
        invariant
            i <= v@.len(),
            r@ == v@.subrange(0, i as int),
        decreases v@.len() - i,
    {
        r.push(v[i]);
        i += 1;
    }
    assert(r@ =~= v@);
    r
}

/// A copy of a table of counts.
pub fn copy_table(t: &Vec<Vec<u64>>) -> (r: Vec<Vec<u64>>)
    ensures
        r@.map_values(|row: Vec<u64>| row@) == t@.map_values(|row: Vec<u64>| row@),
        r@.len() == t@.len(),
{
    let mut r: Vec<Vec<u64>> = Vec::new();
    let mut i: usize = 0;
    while i < t.len()
        invariant
            i <= t@.len(),
            r@.len() == i,
            forall|k: int| 0 <= k < i ==> (#[trigger] r@[k])@ == t@[k]@,
        decreases t@.len() - i,
    {
        r.push(copy_vec(&t[i]));
        i += 1;
    }
    assert(r@.map_values(|row: Vec<u64>| row@) =~= t@.map_values(|row: Vec<u64>| row@));
    r
}

/// Sets cell `(s, r)` of a table to `v`.
fn set_cell(t: &mut Vec<Vec<u64>>, s: usize, r: usize, v: u64)
    requires
        s < old(t)@.len(),
        r < old(t)@[s as int]@.len(),
    ensures
        final(t)@.len() == old(t)@.len(),
        final(t)@.map_values(|row: Vec<u64>| row@) == old(t)@.map_values(|row: Vec<u64>| row@).update(
            s as int,
            old(t)@[s as int]@.update(r as int, v),
        ),
        final(t)@[s as int]@ == old(t)@[s as int]@.update(r as int, v),
        forall|k: int| 0 <= k < old(t)@.len() && k != s ==> #[trigger] final(t)@[k] == old(t)@[k],
{
    let mut row = copy_vec(&t[s]);
    row.set(r, v);
    let ghost before = t@;
    t.set(s, row);
    assert(t@.map_values(|row: Vec<u64>| row@) =~= before.map_values(|row: Vec<u64>| row@).update(
        s as int,
        before[s as int]@.update(r as int, v),
    ));
}

impl OverlayState {
    /// The state in which every record sits at its origin, over the given
    /// roots; `None` when the free blocks of a root plus the blocks that its
    /// files take do not fit a `u64`.
    pub fn new(inv: &Inventory, roots: Vec<FileSystem>) -> (r: Option<OverlayState>)
        requires
            inv.wf(),
            inv.roots_below(roots@.len() as int),
            forall|k: int| 0 <= k < roots@.len() ==> (#[trigger] roots@[k]).wf(),
        ensures
            ({
                let start = unmoved(inv.entries@.len());
                let fits = forall|k: int|
                    0 <= k < roots@.len() ==> #[trigger] roots@[k].blocks_available + occupied(
                        inv.entries@,
                        start,
                        k as usize,
                        roots@[k].block_size,
                    ) <= u64::MAX;
                &&& r.is_some() == fits
                &&& r matches Some(st) ==> {
                    &&& st@.wf(*inv)
                    &&& st@.roots == roots@
                    &&& st@.overlay == start
                }
            }),
    {
        let n = inv.entries.len();
        let nr = roots.len();
        let ghost entries = inv.entries@;
        let mut overlay: Vec<Option<DeltaEntry>> = Vec::new();
        let mut i: usize = 0;
        while i < n
            invariant
                i <= n,
                n == inv.entries@.len(),
                overlay@ == unmoved(i as nat),
            decreases n - i,
        {
            overlay.push(None);
            i += 1;
            assert(overlay@ =~= unmoved(i as nat));
        }
        let ghost start = overlay@;
        // Blocks taken at each root, checked against the free blocks.
        let mut taken: Vec<u64> = Vec::new();
        let mut r: usize = 0;
        while r < nr
            invariant
                r <= nr,
                nr == roots@.len(),
                taken@ == Seq::new(r as nat, |k: int| 0u64),
            decreases nr - r,
        {
            taken.push(0);
            r += 1;
        }
        // Files of each subdir at each root.
        let mut usage: Vec<Vec<u64>> = Vec::new();
        let ns = inv.n_subdirs;
        let mut s: usize = 0;
        while s < ns
            invariant
                s <= ns,
                nr == roots@.len(),
                usage@.len() == s,
                taken@ == Seq::new(nr as nat, |k: int| 0u64),
                forall|k: int|
                    0 <= k < s ==> (#[trigger] usage@[k])@ == Seq::new(nr as nat, |j: int| 0u64),
            decreases ns - s,
        {
            usage.push(copy_vec(&taken));
            s += 1;
        }
        let ghost zero_taken = taken@;
        i = 0;
        while i < n
            invariant
                i <= n,
                n == inv.entries@.len(),
                entries == inv.entries@,
                nr == roots@.len(),
                ns == inv.n_subdirs,
                inv.wf(),
                inv.roots_below(nr as int),
                forall|k: int| 0 <= k < nr ==> (#[trigger] roots@[k]).wf(),
                start.len() == n,
                start == unmoved(n as nat),
                taken@.len() == nr,
                forall|k: int|
                    0 <= k < nr ==> #[trigger] taken@[k] == tally(
                        entries,
                        start,
                        i as int,
                        blocks_at(k as usize, roots@[k].block_size),
                    ),
                forall|k: int| 0 <= k < nr ==> roots@[k].blocks_available + #[trigger] taken@[k] <= u64::MAX,
                usage@.len() == ns,
                forall|k: int| 0 <= k < ns ==> (#[trigger] usage@[k])@.len() == nr,
                forall|k: int, j: int|
                    0 <= k < ns && 0 <= j < nr ==> #[trigger] usage@[k]@[j] == count_at(
                        entries,
                        start,
                        i as int,
                        k as usize,
                        j as usize,
                    ),
                forall|k: int, j: int| 0 <= k < ns && 0 <= j < nr ==> #[trigger] usage@[k]@[j] <= i,
            decreases n - i,
        {
            let e = inv.entries[i];
            let c = e.root_idx;
            let fs = roots[c];
            let room = u64::MAX - fs.blocks_available - taken[c];
            let q = e.size / fs.block_size;
            if q >= room {
                proof {
                    let f = blocks_at(c, roots@[c as int].block_size);
                    assert(taken@[c as int] == tally(entries, start, i as int, f));
                    lemma_tally_prefix_mono(entries, start, (i + 1) as int, n as int, f);
                    assert(tally(entries, start, (i + 1) as int, f) == taken@[c as int] + 1 + q);
                    assert(!(roots@[c as int].blocks_available + occupied(
                        inv.entries@,
                        start,
                        c,
                        roots@[c as int].block_size,
                    ) <= u64::MAX));
                }
                return None;
            }
            taken.set(c, taken[c] + 1 + q);
            let sd = e.subdir_idx;
            let old_count = usage[sd][c];
            set_cell(&mut usage, sd, c, old_count + 1);
            proof {
                assert forall|k: int, j: int| 0 <= k < ns && 0 <= j < nr implies #[trigger] count_at(
                    entries,
                    start,
                    i + 1,
                    k as usize,
                    j as usize,
                ) == count_at(entries, start, i as int, k as usize, j as usize) + if k == sd && j
                    == c {
                    1int
                } else {
                    0int
                } by {
                    assert(start[i as int] == None::<DeltaEntry>);
                }
            }
            i += 1;
        }
        let st = OverlayState { roots, overlay_entries: overlay, usage };
        assert forall|k: int| 0 <= k < nr implies #[trigger] roots@[k].blocks_available + occupied(
            inv.entries@,
            start,
            k as usize,
            roots@[k].block_size,
        ) <= u64::MAX by {
            assert(taken@[k] == occupied(inv.entries@, start, k as usize, roots@[k].block_size));
        }
        assert forall|k: int| 0 <= k < nr implies #[trigger] st@.capacity(inv.entries@, k)
            <= u64::MAX by {
            assert(roots@[k].blocks_available + occupied(
                inv.entries@,
                start,
                k as usize,
                roots@[k].block_size,
            ) <= u64::MAX);
        }
        assert(st@.capacity_fits(inv.entries@));
        assert forall|k: int, j: int| 0 <= k < ns && 0 <= j < nr implies #[trigger] st@.usage[k][j]
            == count_at(inv.entries@, start, n as int, k as usize, j as usize) by {
            assert(st@.usage[k] == usage@[k]@);
        }
        assert(st@.usage_matches(inv.entries@, inv.n_subdirs as int));
        assert(st@.overlay_elided(inv.entries@));
        Some(st)
    }
}

impl OverlayState {
    /// The state after record `entry_idx` moved from its current root to root
    /// `other_root_idx`: the blocks it takes go back to its current root and
    /// are taken from the other, its overlay entry names the other root (none
    /// if that is its origin), and one file of its subdir moves between the
    /// two usage cells.
    pub fn new_state(&self, inv: &Inventory, entry_idx: usize, other_root_idx: usize) -> (r:
        OverlayState)
        requires
            self@.wf(*inv),
            self@.can_move(inv.entries@, entry_idx as int, other_root_idx),
        ensures
            r@ == self@.apply_move(inv.entries@, entry_idx as int, other_root_idx),
            r@.wf(*inv),
    {
        let ghost entries = inv.entries@;
        let ghost n = entries.len() as int;
        let ghost v = self@;
        let i = entry_idx;
        let d = other_root_idx;
        let e = inv.entries[i];
        let c = match self.overlay_entries[i] {
            Some(delta) => delta.root_idx,
            None => e.root_idx,
        };
        let s = e.subdir_idx;
        let ghost new_ov = v.overlay.update(i as int, delta_for(e, d));
        proof {
            let fc = v.roots[c as int];
            let f = blocks_at(c, fc.block_size);
            lemma_tally_term(entries, v.overlay, n, i as int, f);
            assert(f(e, c) == blocks_for(fc.block_size as int, e.size as int));
            assert(v.capacity(entries, c as int) <= u64::MAX);
            let g = in_cell(s, c);
            lemma_tally_term(entries, v.overlay, n, i as int, g);
            assert(g(e, c) == 1);
            let h = in_cell(s, d);
            lemma_tally_update(entries, v.overlay, i as int, delta_for(e, d), n, h);
            lemma_tally_at_most_len(entries, new_ov, n, h);
            assert(h(e, d) == 1);
            assert(h(e, c) == 0);
            assert(usize::MAX <= u64::MAX);
            assert(v.usage[s as int][c as int] >= 1);
            assert(v.usage[s as int][d as int] + 1 <= n);
        }
        let mut roots = copy_vec(&self.roots);
        let fc = roots[c];
        let bc = fc.blocks(e.size);
        roots.set(
            c,
            FileSystem {
                id: fc.id,
                block_size: fc.block_size,
                blocks_available: fc.blocks_available + bc,
                scratch: fc.scratch,
            },
        );
        let fd = roots[d];
        let bd = fd.blocks(e.size);
        roots.set(
            d,
            FileSystem {
                id: fd.id,
                block_size: fd.block_size,
                blocks_available: fd.blocks_available - bd,
                scratch: fd.scratch,
            },
        );
        let mut overlay = copy_vec(&self.overlay_entries);
        if d == e.root_idx {
            overlay.set(i, None);
        } else {
            overlay.set(i, Some(DeltaEntry { root_idx: d }));
        }
        let mut usage = copy_table(&self.usage);
        let uc = usage[s][c];
        set_cell(&mut usage, s, c, uc - 1);
        let ud = usage[s][d];
        assert(ud == v.usage[s as int][d as int]);
        assert(n <= usize::MAX);
        assert(ud + 1 <= u64::MAX);
        set_cell(&mut usage, s, d, ud + 1);
        let r = OverlayState { roots, overlay_entries: overlay, usage };
        proof {
            let w = v.apply_move(entries, i as int, d);
            assert(r@.roots =~= w.roots);
            assert(r@.overlay =~= w.overlay);
            assert(r@.usage =~= w.usage);
            lemma_move_keeps_wf(v, *inv, i as int, d);
        }
        r
    }
}

/// A legal move keeps a state well formed.
pub proof fn lemma_move_keeps_wf(v: StateView, inv: Inventory, i: int, d: usize)
    requires
        v.wf(inv),
        v.can_move(inv.entries@, i, d),
    ensures
        v.apply_move(inv.entries@, i, d).wf(inv),
{
    let entries = inv.entries@;
    let n = entries.len() as int;
    let e = entries[i];
    let c = v.root_of(entries, i);
    let s = e.subdir_idx;
    let w = v.apply_move(entries, i, d);
    let o = delta_for(e, d);
    assert(w.overlay == v.overlay.update(i, o));
    assert(current_root(e, o) == d);
    let g = in_cell(s, c);
    lemma_tally_term(entries, v.overlay, n, i, g);
    assert(g(e, c) == 1);
    let h = in_cell(s, d);
    lemma_tally_update(entries, v.overlay, i, o, n, h);
    lemma_tally_at_most_len(entries, w.overlay, n, h);
    assert(h(e, d) == 1);
    assert(h(e, c) == 0);
    assert(n <= usize::MAX);
    assert(usize::MAX <= u64::MAX);
    assert(v.usage[s as int][c as int] >= 1);
    assert(v.usage[s as int][d as int] + 1 <= u64::MAX);
    assert forall|r: int| 0 <= r < w.roots.len() implies (#[trigger] w.roots[r]).wf() by {
        assert(v.roots[r].wf());
    }
    // Overlay entries.
    assert forall|k: int| 0 <= k < entries.len() implies match #[trigger] w.overlay[k] {
        Some(dl) => dl.root_idx < w.roots.len() && dl.root_idx != entries[k].root_idx,
        None => true,
    } by {
        if k != i {
            assert(w.overlay[k] == v.overlay[k]);
        }
    }
    // Usage counts.
    assert forall|s2: int, r2: int|
        0 <= s2 < inv.n_subdirs && 0 <= r2 < w.roots.len() implies #[trigger] w.usage[s2][r2]
        == count_at(entries, w.overlay, n, s2 as usize, r2 as usize) by {
        let f = in_cell(s2 as usize, r2 as usize);
        lemma_tally_update(entries, v.overlay, i, o, n, f);
        assert(v.usage[s2][r2] == count_at(entries, v.overlay, n, s2 as usize, r2 as usize));
        assert(f(e, d) == if s == s2 && d == r2 {
            1int
        } else {
            0int
        });
        assert(f(e, c) == if s == s2 && c == r2 {
            1int
        } else {
            0int
        });
    }
    assert forall|s2: int| 0 <= s2 < inv.n_subdirs implies #[trigger] w.usage[s2].len()
        == w.roots.len() by {
        assert(v.usage[s2].len() == v.roots.len());
    }
    assert(w.usage_matches(entries, inv.n_subdirs as int));
    // Block capacity.
    assert forall|r: int| 0 <= r < w.roots.len() implies #[trigger] w.capacity(entries, r)
        <= u64::MAX by {
        let f = blocks_at(r as usize, v.roots[r].block_size);
        lemma_tally_update(entries, v.overlay, i, o, n, f);
        assert(v.capacity(entries, r) <= u64::MAX);
        assert(w.roots[r].block_size == v.roots[r].block_size);
        assert(f(e, d) == if d == r {
            blocks_for(v.roots[r].block_size as int, e.size as int)
        } else {
            0int
        });
        assert(f(e, c) == if c == r {
            blocks_for(v.roots[r].block_size as int, e.size as int)
        } else {
            0int
        });
        if r == c as int {
            lemma_tally_term(entries, v.overlay, n, i, f);
        }
    }
    assert(w.capacity_fits(entries));
}

/// Bytes that a record counts for subdir `s`, wherever it sits.
pub open spec fn in_subdir(s: usize) -> spec_fn(Entry, usize) -> int {
    |e: Entry, c: usize|
        if e.subdir_idx == s {
            e.size as int
        } else {
            0int
        }
}

/// Bytes that a record counts for subdir `s` at root `r`.
pub open spec fn bytes_in_cell(s: usize, r: usize) -> spec_fn(Entry, usize) -> int {
    |e: Entry, c: usize|
        if e.subdir_idx == s && c == r {
            e.size as int
        } else {
            0int
        }
}

impl StateView {
    /// Bytes of subdir `s` over all roots.
    pub open spec fn subdir_total(&self, entries: Seq<Entry>, s: usize) -> int {
        tally(entries, self.overlay, entries.len() as int, in_subdir(s))
    }

    /// Bytes of subdir `s` at root `r`.
    pub open spec fn held_at(&self, entries: Seq<Entry>, s: usize, r: usize) -> int {
        tally(entries, self.overlay, entries.len() as int, bytes_in_cell(s, r))
    }

    /// Least number of bytes of subdir `s` that lie outside one of the first
    /// `k` roots, over those that are not scratchpads; all of the subdir's
    /// bytes when there is no such root.
    pub open spec fn gap_upto(&self, entries: Seq<Entry>, s: usize, k: int) -> int
        decreases k,
    {
        if k <= 0 {
            self.subdir_total(entries, s)
        } else {
            let m = self.gap_upto(entries, s, k - 1);
            if self.roots[k - 1].scratch {
                m
            } else {
                let g = self.subdir_total(entries, s) - self.held_at(entries, s, (k - 1) as usize);
                if g < m {
                    g
                } else {
                    m
                }
            }
        }
    }

    /// Bytes of subdir `s` that must still move before they share one
    /// non-scratchpad root.
    pub open spec fn gap(&self, entries: Seq<Entry>, s: usize) -> int {
        self.gap_upto(entries, s, self.roots.len() as int)
    }

    /// Sum of the gaps of the first `k` subdirs.
    pub open spec fn gap_sum(&self, entries: Seq<Entry>, k: int) -> int
        decreases k,
    {
        if k <= 0 {
            0
        } else {
            self.gap_sum(entries, k - 1) + self.gap(entries, (k - 1) as usize)
        }
    }

    /// The heuristic: a lower bound on the bytes still to move.
    pub open spec fn heuristic(&self, inv: Inventory) -> int {
        self.gap_sum(inv.entries@, inv.n_subdirs as int)
    }

    /// Goal: no scratchpad root holds a file, and no subdir has files at two
    /// roots.
    pub open spec fn is_goal(&self, n_subdirs: int) -> bool {
        &&& forall|s: int, r: int|
            0 <= s < n_subdirs && 0 <= r < self.roots.len() && self.roots[r].scratch
                ==> #[trigger] self.usage[s][r] == 0
        &&& forall|s: int, r1: int, r2: int|
            0 <= s < n_subdirs && 0 <= r1 < self.roots.len() && 0 <= r2 < self.roots.len()
                && #[trigger] self.usage[s][r1] > 0 && #[trigger] self.usage[s][r2] > 0 ==> r1 == r2
    }
}

/// Sum of the bytes of the subdirs below `k`.
pub open spec fn subdirs_below(k: usize) -> spec_fn(Entry, usize) -> int {
    |e: Entry, c: usize|
        if e.subdir_idx < k {
            e.size as int
        } else {
            0int
        }
}

impl OverlayState {
    /// Whether this state is a goal: every scratchpad root is empty and each
    /// subdir has files at one root at most.
    pub fn success(&self) -> (r: bool)
        requires
            forall|s: int| 0 <= s < self.usage@.len() ==> #[trigger] self.usage@[s]@.len() == self.roots@.len(),
        ensures
            r == self@.is_goal(self.usage@.len() as int),
    {
        let ghost v = self@;
        let ns = self.usage.len();
        let nr = self.roots.len();
        let mut s: usize = 0;
        while s < ns
            invariant
                s <= ns,
                ns == self.usage@.len(),
                nr == self.roots@.len(),
                v == self@,
                forall|k: int| 0 <= k < ns ==> #[trigger] self.usage@[k]@.len() == nr,
                forall|s2: int, r: int|
                    0 <= s2 < s && 0 <= r < nr && v.roots[r].scratch ==> #[trigger] v.usage[s2][r]
                        == 0,
                forall|s2: int, r1: int, r2: int|
                    0 <= s2 < s && 0 <= r1 < nr && 0 <= r2 < nr && #[trigger] v.usage[s2][r1] > 0
                        && #[trigger] v.usage[s2][r2] > 0 ==> r1 == r2,
            decreases ns - s,
        {
            let row = &self.usage[s];
            assert(row@ == v.usage[s as int]);
            let mut found: Option<usize> = None;
            let mut r: usize = 0;
            while r < nr
                invariant
                    r <= nr,
                    s < ns,
                    row@.len() == nr,
                    row@ == v.usage[s as int],
                    nr == self.roots@.len(),
                    ns == self.usage@.len(),
                    v == self@,
                    forall|r1: int| 0 <= r1 < r && v.roots[r1].scratch ==> #[trigger] row@[r1] == 0,
                    match found {
                        Some(f) => f < r && row@[f as int] > 0 && forall|r1: int|
                            0 <= r1 < r && #[trigger] row@[r1] > 0 ==> r1 == f,
                        None => forall|r1: int| 0 <= r1 < r ==> #[trigger] row@[r1] == 0,
                    },
                decreases nr - r,
            {
                if row[r] > 0 {
                    assert(v.usage[s as int][r as int] > 0);
                    if self.roots[r].scratch {
                        return false;
                    }
                    match found {
                        Some(f) => {
                            assert(v.usage[s as int][f as int] > 0);
                            return false;
                        },
                        None => {},
                    }
                    found = Some(r);
                }
                r += 1;
            }
            s += 1;
        }
        true
    }
}

/// Bytes of a record, wherever it sits.
pub open spec fn record_bytes() -> spec_fn(Entry, usize) -> int {
    |e: Entry, c: usize| e.size as int
}

/// The bytes of one subdir at one root are at most those of the subdir, which
/// are at most those of all records.
pub proof fn lemma_subdir_bounds(
    entries: Seq<Entry>,
    ov: Seq<Option<DeltaEntry>>,
    k: int,
    s: usize,
    r: usize,
)
    requires
        0 <= k <= entries.len(),
    ensures
        0 <= tally(entries, ov, k, bytes_in_cell(s, r)),
        tally(entries, ov, k, bytes_in_cell(s, r)) <= tally(entries, ov, k, in_subdir(s)),
        tally(entries, ov, k, in_subdir(s)) <= size_sum(entries, entries.len() as int),
{
    let n = entries.len() as int;
    let fr = bytes_in_cell(s, r);
    let fs = in_subdir(s);
    let fa = record_bytes();
    assert forall|e: Entry, c: usize| #[trigger] fr(e, c) >= 0 by {}
    lemma_tally_nonneg(entries, ov, k, fr);
    assert forall|e: Entry, c: usize| #[trigger] fr(e, c) <= #[trigger] fs(e, c) by {}
    lemma_tally_mono(entries, ov, k, fr, fs);
    assert forall|e: Entry, c: usize| #[trigger] fs(e, c) <= #[trigger] fa(e, c) by {}
    lemma_tally_mono(entries, ov, k, fs, fa);
    assert forall|e: Entry, c: usize| #[trigger] fa(e, c) >= 0 by {}
    lemma_tally_prefix_mono(entries, ov, k, n, fa);
    lemma_size_sum_tally(entries, ov, n);
    lemma_tally_ext(entries, ov, n, fa, |e: Entry, c: usize| e.size as int);
}

/// The bytes of the subdirs below `k`, then below `k + 1`.
pub proof fn lemma_subdirs_below_step(entries: Seq<Entry>, ov: Seq<Option<DeltaEntry>>, n: int, k: usize)
    requires
        k < usize::MAX,
    ensures
        tally(entries, ov, n, subdirs_below(k)) + tally(entries, ov, n, in_subdir(k)) == tally(
            entries,
            ov,
            n,
            subdirs_below((k + 1) as usize),
        ),
{
    let f = subdirs_below(k);
    let g = in_subdir(k);
    lemma_tally_add(entries, ov, n, f, g);
    let h = |e: Entry, c: usize| f(e, c) + g(e, c);
    let b = subdirs_below((k + 1) as usize);
    assert forall|e: Entry, c: usize| #[trigger] h(e, c) == #[trigger] b(e, c) by {}
    lemma_tally_ext(entries, ov, n, h, b);
}

/// The bytes of all subdirs below `k` are at most those of all records.
pub proof fn lemma_subdirs_below_bounded(entries: Seq<Entry>, ov: Seq<Option<DeltaEntry>>, k: usize)
    ensures
        tally(entries, ov, entries.len() as int, subdirs_below(k)) <= size_sum(
            entries,
            entries.len() as int,
        ),
{
    let n = entries.len() as int;
    let f = subdirs_below(k);
    let fa = record_bytes();
    assert forall|e: Entry, c: usize| #[trigger] f(e, c) <= #[trigger] fa(e, c) by {}
    lemma_tally_mono(entries, ov, n, f, fa);
    lemma_size_sum_tally(entries, ov, n);
    lemma_tally_ext(entries, ov, n, fa, |e: Entry, c: usize| e.size as int);
}

impl StateView {
    /// A gap is between zero and the bytes of its subdir.
    pub proof fn lemma_gap_bounds(&self, entries: Seq<Entry>, s: usize, k: int)
        requires
            0 <= k <= self.roots.len(),
            self.overlay.len() == entries.len(),
        ensures
            0 <= self.gap_upto(entries, s, k) <= self.subdir_total(entries, s),
        decreases k,
    {
        let n = entries.len() as int;
        lemma_subdir_bounds(entries, self.overlay, n, s, 0);
        if k > 0 {
            self.lemma_gap_bounds(entries, s, k - 1);
            lemma_subdir_bounds(entries, self.overlay, n, s, (k - 1) as usize);
        }
    }
}

impl OverlayState {
    /// Bytes of subdir `s` over all roots, and at each root.
    fn subdir_bytes(&self, inv: &Inventory, s: usize) -> (r: (u64, Vec<u64>))
        requires
            self@.wf(*inv),
        ensures
            r.0 == self@.subdir_total(inv.entries@, s),
            r.1@.len() == self.roots@.len(),
            forall|k: int| 0 <= k < self.roots@.len() ==> #[trigger] r.1@[k] == self@.held_at(inv.entries@, s, k as usize),
    {
        let ghost entries = inv.entries@;
        let ghost ov = self.overlay_entries@;
        let n = inv.entries.len();
        let nr = self.roots.len();
        let mut per_root: Vec<u64> = Vec::new();
        let mut r: usize = 0;
        while r < nr
            invariant
                r <= nr,
                per_root@ == Seq::new(r as nat, |k: int| 0u64),
            decreases nr - r,
        {
            per_root.push(0);
            r += 1;
        }
        let mut t: u64 = 0;
        let mut i: usize = 0;
        while i < n
            invariant
                i <= n,
                n == entries.len(),
                entries == inv.entries@,
                ov == self.overlay_entries@,
                nr == self.roots@.len(),
                self@.wf(*inv),
                t == tally(entries, ov, i as int, in_subdir(s)),
                per_root@.len() == nr,
                forall|k: int| 0 <= k < nr ==> #[trigger] per_root@[k] == tally(entries, ov, i as int, bytes_in_cell(s, k as usize)),
            decreases n - i,
        {
            let e = inv.entries[i];
            let c = match self.overlay_entries[i] {
                Some(delta) => delta.root_idx,
                None => e.root_idx,
            };
            proof {
                lemma_subdir_bounds(entries, ov, (i + 1) as int, s, c);
                assert(self@.overlay_elided(entries));
                assert(ov[i as int] == self@.overlay[i as int]);
            }
            if e.subdir_idx == s {
                t = t + e.size;
                per_root.set(c, per_root[c] + e.size);
            }
            i += 1;
        }
        (t, per_root)
    }

    /// Least bytes of subdir `s` outside a single non-scratchpad root.
    fn gap(&self, inv: &Inventory, s: usize) -> (r: u64)
        requires
            self@.wf(*inv),
        ensures
            r == self@.gap(inv.entries@, s),
    {
        let (t, per_root) = self.subdir_bytes(inv, s);
        let nr = self.roots.len();
        let mut best = t;
        let mut r: usize = 0;
        while r < nr
            invariant
                r <= nr,
                nr == self.roots@.len(),
                self@.wf(*inv),
                t == self@.subdir_total(inv.entries@, s),
                per_root@.len() == nr,
                forall|k: int| 0 <= k < nr ==> #[trigger] per_root@[k] == self@.held_at(inv.entries@, s, k as usize),
                best == self@.gap_upto(inv.entries@, s, r as int),
            decreases nr - r,
        {
            proof {
                lemma_subdir_bounds(inv.entries@, self@.overlay, inv.entries@.len() as int, s, r);
            }
            if !self.roots[r].scratch {
                let g = t - per_root[r];
                if g < best {
                    best = g;
                }
            }
            r += 1;
        }
        best
    }

    /// The heuristic: over all subdirs, the bytes that lie outside the one
    /// non-scratchpad root that holds most of that subdir.
    pub fn heuristic(&self, inv: &Inventory) -> (r: u128)
        requires
            self@.wf(*inv),
        ensures
            r == self@.heuristic(*inv),
    {
        let ghost entries = inv.entries@;
        let ns = inv.n_subdirs;
        let mut total: u64 = 0;
        let mut s: usize = 0;
        proof {
            let f = subdirs_below(0);
            assert forall|e: Entry, c: usize| #[trigger] f(e, c) >= 0 by {}
            lemma_tally_nonneg(entries, self@.overlay, entries.len() as int, f);
        }
        while s < ns
            invariant
                s <= ns,
                ns == inv.n_subdirs,
                entries == inv.entries@,
                self@.wf(*inv),
                total == self@.gap_sum(entries, s as int),
                total <= tally(entries, self@.overlay, entries.len() as int, subdirs_below(s)),
            decreases ns - s,
        {
            let g = self.gap(inv, s);
            proof {
                self@.lemma_gap_bounds(entries, s, self@.roots.len() as int);
                lemma_subdirs_below_step(entries, self@.overlay, entries.len() as int, s);
                lemma_subdirs_below_bounded(entries, self@.overlay, (s + 1) as usize);
            }
            total = total + g;
            s += 1;
        }
        total as u128
    }
}

impl OverlayState {
    /// In a well-formed state each usage row has one cell per root.
    pub proof fn lemma_rows(&self, inv: Inventory)
        requires
            self@.wf(inv),
        ensures
            self.usage@.len() == inv.n_subdirs,
            forall|s: int| 0 <= s < self.usage@.len() ==> #[trigger] self.usage@[s]@.len() == self.roots@.len(),
    {
        assert forall|s: int| 0 <= s < self.usage@.len() implies #[trigger] self.usage@[s]@.len() == self.roots@.len() by {
            assert(self@.usage[s] == self.usage@[s]@);
        }
    }

    /// The root record `i` currently sits at.
    pub fn root_of(&self, inv: &Inventory, i: usize) -> (r: usize)
        requires
            self@.wf(*inv),
            i < inv.entries@.len(),
        ensures
            r == self@.root_of(inv.entries@, i as int),
    {
        match self.overlay_entries[i] {
            Some(delta) => delta.root_idx,
            None => inv.entries[i].root_idx,
        }
    }
}

} // verus!
