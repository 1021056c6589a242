use vstd::prelude::*;

use crate::inventory::{Entry, Inventory};
use crate::state::{OverlayState, StateView};

verus! {

impl StateView {
    /// The roots below `k` that record `i` may move to, in increasing order.
    pub open spec fn dests_upto(&self, entries: Seq<Entry>, i: int, k: int) -> Seq<usize>
        decreases k,
    {
        if k <= 0 {
            seq![]
        } else {
            let p = self.dests_upto(entries, i, k - 1);
            if self.can_move(entries, i, (k - 1) as usize) {
                p.push((k - 1) as usize)
            } else {
                p
            }
        }
    }

    /// The legal moves of the first `m` records, by record and then by root.
    pub open spec fn moves_upto(&self, entries: Seq<Entry>, m: int) -> Seq<(int, usize)>
        decreases m,
    {
        if m <= 0 {
            seq![]
        } else {
            self.moves_upto(entries, m - 1) + self.dests_upto(
                entries,
                m - 1,
                self.roots.len() as int,
            ).map_values(|d: usize| (m - 1, d))
        }
    }

    /// The legal moves that come before record `i` going to root `k`.
    pub open spec fn moves_before(&self, entries: Seq<Entry>, i: int, k: int) -> Seq<(int, usize)> {
        self.moves_upto(entries, i) + self.dests_upto(entries, i, k).map_values(|d: usize| (i, d))
    }

    /// Every legal move from this state, in the order the successor generator
    /// emits them.
    pub open spec fn legal_moves(&self, entries: Seq<Entry>) -> Seq<(int, usize)> {
        self.moves_upto(entries, entries.len() as int)
    }

    /// `res` holds, in order, the states and costs of the moves `ms`.
    pub open spec fn lists_moves(
        &self,
        entries: Seq<Entry>,
        res: Seq<(OverlayState, u128)>,
        ms: Seq<(int, usize)>,
    ) -> bool {
        &&& res.len() == ms.len()
        &&& forall|k: int|
            0 <= k < ms.len() ==> {
                &&& (#[trigger] res[k]).0@ == self.apply_move(entries, ms[k].0, ms[k].1)
                &&& res[k].1 == entries[ms[k].0].size
            }
    }

    /// Every listed move is legal.
    pub proof fn lemma_moves_legal(&self, entries: Seq<Entry>, m: int)
        ensures
            forall|j: int|
                0 <= j < self.moves_upto(entries, m).len() ==> self.can_move(
                    entries,
                    #[trigger] self.moves_upto(entries, m)[j].0,
                    self.moves_upto(entries, m)[j].1,
                ),
        decreases m,
    {
        if m > 0 {
            self.lemma_moves_legal(entries, m - 1);
            self.lemma_dests_legal(entries, m - 1, self.roots.len() as int);
            let pre = self.moves_upto(entries, m - 1);
            let dd = self.dests_upto(entries, m - 1, self.roots.len() as int);
            let mu = self.moves_upto(entries, m);
            assert forall|j: int| 0 <= j < mu.len() implies self.can_move(
                entries,
                #[trigger] mu[j].0,
                mu[j].1,
            ) by {
                if j < pre.len() {
                    assert(mu[j] == pre[j]);
                } else {
                    assert(mu[j] == (m - 1, dd[j - pre.len()]));
                }
            }
        }
    }

    /// Every listed destination is legal.
    pub proof fn lemma_dests_legal(&self, entries: Seq<Entry>, i: int, k: int)
        ensures
            forall|j: int|
                0 <= j < self.dests_upto(entries, i, k).len() ==> self.can_move(
                    entries,
                    i,
                    #[trigger] self.dests_upto(entries, i, k)[j],
                ),
        decreases k,
    {
        if k > 0 {
            self.lemma_dests_legal(entries, i, k - 1);
            let p = self.dests_upto(entries, i, k - 1);
            let dd = self.dests_upto(entries, i, k);
            assert forall|j: int| 0 <= j < dd.len() implies self.can_move(
                entries,
                i,
                #[trigger] dd[j],
            ) by {
                if j < p.len() {
                    assert(dd[j] == p[j]);
                }
            }
        }
    }
}

impl OverlayState {
    /// Every state one legal move away, with the bytes the move copies as its
    /// cost: records in order, and for each record the roots in order.
    pub fn successors(&self, inv: &Inventory) -> (r: Vec<(OverlayState, u128)>)
        requires
            self@.wf(*inv),
        ensures
            self@.lists_moves(inv.entries@, r@, self@.legal_moves(inv.entries@)),
            forall|k: int| 0 <= k < r@.len() ==> (#[trigger] r@[k]).0@.wf(*inv),
            forall|k: int| 0 <= k < r@.len() ==> self@.steps_to(inv.entries@, (#[trigger] r@[k]).0@),
    {
        let ghost v = self@;
        let ghost entries = inv.entries@;
        let n = inv.entries.len();
        let nr = self.roots.len();
        let mut result: Vec<(OverlayState, u128)> = Vec::new();
        let mut i: usize = 0;
        while i < n
            invariant
                i <= n,
                n == entries.len(),
                nr == v.roots.len(),
                entries == inv.entries@,
                v == self@,
                v.wf(*inv),
                v.lists_moves(entries, result@, v.moves_upto(entries, i as int)),
                forall|k: int| 0 <= k < result@.len() ==> (#[trigger] result@[k]).0@.wf(*inv),
            decreases n - i,
        {
            let e = inv.entries[i];
            let c = match self.overlay_entries[i] {
                Some(delta) => delta.root_idx,
                None => e.root_idx,
            };
            let mut d: usize = 0;
            while d < nr
                invariant
                    i < n,
                    d <= nr,
                    n == entries.len(),
                    nr == v.roots.len(),
                    entries == inv.entries@,
                    v == self@,
                    v.wf(*inv),
                    e == entries[i as int],
                    c == v.root_of(entries, i as int),
                    v.lists_moves(entries, result@, v.moves_before(entries, i as int, d as int)),
                    forall|k: int| 0 <= k < result@.len() ==> (#[trigger] result@[k]).0@.wf(*inv),
                decreases nr - d,
            {
                let ghost before = result@;
                let ghost mb = v.moves_before(entries, i as int, d as int);
                if d != c && self.roots[d].fits(e.size) {
                    assert(v.can_move(entries, i as int, d));
                    let st = self.new_state(inv, i, d);
                    result.push((st, e.size as u128));
                    proof {
                        let mb2 = v.moves_before(entries, i as int, (d + 1) as int);
                        assert(mb2 =~= mb.push((i as int, d)));
                    }
                } else {
                    proof {
                        let mb2 = v.moves_before(entries, i as int, (d + 1) as int);
                        assert(mb2 =~= mb);
                    }
                }
                d += 1;
            }
            i += 1;
        }
        proof {
            let lm = v.legal_moves(entries);
            v.lemma_moves_legal(entries, n as int);
            assert forall|k: int| 0 <= k < result@.len() implies v.steps_to(entries, (#[trigger] result@[k]).0@) by {
                assert(v.can_move(entries, lm[k].0, lm[k].1));
            }
        }
        result
    }
}

/// Successors of one state, produced one at a time in the same order as
/// [`OverlayState::successors`].
#[derive(Debug)]
pub struct LazySuccessors {
    pub state: OverlayState,
    pub cur_entry_idx: usize,
    pub cur_root_idx: usize,
}

impl LazySuccessors {
    /// The moves already produced.
    pub open spec fn emitted(&self, entries: Seq<Entry>) -> Seq<(int, usize)> {
        self.state@.moves_before(entries, self.cur_entry_idx as int, self.cur_root_idx as int)
    }

    pub open spec fn wf(&self, inv: Inventory) -> bool {
        &&& self.state@.wf(inv)
        &&& self.cur_entry_idx <= inv.entries@.len()
        &&& self.cur_root_idx <= self.state@.roots.len()
        &&& self.cur_entry_idx == inv.entries@.len() ==> self.cur_root_idx == 0
    }

    pub fn new(state: &OverlayState, inv: &Inventory) -> (r: Self)
        requires
            state@.wf(*inv),
        ensures
            r.wf(*inv),
            r.state@ == state@,
            r.emitted(inv.entries@) == Seq::<(int, usize)>::empty(),
    {
        let st = OverlayState {
            roots: crate::state::copy_vec(&state.roots),
            overlay_entries: crate::state::copy_vec(&state.overlay_entries),
            usage: crate::state::copy_table(&state.usage),
        };
        let r = LazySuccessors { state: st, cur_entry_idx: 0, cur_root_idx: 0 };
        assert(r.state@.usage =~= state@.usage);
        assert(r.emitted(inv.entries@) =~= Seq::<(int, usize)>::empty());
        r
    }

    /// The next successor, or `None` once all have been produced.
    pub fn next(&mut self, inv: &Inventory) -> (r: Option<(OverlayState, u128)>)
        requires
            old(self).wf(*inv),
        ensures
            final(self).wf(*inv),
            final(self).state == old(self).state,
            match r {
                Some(x) => {
                    let m = old(self).state@.legal_moves(inv.entries@)[old(self).emitted(
                        inv.entries@,
                    ).len() as int];
                    &&& final(self).emitted(inv.entries@) == old(self).emitted(inv.entries@).push(m)
                    &&& x.0@ == old(self).state@.apply_move(inv.entries@, m.0, m.1)
                    &&& x.1 == inv.entries@[m.0].size
                    &&& x.0@.wf(*inv)
                },
                None => {
                    &&& old(self).emitted(inv.entries@) == old(self).state@.legal_moves(
                        inv.entries@,
                    )
                    &&& *final(self) == *old(self)
                },
            },
    {
        let ghost entries = inv.entries@;
        let ghost v = self.state@;
        let n = inv.entries.len();
        let nr = self.state.roots.len();
        let start_entry = self.cur_entry_idx;
        let start_root = self.cur_root_idx;
        proof {
            self.lemma_emitted_prefix(*inv);
        }
        loop
            invariant
                n == entries.len(),
                nr == v.roots.len(),
                entries == inv.entries@,
                v == self.state@,
                self.state == old(self).state,
                self.wf(*inv),
                old(self).wf(*inv),
                start_entry == old(self).cur_entry_idx,
                start_root == old(self).cur_root_idx,
                self.emitted(entries) == old(self).emitted(entries),
                self.emitted(entries).len() <= v.legal_moves(entries).len(),
                self.emitted(entries) == v.legal_moves(entries).subrange(
                    0,
                    self.emitted(entries).len() as int,
                ),
            decreases n - self.cur_entry_idx, nr - self.cur_root_idx,
        {
            let i = self.cur_entry_idx;
            let d = self.cur_root_idx;
            if i >= n {
                proof {
                    assert(v.moves_before(entries, i as int, 0) =~= v.legal_moves(entries));
                }
                // Nothing is left: the cursor stays where it was.
                self.cur_entry_idx = start_entry;
                self.cur_root_idx = start_root;
                return None;
            }
            if d >= nr {
                proof {
                    assert(v.moves_before(entries, (i + 1) as int, 0) =~= v.moves_before(
                        entries,
                        i as int,
                        nr as int,
                    ));
                }
                self.cur_entry_idx = i + 1;
                self.cur_root_idx = 0;
            } else {
                let e = inv.entries[i];
                let c = match self.state.overlay_entries[i] {
                    Some(delta) => delta.root_idx,
                    None => e.root_idx,
                };
                let ghost mb = v.moves_before(entries, i as int, d as int);
                self.cur_root_idx = d + 1;
                if d != c && self.state.roots[d].fits(e.size) {
                    proof {
                        let mb2 = v.moves_before(entries, i as int, (d + 1) as int);
                        assert(mb2 =~= mb.push((i as int, d)));
                        self.lemma_emitted_prefix(*inv);
                        let lm = v.legal_moves(entries);
                        assert(mb2[mb.len() as int] == (i as int, d));
                        assert(lm[mb.len() as int] == mb2[mb.len() as int]);
                        assert(v.can_move(entries, i as int, d));
                    }
                    let st = self.state.new_state(inv, i, d);
                    return Some((st, e.size as u128));
                } else {
                    proof {
                        let mb2 = v.moves_before(entries, i as int, (d + 1) as int);
                        assert(mb2 =~= mb);
                    }
                }
            }
        }
    }

    /// What has been produced is a prefix of all the successors.
    pub proof fn lemma_emitted_prefix(&self, inv: Inventory)
        requires
            self.wf(inv),
        ensures
            self.emitted(inv.entries@).len() <= self.state@.legal_moves(inv.entries@).len(),
            self.emitted(inv.entries@) == self.state@.legal_moves(inv.entries@).subrange(
                0,
                self.emitted(inv.entries@).len() as int,
            ),
    {
        let v = self.state@;
        let entries = inv.entries@;
        v.lemma_moves_before_prefix(entries, self.cur_entry_idx as int, self.cur_root_idx as int, entries.len() as int);
    }
}

impl StateView {
    /// The moves before a cursor are a prefix of the moves of the first `m`
    /// records, for a cursor at or before record `m`.
    pub proof fn lemma_moves_before_prefix(&self, entries: Seq<Entry>, i: int, k: int, m: int)
        requires
            0 <= i <= m,
            0 <= k <= self.roots.len(),
            i == m ==> k == 0,
        ensures
            self.moves_before(entries, i, k).len() <= self.moves_upto(entries, m).len(),
            self.moves_before(entries, i, k) == self.moves_upto(entries, m).subrange(
                0,
                self.moves_before(entries, i, k).len() as int,
            ),
        decreases m - i, self.roots.len() - k,
    {
        let nr = self.roots.len() as int;
        let mb = self.moves_before(entries, i, k);
        if i == m {
            if i > 0 {
                assert(mb =~= self.moves_upto(entries, m));
            } else {
                assert(mb =~= self.moves_upto(entries, m));
            }
        } else if k < nr {
            self.lemma_moves_before_prefix(entries, i, k + 1, m);
            let mb2 = self.moves_before(entries, i, k + 1);
            self.lemma_before_step(entries, i, k);
            assert(mb =~= mb2.subrange(0, mb.len() as int));
        } else {
            if i + 1 < m || (i + 1 == m) {
                self.lemma_moves_before_prefix(entries, i + 1, 0, m);
                assert(self.moves_before(entries, i + 1, 0) =~= mb);
            }
        }
    }

    /// One step of the cursor adds at most one move.
    pub proof fn lemma_before_step(&self, entries: Seq<Entry>, i: int, k: int)
        requires
            0 <= i,
            0 <= k,
        ensures
            self.moves_before(entries, i, k + 1) =~= if self.can_move(entries, i, k as usize) {
                self.moves_before(entries, i, k).push((i, k as usize))
            } else {
                self.moves_before(entries, i, k)
            },
    {
    }
}

} // verus!
