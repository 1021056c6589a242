use vstd::prelude::*;

use crate::filesystem::{blocks_for, effective_bytes, FileSystem};
use crate::inventory::{
    current_root, in_cell, lemma_tally_agree, lemma_tally_term, lemma_tally_update, tally, Entry,
    Inventory,
};
use crate::state::{bytes_in_cell, in_subdir, lemma_move_keeps_wf, StateView};

verus! {

/// The state after the moves `ms`, each a record and a destination root.
pub open spec fn run(v: StateView, entries: Seq<Entry>, ms: Seq<(int, usize)>) -> StateView
    decreases ms.len(),
{
    if ms.len() == 0 {
        v
    } else {
        run(v.apply_move(entries, ms[0].0, ms[0].1), entries, ms.drop_first())
    }
}

/// Each of the moves `ms` is legal in the state it is made in.
pub open spec fn run_legal(v: StateView, entries: Seq<Entry>, ms: Seq<(int, usize)>) -> bool
    decreases ms.len(),
{
    ms.len() == 0 || (v.can_move(entries, ms[0].0, ms[0].1) && run_legal(
        v.apply_move(entries, ms[0].0, ms[0].1),
        entries,
        ms.drop_first(),
    ))
}

/// Bytes copied by the moves `ms`.
pub open spec fn run_cost(entries: Seq<Entry>, ms: Seq<(int, usize)>) -> int
    decreases ms.len(),
{
    if ms.len() == 0 {
        0
    } else {
        entries[ms[0].0].size + run_cost(entries, ms.drop_first())
    }
}

/// Every state reached by legal moves from a well-formed state is well formed.
pub proof fn lemma_run_wf(inv: Inventory, v: StateView, ms: Seq<(int, usize)>)
    requires
        v.wf(inv),
        run_legal(v, inv.entries@, ms),
    ensures
        run(v, inv.entries@, ms).wf(inv),
    decreases ms.len(),
{
    if ms.len() > 0 {
        lemma_move_keeps_wf(v, inv, ms[0].0, ms[0].1);
        lemma_run_wf(inv, v.apply_move(inv.entries@, ms[0].0, ms[0].1), ms.drop_first());
    }
}

/// In every state reached by legal moves, each usage cell holds the number of
/// records of its subdir that sit at its root.
pub proof fn law_usage_counts(inv: Inventory, v: StateView, ms: Seq<(int, usize)>)
    requires
        v.wf(inv),
        run_legal(v, inv.entries@, ms),
    ensures
        run(v, inv.entries@, ms).usage_matches(inv.entries@, inv.n_subdirs as int),
{
    lemma_run_wf(inv, v, ms);
}

/// In every state reached by legal moves, no overlay entry names its record's
/// origin root.
pub proof fn law_overlay_elided(inv: Inventory, v: StateView, ms: Seq<(int, usize)>)
    requires
        v.wf(inv),
        run_legal(v, inv.entries@, ms),
    ensures
        run(v, inv.entries@, ms).overlay_elided(inv.entries@),
{
    lemma_run_wf(inv, v, ms);
}

/// In a goal state no record sits at a scratchpad root, and all records of a
/// subdir sit at one root.
pub proof fn law_goal_concentrated(inv: Inventory, v: StateView)
    requires
        v.wf(inv),
        v.is_goal(inv.n_subdirs as int),
    ensures
        forall|i: int|
            0 <= i < inv.entries@.len() ==> !v.roots[#[trigger] v.root_of(inv.entries@, i) as int].scratch,
        forall|i: int, j: int|
            0 <= i < inv.entries@.len() && 0 <= j < inv.entries@.len() && inv.entries@[i].subdir_idx
                == inv.entries@[j].subdir_idx ==> #[trigger] v.root_of(inv.entries@, i)
                == #[trigger] v.root_of(inv.entries@, j),
{
    let entries = inv.entries@;
    let n = entries.len() as int;
    assert forall|i: int| 0 <= i < n implies v.usage[entries[i].subdir_idx as int][v.root_of(entries, i) as int] >= 1 by {
        let s = entries[i].subdir_idx;
        let r = v.root_of(entries, i);
        let f = in_cell(s, r);
        lemma_tally_term(entries, v.overlay, n, i, f);
        assert(f(entries[i], r) == 1);
        assert(entries[i].subdir_idx < inv.n_subdirs);
    }
    assert forall|i: int| 0 <= i < n implies !v.roots[#[trigger] v.root_of(entries, i) as int].scratch by {
        let s = entries[i].subdir_idx as int;
        let r = v.root_of(entries, i) as int;
        assert(v.usage[s][r] >= 1);
    }
    assert forall|i: int, j: int|
        0 <= i < n && 0 <= j < n && entries[i].subdir_idx == entries[j].subdir_idx implies #[trigger] v.root_of(entries, i)
        == #[trigger] v.root_of(entries, j) by {
        let s = entries[i].subdir_idx as int;
        assert(v.usage[s][v.root_of(entries, i) as int] >= 1);
        assert(v.usage[s][v.root_of(entries, j) as int] >= 1);
    }
}

/// One move changes the gap of a subdir by at most the bytes of the moved
/// record, and only for the moved record's subdir.
proof fn lemma_gap_step(inv: Inventory, v: StateView, i: int, d: usize, s: usize, k: int)
    requires
        v.wf(inv),
        v.can_move(inv.entries@, i, d),
        0 <= k <= v.roots.len(),
    ensures
        v.gap_upto(inv.entries@, s, k) <= v.apply_move(inv.entries@, i, d).gap_upto(inv.entries@, s, k)
            + if inv.entries@[i].subdir_idx == s {
            inv.entries@[i].size as int
        } else {
            0int
        },
    decreases k,
{
    let entries = inv.entries@;
    let n = entries.len() as int;
    let e = entries[i];
    let c = v.root_of(entries, i);
    let w = v.apply_move(entries, i, d);
    let o = crate::state::delta_for(e, d);
    assert(w.overlay == v.overlay.update(i, o));
    assert(current_root(e, o) == d);
    let ft = in_subdir(s);
    lemma_tally_update(entries, v.overlay, i, o, n, ft);
    assert(w.subdir_total(entries, s) == v.subdir_total(entries, s));
    if k > 0 {
        lemma_gap_step(inv, v, i, d, s, k - 1);
        let r = (k - 1) as usize;
        let fr = bytes_in_cell(s, r);
        lemma_tally_update(entries, v.overlay, i, o, n, fr);
        assert(w.roots[k - 1].scratch == v.roots[k - 1].scratch);
    }
}

/// One move changes the sum of the first `k` gaps by at most the bytes of the
/// moved record.
proof fn lemma_gap_sum_step(inv: Inventory, v: StateView, i: int, d: usize, k: int)
    requires
        v.wf(inv),
        v.can_move(inv.entries@, i, d),
        0 <= k <= inv.n_subdirs,
    ensures
        v.gap_sum(inv.entries@, k) <= v.apply_move(inv.entries@, i, d).gap_sum(inv.entries@, k)
            + if inv.entries@[i].subdir_idx < k {
            inv.entries@[i].size as int
        } else {
            0int
        },
    decreases k,
{
    if k > 0 {
        lemma_gap_sum_step(inv, v, i, d, k - 1);
        lemma_gap_step(inv, v, i, d, (k - 1) as usize, v.roots.len() as int);
    }
}

/// The heuristic is consistent: it drops by at most the cost of any move.
pub proof fn law_heuristic_consistent(inv: Inventory, v: StateView, i: int, d: usize)
    requires
        v.wf(inv),
        v.can_move(inv.entries@, i, d),
    ensures
        v.heuristic(inv) <= inv.entries@[i].size + v.apply_move(inv.entries@, i, d).heuristic(inv),
{
    lemma_gap_sum_step(inv, v, i, d, inv.n_subdirs as int);
}

/// A gap is at most the bytes of its subdir outside any non-scratchpad root
/// among the first `k`.
proof fn lemma_gap_at_most(v: StateView, entries: Seq<Entry>, s: usize, k: int, r: int)
    requires
        0 <= r < k,
        !v.roots[r].scratch,
    ensures
        v.gap_upto(entries, s, k) <= v.subdir_total(entries, s) - v.held_at(entries, s, r as usize),
    decreases k,
{
    if r < k - 1 {
        lemma_gap_at_most(v, entries, s, k - 1, r);
    }
}

/// The heuristic of a goal state is zero.
pub proof fn lemma_goal_heuristic_zero(inv: Inventory, v: StateView)
    requires
        v.wf(inv),
        v.is_goal(inv.n_subdirs as int),
    ensures
        v.heuristic(inv) == 0,
{
    let entries = inv.entries@;
    let n = entries.len() as int;
    law_goal_concentrated(inv, v);
    assert forall|s: int| 0 <= s < inv.n_subdirs implies #[trigger] v.gap(entries, s as usize) == 0 by {
        v.lemma_gap_bounds(entries, s as usize, v.roots.len() as int);
        if exists|i: int| 0 <= i < n && entries[i].subdir_idx == s {
            let i = choose|i: int| 0 <= i < n && entries[i].subdir_idx == s;
            let r = v.root_of(entries, i);
            let ft = in_subdir(s as usize);
            let fr = bytes_in_cell(s as usize, r);
            assert forall|j: int| 0 <= j < n implies #[trigger] ft(entries[j], current_root(entries[j], v.overlay[j]))
                == fr(entries[j], current_root(entries[j], v.overlay[j])) by {
                if entries[j].subdir_idx == s {
                    assert(v.root_of(entries, j) == v.root_of(entries, i));
                }
            }
            lemma_tally_agree(entries, v.overlay, n, ft, fr);
            assert(!v.roots[r as int].scratch);
            lemma_gap_at_most(v, entries, s as usize, v.roots.len() as int, r as int);
        } else {
            let ft = in_subdir(s as usize);
            let zero = |e: Entry, c: usize| 0int;
            assert forall|j: int| 0 <= j < n implies #[trigger] ft(entries[j], current_root(entries[j], v.overlay[j]))
                == zero(entries[j], current_root(entries[j], v.overlay[j])) by {}
            lemma_tally_agree(entries, v.overlay, n, ft, zero);
            lemma_tally_zero(entries, v.overlay, n);
        }
    }
    lemma_gap_sum_zero(inv, v, inv.n_subdirs as int);
}

proof fn lemma_tally_zero(entries: Seq<Entry>, ov: Seq<Option<crate::inventory::DeltaEntry>>, n: int)
    ensures
        tally(entries, ov, n, |e: Entry, c: usize| 0int) == 0,
    decreases n,
{
    if n > 0 {
        lemma_tally_zero(entries, ov, n - 1);
    }
}

proof fn lemma_gap_sum_zero(inv: Inventory, v: StateView, k: int)
    requires
        k <= inv.n_subdirs,
        forall|s: int| 0 <= s < inv.n_subdirs ==> #[trigger] v.gap(inv.entries@, s as usize) == 0,
    ensures
        v.gap_sum(inv.entries@, k) == 0,
    decreases k,
{
    if k > 0 {
        lemma_gap_sum_zero(inv, v, k - 1);
        assert(v.gap(inv.entries@, (k - 1) as usize) == 0);
    }
}

/// The heuristic is admissible: it never exceeds the cost of a sequence of
/// legal moves that ends in a goal.
pub proof fn law_heuristic_admissible(inv: Inventory, v: StateView, ms: Seq<(int, usize)>)
    requires
        v.wf(inv),
        run_legal(v, inv.entries@, ms),
        run(v, inv.entries@, ms).is_goal(inv.n_subdirs as int),
    ensures
        v.heuristic(inv) <= run_cost(inv.entries@, ms),
    decreases ms.len(),
{
    if ms.len() == 0 {
        lemma_goal_heuristic_zero(inv, v);
    } else {
        let (i, d) = ms[0];
        law_heuristic_consistent(inv, v, i, d);
        lemma_move_keeps_wf(v, inv, i, d);
        law_heuristic_admissible(inv, v.apply_move(inv.entries@, i, d), ms.drop_first());
    }
}

/// Free bytes of the first `k` roots.
pub open spec fn free_space(roots: Seq<FileSystem>, k: int) -> int
    decreases k,
{
    if k <= 0 {
        0
    } else {
        free_space(roots, k - 1) + roots[k - 1].blocks_available * roots[k - 1].block_size
    }
}

/// The block size of each root.
pub open spec fn block_sizes(roots: Seq<FileSystem>) -> Seq<u64> {
    roots.map_values(|f: FileSystem| f.block_size)
}

/// Bytes a record takes on disk at the root it sits at.
pub open spec fn on_disk(bs: Seq<u64>) -> spec_fn(Entry, usize) -> int {
    |e: Entry, c: usize| effective_bytes(bs[c as int] as int, e.size as int)
}

/// Free bytes of all roots plus the bytes that every record takes on disk.
pub open spec fn space_total(v: StateView, entries: Seq<Entry>) -> int {
    free_space(v.roots, v.roots.len() as int) + tally(
        entries,
        v.overlay,
        entries.len() as int,
        on_disk(block_sizes(v.roots)),
    )
}

proof fn lemma_free_space_update(roots: Seq<FileSystem>, j: int, f: FileSystem, k: int)
    requires
        0 <= j < roots.len(),
        k <= roots.len(),
    ensures
        free_space(roots.update(j, f), k) == free_space(roots, k) + if j < k {
            f.blocks_available * f.block_size - roots[j].blocks_available * roots[j].block_size
        } else {
            0
        },
    decreases k,
{
    if k > 0 {
        lemma_free_space_update(roots, j, f, k - 1);
    }
}

/// Free bytes plus the bytes that records take on disk stay the same across
/// a move: the blocks freed at the source and taken at the target are exactly
/// the moved record's blocks there.
pub proof fn law_space_conserved(inv: Inventory, v: StateView, i: int, d: usize)
    requires
        v.wf(inv),
        v.can_move(inv.entries@, i, d),
    ensures
        space_total(v.apply_move(inv.entries@, i, d), inv.entries@) == space_total(v, inv.entries@),
{
    let entries = inv.entries@;
    let n = entries.len() as int;
    let e = entries[i];
    let c = v.root_of(entries, i);
    let w = v.apply_move(entries, i, d);
    let o = crate::state::delta_for(e, d);
    assert(w.overlay == v.overlay.update(i, o));
    assert(current_root(e, o) == d);
    let nr = v.roots.len() as int;
    assert(block_sizes(w.roots) =~= block_sizes(v.roots));
    let bs = block_sizes(v.roots);
    let f = on_disk(bs);
    lemma_tally_update(entries, v.overlay, i, o, n, f);
    let fc = v.roots[c as int];
    let fd = v.roots[d as int];
    let bc = blocks_for(fc.block_size as int, e.size as int);
    let bd = blocks_for(fd.block_size as int, e.size as int);
    let fc2 = crate::state::with_available(fc, fc.blocks_available + bc);
    let fd2 = crate::state::with_available(fd, fd.blocks_available - bd);
    let roots1 = v.roots.update(c as int, fc2);
    // The move was legal, so both new counts fit a `u64`.
    lemma_tally_term(entries, v.overlay, n, i, crate::state::blocks_at(c, fc.block_size));
    assert(v.capacity(entries, c as int) <= u64::MAX);
    assert(fc2.blocks_available == fc.blocks_available + bc);
    assert(fd2.blocks_available == fd.blocks_available - bd);
    lemma_free_space_update(v.roots, c as int, fc2, nr);
    lemma_free_space_update(roots1, d as int, fd2, nr);
    assert(roots1[d as int] == fd);
    let (a1, b1, x1) = (fc.blocks_available as int, bc, fc.block_size as int);
    assert((a1 + b1) * x1 - a1 * x1 == x1 * b1) by (nonlinear_arith);
    let (a2, b2, x2) = (fd.blocks_available as int, bd, fd.block_size as int);
    assert((a2 - b2) * x2 - a2 * x2 == -(x2 * b2)) by (nonlinear_arith);
    assert(f(e, c) == effective_bytes(x1, e.size as int));
    assert(f(e, d) == effective_bytes(x2, e.size as int));
}

} // verus!
