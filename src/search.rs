use vstd::prelude::*;

use crate::inventory::{Entry, Inventory};
use crate::state::{lemma_move_keeps_wf, OverlayState, StateView};

verus! {

/// One step of a plan: record `entry_idx` leaves the root named in `source`
/// for the root named in `target`; the two entries differ in their root only.
#[derive(Debug, Clone, Copy, PartialEq, Eq)]
pub struct Move {
    pub entry_idx: usize,
    pub source: Entry,
    pub target: Entry,
}

/// Why a plan holds no moves.
#[derive(Debug, Clone, Copy, PartialEq, Eq)]
pub enum PlanError {
    /// The search ended without reaching a goal.
    NoSolution,
    /// The initial state is already a goal.
    AlreadyRelocated,
}

/// `e` placed at root `r`.
pub open spec fn at_root(e: Entry, r: usize) -> Entry {
    Entry { size: e.size, root_idx: r, subdir_idx: e.subdir_idx, subpath_idx: e.subpath_idx }
}

impl StateView {
    /// `w` is this state after one legal move.
    pub open spec fn steps_to(&self, entries: Seq<Entry>, w: StateView) -> bool {
        exists|i: int, d: usize| #[trigger] self.can_move(entries, i, d) && w == self.apply_move(entries, i, d)
    }

    /// The state after the moves `ms`, in order.
    pub open spec fn apply_moves(&self, entries: Seq<Entry>, ms: Seq<Move>) -> StateView
        decreases ms.len(),
    {
        if ms.len() == 0 {
            *self
        } else {
            self.apply_move(entries, ms[0].entry_idx as int, ms[0].target.root_idx).apply_moves(
                entries,
                ms.drop_first(),
            )
        }
    }
}

/// `path` starts at `start`, each state is one legal move from the one
/// before it, and the last one is a goal.
pub open spec fn is_solution(inv: Inventory, start: StateView, path: Seq<StateView>) -> bool {
    &&& path.len() >= 1
    &&& path[0] == start
    &&& forall|k: int| 0 <= k < path.len() - 1 ==> (#[trigger] path[k]).steps_to(inv.entries@, path[k + 1])
    &&& path.last().is_goal(inv.n_subdirs as int)
}

/// `path` is a chain of legal moves.
pub open spec fn is_chain(entries: Seq<Entry>, path: Seq<StateView>) -> bool {
    forall|k: int| 0 <= k < path.len() - 1 ==> (#[trigger] path[k]).steps_to(entries, path[k + 1])
}

/// The move that leads from `a` to `b`: the record whose root differs.
pub open spec fn step_move(entries: Seq<Entry>, a: StateView, b: StateView) -> Move {
    let i = choose|i: int| 0 <= i < entries.len() && a.root_of(entries, i) != b.root_of(entries, i);
    Move {
        entry_idx: i as usize,
        source: at_root(entries[i], a.root_of(entries, i)),
        target: at_root(entries[i], b.root_of(entries, i)),
    }
}

/// The moves along a chain of states.
pub open spec fn extracted_moves(entries: Seq<Entry>, path: Seq<StateView>) -> Seq<Move> {
    Seq::new((path.len() - 1) as nat, |k: int| step_move(entries, path[k], path[k + 1]))
}

/// Bytes moved by a sequence of moves.
pub open spec fn moves_cost(ms: Seq<Move>) -> int
    decreases ms.len(),
{
    if ms.len() == 0 {
        0
    } else {
        moves_cost(ms.drop_last()) + ms.last().source.size
    }
}

/// The views of a sequence of states.
pub open spec fn views(states: Seq<OverlayState>) -> Seq<StateView> {
    states.map_values(|s: OverlayState| s@)
}

/// After a legal move only the moved record changed root, and it now sits at
/// the target.
pub proof fn lemma_step_move(entries: Seq<Entry>, a: StateView, i: int, d: usize)
    requires
        a.can_move(entries, i, d),
        a.overlay.len() == entries.len(),
    ensures
        ({
            let b = a.apply_move(entries, i, d);
            &&& b.root_of(entries, i) == d
            &&& forall|j: int| 0 <= j < entries.len() && j != i ==> #[trigger] b.root_of(entries, j) == a.root_of(entries, j)
            &&& step_move(entries, a, b) == Move {
                entry_idx: i as usize,
                source: at_root(entries[i], a.root_of(entries, i)),
                target: at_root(entries[i], d),
            }
        }),
{
    let b = a.apply_move(entries, i, d);
    assert(b.overlay[i] == crate::state::delta_for(entries[i], d));
    assert(b.root_of(entries, i) != a.root_of(entries, i));
    let c = choose|j: int| 0 <= j < entries.len() && a.root_of(entries, j) != b.root_of(entries, j);
    assert(c == i) by {
        if c != i {
            assert(b.overlay[c] == a.overlay[c]);
        }
    }
}

/// Moves extracted from a chain of states, applied in order to its first
/// state, give its last state.
pub proof fn law_moves_round_trip(inv: Inventory, path: Seq<StateView>)
    requires
        path.len() >= 1,
        path[0].wf(inv),
        is_chain(inv.entries@, path),
    ensures
        path[0].apply_moves(inv.entries@, extracted_moves(inv.entries@, path)) == path.last(),
    decreases path.len(),
{
    let entries = inv.entries@;
    let ms = extracted_moves(entries, path);
    if path.len() > 1 {
        let a = path[0];
        let b = path[1];
        assert(a.steps_to(entries, b));
        let (i, d) = choose|i: int, d: usize| #[trigger] a.can_move(entries, i, d) && b == a.apply_move(entries, i, d);
        lemma_step_move(entries, a, i, d);
        lemma_move_keeps_wf(a, inv, i, d);
        let rest = path.drop_first();
        assert forall|k: int| 0 <= k < rest.len() - 1 implies (#[trigger] rest[k]).steps_to(entries, rest[k + 1]) by {
            assert(rest[k] == path[k + 1]);
            assert(path[k + 1].steps_to(entries, path[k + 2]));
        }
        law_moves_round_trip(inv, rest);
        assert(ms.drop_first() =~= extracted_moves(entries, rest));
        assert(ms[0] == step_move(entries, a, b));
    }
}

impl OverlayState {
    /// The moves along a chain of states: for each pair of neighbours, the
    /// record whose root differs, with its root before and after.
    pub fn calculate_moves(inv: &Inventory, states: &Vec<OverlayState>) -> (r: Vec<Move>)
        requires
            states@.len() >= 1,
            states@[0]@.wf(*inv),
            is_chain(inv.entries@, views(states@)),
        ensures
            r@ == extracted_moves(inv.entries@, views(states@)),
    {
        let ghost entries = inv.entries@;
        let ghost path = views(states@);
        let n = inv.entries.len();
        let mut r: Vec<Move> = Vec::new();
        let mut k: usize = 0;
        proof {
            lemma_chain_wf(*inv, path);
        }
        while k < states.len() - 1
            invariant
                k + 1 <= states@.len(),
                n == entries.len(),
                entries == inv.entries@,
                path == views(states@),
                is_chain(entries, path),
                forall|j: int| 0 <= j < path.len() ==> (#[trigger] path[j]).wf(*inv),
                r@ == extracted_moves(entries, path).subrange(0, k as int),
            decreases states@.len() - k,
        {
            let a = &states[k];
            let b = &states[k + 1];
            let ghost av = path[k as int];
            let ghost bv = path[k as int + 1];
            assert(a@ == av && b@ == bv);
            assert(av.steps_to(entries, bv));
            let ghost (gi, gd) = choose|i: int, d: usize| #[trigger] av.can_move(entries, i, d) && bv == av.apply_move(entries, i, d);
            proof {
                lemma_step_move(entries, av, gi, gd);
            }
            let mut i: usize = 0;
            while i < n && a.root_of(inv, i) == b.root_of(inv, i)
                invariant
                    i <= n,
                    n == entries.len(),
                    entries == inv.entries@,
                    a@.wf(*inv),
                    b@.wf(*inv),
                    a@ == av,
                    b@ == bv,
                    0 <= gi < n,
                    bv.root_of(entries, gi) != av.root_of(entries, gi),
                    forall|j: int| 0 <= j < i ==> av.root_of(entries, j) == bv.root_of(entries, j),
                decreases n - i,
            {
                i += 1;
            }
            assert(i < n && i as int == gi) by {
                if i as int != gi {
                    assert(i < n);
                    assert(bv.root_of(entries, i as int) == av.root_of(entries, i as int));
                }
            }
            let e = inv.entries[i];
            let m = Move {
                entry_idx: i,
                source: Entry { size: e.size, root_idx: a.root_of(inv, i), subdir_idx: e.subdir_idx, subpath_idx: e.subpath_idx },
                target: Entry { size: e.size, root_idx: b.root_of(inv, i), subdir_idx: e.subdir_idx, subpath_idx: e.subpath_idx },
            };
            r.push(m);
            proof {
                assert(m == step_move(entries, av, bv));
                assert(r@ =~= extracted_moves(entries, path).subrange(0, k as int + 1));
            }
            k += 1;
        }
        assert(r@ =~= extracted_moves(entries, path));
        r
    }
}

/// Every state of a chain that starts well formed is well formed.
pub proof fn lemma_chain_wf(inv: Inventory, path: Seq<StateView>)
    requires
        path.len() >= 1,
        path[0].wf(inv),
        is_chain(inv.entries@, path),
    ensures
        forall|j: int| 0 <= j < path.len() ==> (#[trigger] path[j]).wf(inv),
    decreases path.len(),
{
    let entries = inv.entries@;
    let last = path.len() - 1;
    if path.len() > 1 {
        let pre = path.drop_last();
        assert forall|k: int| 0 <= k < pre.len() - 1 implies (#[trigger] pre[k]).steps_to(entries, pre[k + 1]) by {
            assert(path[k].steps_to(entries, path[k + 1]));
        }
        lemma_chain_wf(inv, pre);
        assert(path[last - 1] == pre[last - 1]);
        assert(path[last - 1].steps_to(entries, path[last]));
        let (i, d) = choose|i: int, d: usize| #[trigger] path[last - 1].can_move(entries, i, d) && path[last] == path[last - 1].apply_move(entries, i, d);
        lemma_move_keeps_wf(path[last - 1], inv, i, d);
        assert forall|j: int| 0 <= j < path.len() implies (#[trigger] path[j]).wf(inv) by {
            if j < last {
                assert(path[j] == pre[j]);
            }
        }
    }
}

/// Relies on `pathfinding::directed::astar::astar`:
/// - a path it returns starts with a clone of `start`, each later node is one
///   of the successors that the `successors` closure listed for the node
///   before it (`reverse_path` follows the parent links), and the last node is
///   one for which `success` returned true;
/// - with a heuristic that never overestimates, that path is a shortest one;
/// - it returns `None` only once every node reachable from `start` has been
///   taken from its queue and tested with `success`.
///
/// The closures call the verified `successors` (exactly the states one legal
/// move away, each with the moved file's size as cost), `heuristic` (which
/// `law_heuristic_admissible` shows never overestimates) and `success` (true
/// exactly on goals); every node they see is `start` or a listed successor,
/// so well formed. Costs are `u128`: a cost the search adds up is that of a
/// path without repeated states plus a heuristic value, each step and the
/// heuristic below 2^64, so no sum reaches 2^128 before more than 2^63
/// states are held in memory.
#[verifier::external_body]
fn astar_path(start: &OverlayState, inv: &Inventory) -> (r: Option<Vec<OverlayState>>)
    requires
        start@.wf(*inv),
    ensures
        r matches Some(path) ==> {
            &&& is_solution(*inv, start@, views(path@))
            &&& forall|p: Seq<StateView>| #[trigger]
                is_solution(*inv, start@, p) ==> moves_cost(
                    extracted_moves(inv.entries@, views(path@)),
                ) <= moves_cost(extracted_moves(inv.entries@, p))
        },
        r is None ==> forall|p: Seq<StateView>| !#[trigger] is_solution(*inv, start@, p),
{
    pathfinding::directed::astar::astar(
        start,
        |s| s.successors(inv),
        |s| s.heuristic(inv),
        |s| s.success(),
    ).map(|found| found.0)
}

/// Sum of the bytes of `moves`, in a type that no sum of a `Vec` of them
/// overflows.
pub fn total_cost(moves: &Vec<Move>) -> (r: u128)
    ensures
        r == moves_cost(moves@),
{
    let mut cost: u128 = 0;
    let mut k: usize = 0;
    while k < moves.len()
        invariant
            k <= moves@.len(),
            cost == moves_cost(moves@.subrange(0, k as int)),
            cost <= k * (u64::MAX as int),
        decreases moves@.len() - k,
    {
        let ghost prefix = moves@.subrange(0, k as int + 1);
        assert(prefix.drop_last() =~= moves@.subrange(0, k as int));
        proof {
            let kk = k as int;
            assert(usize::MAX <= u64::MAX);
            assert((kk + 1) * (u64::MAX as int) <= u128::MAX) by (nonlinear_arith)
                requires
                    0 <= kk < u64::MAX,
            ;
            assert(kk * (u64::MAX as int) + (u64::MAX as int) == (kk + 1) * (u64::MAX as int)) by (nonlinear_arith);
        }
        cost = cost + moves[k].source.size as u128;
        k += 1;
    }
    assert(moves@.subrange(0, moves@.len() as int) =~= moves@);
    cost
}

impl OverlayState {
    /// The plan that a search outcome gives: `NoSolution` when the search
    /// found no path; otherwise the moves along the path and the bytes they
    /// copy.
    pub fn plan_from_path(&self, inv: &Inventory, found: Option<Vec<OverlayState>>) -> (r: Result<
        (Vec<Move>, u128),
        PlanError,
    >)
        requires
            self@.wf(*inv),
            !self@.is_goal(inv.n_subdirs as int),
            found matches Some(path) ==> is_solution(*inv, self@, views(path@)),
        ensures
            found is None <==> r == Err::<(Vec<Move>, u128), PlanError>(PlanError::NoSolution),
            found matches Some(path) ==> r matches Ok((moves, cost)) && moves@ == extracted_moves(
                inv.entries@,
                views(path@),
            ) && moves@.len() >= 1 && cost == moves_cost(moves@),
    {
        match found {
            None => Err(PlanError::NoSolution),
            Some(path) => {
                proof {
                    let p = views(path@);
                    if p.len() == 1 {
                        assert(p.last() == self@);
                    }
                }
                let moves = OverlayState::calculate_moves(inv, &path);
                let cost = total_cost(&moves);
                Ok((moves, cost))
            },
        }
    }

    /// Plans the moves that gather each subdir under one non-scratchpad root
    /// and empty every scratchpad, searching with A* over single-file moves
    /// whose cost is the file's size.
    pub fn relocate(&self, inv: &Inventory) -> (r: Result<(Vec<Move>, u128), PlanError>)
        requires
            self@.wf(*inv),
        ensures
            self@.is_goal(inv.n_subdirs as int) <==> r == Err::<(Vec<Move>, u128), PlanError>(
                PlanError::AlreadyRelocated,
            ),
            r matches Ok((moves, cost)) ==> {
                &&& moves@.len() >= 1
                &&& cost == moves_cost(moves@)
                &&& exists|path: Seq<StateView>|
                    is_solution(*inv, self@, path) && moves@ == #[trigger] extracted_moves(
                        inv.entries@,
                        path,
                    )
                &&& forall|p: Seq<StateView>| #[trigger]
                    is_solution(*inv, self@, p) ==> cost <= moves_cost(
                        extracted_moves(inv.entries@, p),
                    )
            },
            r == Err::<(Vec<Move>, u128), PlanError>(PlanError::NoSolution) ==> forall|
                p: Seq<StateView>,
            | !#[trigger] is_solution(*inv, self@, p),
    {
        proof {
            self.lemma_rows(*inv);
        }
        if self.success() {
            return Err(PlanError::AlreadyRelocated);
        }
        let found = astar_path(self, inv);
        let ghost g = found;
        let r = self.plan_from_path(inv, found);
        proof {
            if let Some(path) = g {
                assert(is_solution(*inv, self@, views(path@)));
            }
        }
        r
    }
}

} // verus!
