use relocation::filesystem::{mul_saturating, to_cpath};
use relocation::names::{join, split_subdir};
use relocation::{
    Config, DeltaEntry, Entry, FileSystem, Inventory, LazySuccessors, Move, OverlayState,
    PlanError, StateNames,
};

/// Scans the given files into names and an inventory: each file is
/// (root, subdir, subpath, size).
fn scan(
    names: &mut StateNames,
    inv: &mut Inventory,
    files: &[(&str, &str, &str, u64)],
) {
    for &(root, subdir, subpath, size) in files {
        let r = names.intern_root(&root.as_bytes().to_vec());
        let s = names.intern_subdir(&subdir.as_bytes().to_vec());
        let p = names.intern_subpath(&subpath.as_bytes().to_vec());
        inv.add_entry(r, s, p, size);
    }
}

fn roots(avail: &[(u64, bool)]) -> Vec<FileSystem> {
    avail
        .iter()
        .enumerate()
        .map(|(id, &(a, scratch))| FileSystem::new(id as u64, 4096, a, scratch))
        .collect()
}

fn s2() -> (StateNames, Inventory, OverlayState) {
    let mut names = StateNames::new();
    let mut inv = Inventory::new();
    scan(
        &mut names,
        &mut inv,
        &[
            ("a", "c", "1.txt", 11),
            ("a", "c", "5.txt", 3),
            ("b", "c", "3.txt", 1),
            ("b", "c", "2.txt", 5),
            ("b", "c", "4.txt", 10),
        ],
    );
    let state = OverlayState::new(&inv, roots(&[(1000, false), (1000, false)])).unwrap();
    (names, inv, state)
}

#[test]
fn blocks_over_count_exact_multiples() {
    let fs = FileSystem::new(7, 4096, 10, false);
    assert_eq!(1, fs.blocks(0));
    assert_eq!(1, fs.blocks(4095));
    assert_eq!(2, fs.blocks(4096));
    assert_eq!(3, fs.blocks(10000));
}

#[test]
fn effective_size_and_free_bytes() {
    let fs = FileSystem::new(7, 4096, 10, false);
    assert_eq!(4096, fs.effective_size(5));
    assert_eq!(8192, fs.effective_size(4096));
    assert_eq!(40960, fs.free_bytes());
    let huge = FileSystem::new(7, 1 << 40, 1 << 30, true);
    assert_eq!(u64::MAX, huge.free_bytes());
    assert!(huge.scratch());
    assert_eq!(u64::MAX, mul_saturating(u64::MAX, 2));
    assert_eq!(6, mul_saturating(2, 3));
}

#[test]
fn fits_needs_the_whole_block_count() {
    let fs = FileSystem::new(0, 4096, 1, false);
    assert!(fs.fits(4095));
    // 4096 bytes count as two blocks.
    assert!(!fs.fits(4096));
    let empty = FileSystem::new(0, 4096, 0, false);
    assert!(!empty.fits(0));
}

#[test]
fn cpath_is_nul_terminated() {
    assert_eq!(vec![b'a', b'/', b'b', 0], to_cpath(b"a/b"));
    assert_eq!(vec![0], to_cpath(b""));
}

#[test]
fn inventory_counts_bytes_and_subdirs() {
    let mut inv = Inventory::new();
    inv.add_entry(0, 2, 0, 10);
    inv.add_entry(1, 0, 1, 5);
    assert_eq!(15, inv.total_size);
    assert_eq!(3, inv.n_subdirs);
    assert_eq!(Entry::new(1, 0, 1, 5), inv.entries[1]);
}

#[test]
fn initial_state_counts_usage() {
    let (_names, inv, state) = s2();
    assert_eq!(1, inv.n_subdirs);
    assert_eq!(vec![vec![2, 3]], state.usage);
    assert!(state.overlay_entries.iter().all(|o| o.is_none()));
}

#[test]
fn initial_state_refuses_overflowing_block_count() {
    let mut inv = Inventory::new();
    inv.add_entry(0, 0, 0, 4096 * 10);
    let fss = vec![FileSystem::new(0, 4096, u64::MAX - 5, false)];
    assert!(OverlayState::new(&inv, fss).is_none());
}

#[test]
fn new_state_moves_one_file() {
    let (_names, inv, state) = s2();
    let next = state.new_state(&inv, 0, 1);
    assert_eq!(Some(DeltaEntry { root_idx: 1 }), next.overlay_entries[0]);
    assert_eq!(vec![vec![1, 4]], next.usage);
    assert_eq!(1001, next.roots[0].blocks_available);
    assert_eq!(999, next.roots[1].blocks_available);
    assert_eq!(1, next.root_of(&inv, 0));
    // Moving it back elides the overlay entry.
    let back = next.new_state(&inv, 0, 0);
    assert_eq!(None, back.overlay_entries[0]);
    assert_eq!(state, back);
}

#[test]
fn heuristic_is_bytes_outside_best_root() {
    let (_names, inv, state) = s2();
    // 30 bytes in subdir c: 14 at a, 16 at b.
    assert_eq!(14, state.heuristic(&inv));
    let next = state.new_state(&inv, 0, 1);
    // 3 bytes left at a.
    assert_eq!(3, next.heuristic(&inv));
}

#[test]
fn heuristic_ignores_scratch_roots_as_destinations() {
    let mut names = StateNames::new();
    let mut inv = Inventory::new();
    scan(&mut names, &mut inv, &[("a", "c", "1", 7), ("s", "c", "2", 100)]);
    let state = OverlayState::new(&inv, roots(&[(10, false), (10, true)])).unwrap();
    assert_eq!(100, state.heuristic(&inv));
}

#[test]
fn heuristic_consistent_on_every_move() {
    let (_names, inv, state) = s2();
    let h = state.heuristic(&inv);
    for (next, cost) in state.successors(&inv) {
        assert!(h <= cost + next.heuristic(&inv));
    }
}

#[test]
fn space_conserved_on_every_move() {
    let (_names, inv, state) = s2();
    let total = |s: &OverlayState| -> u128 {
        let free: u128 = s.roots.iter().map(|f| f.free_bytes() as u128).sum();
        let placed: u128 = (0..inv.entries.len())
            .map(|i| s.roots[s.root_of(&inv, i)].effective_size(inv.entries[i].size) as u128)
            .sum();
        free + placed
    };
    let before = total(&state);
    for (next, _) in state.successors(&inv) {
        assert_eq!(before, total(&next));
    }
}

#[test]
fn successors_in_record_then_root_order() {
    let (_names, inv, state) = s2();
    let succ = state.successors(&inv);
    assert_eq!(5, succ.len());
    let costs: Vec<u128> = succ.iter().map(|x| x.1).collect();
    assert_eq!(vec![11, 3, 1, 5, 10], costs);
    // The lazy generator yields the same states in the same order.
    let mut lazy = LazySuccessors::new(&state, &inv);
    for (s, c) in &succ {
        let (ls, lc) = lazy.next(&inv).unwrap();
        assert_eq!(*s, ls);
        assert_eq!(*c, lc);
    }
    assert!(lazy.next(&inv).is_none());
    // Once exhausted it stays exhausted.
    assert!(lazy.next(&inv).is_none());
}

#[test]
fn space_bound_blocks_expansion() {
    let mut names = StateNames::new();
    let mut inv = Inventory::new();
    scan(&mut names, &mut inv, &[("a", "x", "1", 10), ("b", "x", "2", 10)]);
    let full = OverlayState::new(&inv, roots(&[(0, false), (0, false)])).unwrap();
    assert!(full.successors(&inv).is_empty());
    assert_eq!(Err(PlanError::NoSolution), full.relocate(&inv).map(|_| ()));
    let spacious = OverlayState::new(&inv, roots(&[(0, false), (0, false), (100, false)])).unwrap();
    let succ = spacious.successors(&inv);
    assert_eq!(2, succ.len());
    assert!(succ.iter().all(|(s, _)| s.root_of(&inv, 0) == 2 || s.root_of(&inv, 1) == 2));
    let (moves, cost) = spacious.relocate(&inv).unwrap();
    assert_eq!(2, moves.len());
    assert_eq!(20, cost);
}

#[test]
fn applying_extracted_moves_reaches_the_goal() {
    let (_names, inv, state) = s2();
    let (moves, cost) = state.relocate(&inv).unwrap();
    // The heuristic does not exceed the cost of the plan that was found.
    assert!(state.heuristic(&inv) as u128 <= cost);
    let mut s = state.clone();
    for m in &moves {
        assert_eq!(s.root_of(&inv, m.entry_idx), m.source.root_idx);
        s = s.new_state(&inv, m.entry_idx, m.target.root_idx);
    }
    assert!(s.success());
    assert_eq!(0, s.heuristic(&inv));
}

#[test]
fn calculate_moves_reads_neighbours() {
    let (_names, inv, state) = s2();
    let mid = state.new_state(&inv, 1, 1);
    let last = mid.new_state(&inv, 0, 1);
    let moves = OverlayState::calculate_moves(&inv, &vec![state.clone(), mid, last]);
    let e1 = inv.entries[1];
    let e0 = inv.entries[0];
    assert_eq!(
        vec![
            Move {
                entry_idx: 1,
                source: e1,
                target: Entry::new(1, e1.subdir_idx, e1.subpath_idx, e1.size)
            },
            Move {
                entry_idx: 0,
                source: e0,
                target: Entry::new(1, e0.subdir_idx, e0.subpath_idx, e0.size)
            },
        ],
        moves
    );
}

#[test]
fn plan_from_no_path_is_no_solution() {
    let (_names, inv, state) = s2();
    assert_eq!(Err(PlanError::NoSolution), state.plan_from_path(&inv, None).map(|_| ()));
}

#[test]
fn scratch_must_be_emptied() {
    let mut names = StateNames::new();
    let mut inv = Inventory::new();
    scan(&mut names, &mut inv, &[("a", "x", "1", 10), ("s", "y", "2", 20)]);
    let state = OverlayState::new(&inv, roots(&[(100, false), (100, true)])).unwrap();
    assert!(!state.success());
    let (moves, cost) = state.relocate(&inv).unwrap();
    assert_eq!(20, cost);
    assert_eq!(1, moves.len());
    assert_eq!(1, moves[0].entry_idx);
    assert_eq!(0, moves[0].target.root_idx);
}

#[test]
fn scratch_only_has_no_solution() {
    let mut names = StateNames::new();
    let mut inv = Inventory::new();
    scan(&mut names, &mut inv, &[("s", "x", "1", 10)]);
    let state = OverlayState::new(&inv, roots(&[(100, true)])).unwrap();
    assert_eq!(Err(PlanError::NoSolution), state.relocate(&inv).map(|_| ()));
}

#[test]
fn interner_reuses_ids() {
    let mut names = StateNames::new();
    let a = names.intern_root(&b"/x".to_vec());
    let b = names.intern_root(&b"/y".to_vec());
    let a2 = names.intern_root(&b"/x".to_vec());
    assert_eq!((0, 1, 0), (a, b, a2));
    assert_eq!(Some(1), names.root_id(&b"/y".to_vec()));
    assert_eq!(None, names.root_id(&b"/z".to_vec()));
    assert_eq!(0, names.intern_subdir(&Vec::new()));
    assert_eq!(0, names.intern_subpath(&b"f".to_vec()));
}

#[test]
fn names_join_components() {
    let mut names = StateNames::new();
    let r = names.intern_root(&b"/data/".to_vec());
    let s = names.intern_subdir(&Vec::new());
    let p = names.intern_subpath(&b"top.txt".to_vec());
    assert_eq!(b"/data/top.txt".to_vec(), names.name(&Entry::new(r, s, p, 1)));
    assert_eq!(b"a/b".to_vec(), join(&b"a".to_vec(), &b"b".to_vec()));
    assert_eq!(b"a".to_vec(), join(&b"a".to_vec(), &Vec::new()));
    assert_eq!(b"b".to_vec(), join(&Vec::new(), &b"b".to_vec()));
}

#[test]
fn config_holds_arguments() {
    let c = Config::new(vec!["a".to_string()], true, vec!["s".to_string()]);
    assert_eq!(vec!["a".to_string()], c.root);
    assert!(c.execute);
    assert_eq!(vec!["s".to_string()], c.scratch);
}

#[test]
fn empty_inventory_is_already_relocated() {
    let inv = Inventory::new();
    let state = OverlayState::new(&inv, roots(&[(0, false), (0, true)])).unwrap();
    assert_eq!(0, state.heuristic(&inv));
    assert!(state.successors(&inv).is_empty());
    assert_eq!(Err(PlanError::AlreadyRelocated), state.relocate(&inv).map(|_| ()));
}

#[test]
fn split_subdir_takes_first_component() {
    let (d, p) = split_subdir(&b"c/x/1.txt".to_vec());
    assert_eq!(b"c".to_vec(), d);
    assert_eq!(b"x/1.txt".to_vec(), p);
    let (d, p) = split_subdir(&b"top.txt".to_vec());
    assert_eq!(Vec::<u8>::new(), d);
    assert_eq!(b"top.txt".to_vec(), p);
}

#[test]
fn relocate_finds_cheapest_plan() {
    // Moving the 100-byte file costs more than moving the two small ones.
    let mut names = StateNames::new();
    let mut inv = Inventory::new();
    scan(
        &mut names,
        &mut inv,
        &[("a", "c", "big", 100), ("b", "c", "s1", 1), ("b", "c", "s2", 2)],
    );
    let state = OverlayState::new(&inv, roots(&[(1000, false), (1000, false)])).unwrap();
    let (moves, cost) = state.relocate(&inv).unwrap();
    assert_eq!(3, cost);
    assert_eq!(2, moves.len());
    assert!(moves.iter().all(|m| m.target.root_idx == 0));
}
