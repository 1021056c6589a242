use relocation::{FileSystem, Inventory, LazySuccessors, OverlayState};

/// A state over roots given as (blocks available, scratchpad) with 4096-byte
/// blocks, holding files given as (size, root, subdir, subpath) at their origin.
fn state_of(roots: &[(u64, bool)], files: &[(u64, usize, usize, usize)]) -> (Inventory, OverlayState) {
    let mut inv = Inventory::new();
    for &(size, root, subdir, subpath) in files {
        inv.add_entry(root, subdir, subpath, size);
    }
    let fss = roots
        .iter()
        .enumerate()
        .map(|(id, &(avail, scratch))| FileSystem::new(id as u64, 4096, avail, scratch))
        .collect::<Vec<_>>();
    let state = OverlayState::new(&inv, fss).unwrap();
    (inv, state)
}

/// Number of successors that the lazy generator produces.
fn lazy_count(inv: &Inventory, state: &OverlayState) -> usize {
    let mut it = LazySuccessors::new(state, inv);
    let mut n = 0;
    while it.next(inv).is_some() {
        n += 1;
    }
    n
}

#[test]
fn lazyiter_empty_state_successors() {
    let (inv, state) = state_of(&[], &[]);
    assert_eq!(0, lazy_count(&inv, &state));
}

#[test]
fn lazyiter_one_file_two_root_successor() {
    let (inv, state) = state_of(&[(1, false), (1, false)], &[(5, 0, 3, 0)]);
    assert_eq!(1, lazy_count(&inv, &state));
}

#[test]
fn lazyiter_two_file_two_root_successor() {
    let (inv, state) = state_of(&[(1, false), (1, false)], &[(5, 0, 3, 0), (10, 1, 3, 1)]);
    assert_eq!(2, lazy_count(&inv, &state));
}

#[test]
fn lazyiter_two_root_two_full() {
    let (inv, state) = state_of(&[(0, false), (0, false)], &[(10, 0, 3, 0), (10, 0, 3, 1), (10, 1, 3, 2), (10, 1, 3, 3)]);
    assert_eq!(0, lazy_count(&inv, &state));
}

#[test]
fn lazyiter_three_root_two_full_one_empty() {
    let (inv, state) = state_of(&[(0, false), (0, false), (1000, false)], &[(10, 0, 3, 0), (10, 0, 3, 1), (10, 1, 3, 2), (10, 1, 3, 3)]);
    assert_eq!(4, lazy_count(&inv, &state));
}

#[test]
fn lazyiter_three_root_two_full_one_empty_scratch() {
    let (inv, state) = state_of(&[(0, false), (0, false), (1000, true)], &[(10, 0, 0, 0), (10, 0, 1, 1), (10, 1, 0, 2), (10, 1, 1, 3)]);
    assert_eq!(4, lazy_count(&inv, &state));
}

#[test]
fn newlazyiter_empty_state_successors() {
    let (inv, state) = state_of(&[], &[]);
    assert_eq!(0, lazy_count(&inv, &state));
}

#[test]
fn newlazyiter_one_file_two_root_successor() {
    let (inv, state) = state_of(&[(1, false), (1, false)], &[(5, 0, 3, 0)]);
    assert_eq!(1, lazy_count(&inv, &state));
}

#[test]
fn newlazyiter_two_file_two_root_successor() {
    let (inv, state) = state_of(&[(1, false), (1, false)], &[(5, 0, 3, 0), (10, 1, 3, 1)]);
    assert_eq!(2, lazy_count(&inv, &state));
}

#[test]
fn newlazyiter_two_root_two_full() {
    let (inv, state) = state_of(&[(0, false), (0, false)], &[(10, 0, 3, 0), (10, 0, 3, 1), (10, 1, 3, 2), (10, 1, 3, 3)]);
    assert_eq!(0, lazy_count(&inv, &state));
}

#[test]
fn newlazyiter_three_root_two_full_one_empty() {
    let (inv, state) = state_of(&[(0, false), (0, false), (1000, false)], &[(10, 0, 3, 0), (10, 0, 3, 1), (10, 1, 3, 2), (10, 1, 3, 3)]);
    assert_eq!(4, lazy_count(&inv, &state));
}

#[test]
fn newlazyiter_three_root_two_full_one_empty_scratch() {
    let (inv, state) = state_of(&[(0, false), (0, false), (1000, true)], &[(10, 0, 0, 0), (10, 0, 1, 1), (10, 1, 0, 2), (10, 1, 1, 3)]);
    assert_eq!(4, lazy_count(&inv, &state));
}
