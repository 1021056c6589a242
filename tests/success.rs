use relocation::{FileSystem, Inventory, OverlayState};

/// A state over roots given as (blocks available, scratchpad) with 4096-byte
/// blocks, holding files given as (size, root, subdir, subpath) at their origin.
fn state_of(roots: &[(u64, bool)], files: &[(u64, usize, usize, usize)]) -> (Inventory, OverlayState) {
    let mut inv = Inventory::new();
    for &(size, root, subdir, subpath) in files {
        inv.add_entry(root, subdir, subpath, size);
    }
    let fss = roots
        .iter()
        .enumerate()
        .map(|(id, &(avail, scratch))| FileSystem::new(id as u64, 4096, avail, scratch))
        .collect::<Vec<_>>();
    let state = OverlayState::new(&inv, fss).unwrap();
    (inv, state)
}

#[test]
fn batchstatus_success_spread() {
    let (_inv, state) = state_of(&[(0, false), (0, false)], &[(10, 0, 0, 0), (10, 0, 1, 1), (10, 1, 0, 2), (10, 1, 1, 3)]);
    assert!(!state.success());
}

#[test]
fn batchstatus_success_done() {
    let (_inv, state) = state_of(&[(0, false), (0, false)], &[(10, 0, 0, 0), (10, 1, 1, 1), (10, 0, 0, 2), (10, 1, 1, 3)]);
    assert!(state.success());
}

#[test]
fn batchstatus_success_done_scratch() {
    let (_inv, state) = state_of(&[(0, false), (0, false), (1000, true)], &[(10, 0, 0, 0), (10, 1, 2, 1), (10, 0, 0, 2), (10, 1, 1, 3)]);
    assert!(state.success());
}

#[test]
fn batchstatus_success_scratch_used() {
    let (_inv, state) = state_of(&[(0, false), (0, false), (1000, true)], &[(10, 0, 0, 0), (10, 2, 2, 1), (10, 0, 0, 2), (10, 1, 1, 3)]);
    assert!(!state.success());
}

#[test]
fn newstatus_success_spread() {
    let (_inv, state) = state_of(&[(0, false), (0, false)], &[(10, 0, 0, 0), (10, 0, 1, 1), (10, 1, 0, 2), (10, 1, 1, 3)]);
    assert!(!state.success());
}

#[test]
fn newstatus_success_done() {
    let (_inv, state) = state_of(&[(0, false), (0, false)], &[(10, 0, 0, 0), (10, 1, 1, 1), (10, 0, 0, 2), (10, 1, 1, 3)]);
    assert!(state.success());
}

#[test]
fn newstatus_success_done_scratch() {
    let (_inv, state) = state_of(&[(0, false), (0, false), (1000, true)], &[(10, 0, 0, 0), (10, 1, 2, 1), (10, 0, 0, 2), (10, 1, 1, 3)]);
    assert!(state.success());
}

#[test]
fn newstatus_success_scratch_used() {
    let (_inv, state) = state_of(&[(0, false), (0, false), (1000, true)], &[(10, 0, 0, 0), (10, 2, 2, 1), (10, 0, 0, 2), (10, 1, 1, 3)]);
    assert!(!state.success());
}

#[test]
fn status_success_spread() {
    let (_inv, state) = state_of(&[(0, false), (0, false)], &[(10, 0, 0, 0), (10, 0, 1, 1), (10, 1, 0, 2), (10, 1, 1, 3)]);
    assert!(!state.success());
}

#[test]
fn status_success_done() {
    let (_inv, state) = state_of(&[(0, false), (0, false)], &[(10, 0, 0, 0), (10, 1, 1, 1), (10, 0, 0, 2), (10, 1, 1, 3)]);
    assert!(state.success());
}

#[test]
fn status_success_done_scratch() {
    let (_inv, state) = state_of(&[(0, false), (0, false), (1000, true)], &[(10, 0, 0, 0), (10, 1, 2, 1), (10, 0, 0, 2), (10, 1, 1, 3)]);
    assert!(state.success());
}

#[test]
fn status_success_scratch_used() {
    let (_inv, state) = state_of(&[(0, false), (0, false), (1000, true)], &[(10, 0, 0, 0), (10, 2, 2, 1), (10, 0, 0, 2), (10, 1, 1, 3)]);
    assert!(!state.success());
}
