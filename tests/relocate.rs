use relocation::{FileSystem, Inventory, OverlayState, PathMove, PlanError, StateNames};

/// Interns the files of a test directory, each given as (path below the test
/// directory, contents), as a scan of the roots `roots` would.
fn setup(
    test_dir: &str,
    roots: &[&str],
    files: &[(&str, &str)],
) -> (StateNames, Inventory, OverlayState) {
    let mut names = StateNames::new();
    let mut inv = Inventory::new();
    for root in roots {
        names.intern_root(&format!("{test_dir}/{root}").into_bytes());
    }
    for (file, contents) in files {
        let mut parts = file.splitn(3, '/');
        let root = parts.next().unwrap();
        let subdir = parts.next().unwrap();
        let subpath = parts.next().unwrap();
        let r = names.root_id(&format!("{test_dir}/{root}").into_bytes()).unwrap();
        let s = names.intern_subdir(&subdir.as_bytes().to_vec());
        let p = names.intern_subpath(&subpath.as_bytes().to_vec());
        inv.add_entry(r, s, p, contents.len() as u64);
    }
    let fss = (0..roots.len())
        .map(|id| FileSystem::new(id as u64, 4096, 1_000_000, false))
        .collect::<Vec<_>>();
    let state = OverlayState::new(&inv, fss).unwrap();
    (names, inv, state)
}

fn path_move(test_dir: &str, source: &str, target: &str) -> PathMove {
    PathMove {
        source: format!("{test_dir}/{source}").into_bytes(),
        target: format!("{test_dir}/{target}").into_bytes(),
    }
}

#[test]
fn one_dir() {
    let test_dir = "test_dir_one_dir";
    let (_names, inv, state) = setup(
        test_dir,
        &["b"],
        &[("b/c/3.txt", "3"), ("b/c/2.txt", "hello"), ("b/c/4.txt", "1234567890")],
    );
    assert_eq!(Err(PlanError::AlreadyRelocated), state.relocate(&inv).map(|_| ()));
}

#[test]
fn two_dirs() {
    let test_dir = "test_dir_two_dirs";
    let (names, inv, state) = setup(
        test_dir,
        &["a", "b"],
        &[
            ("b/c/3.txt", "3"),
            ("b/c/2.txt", "hello"),
            ("b/c/4.txt", "1234567890"),
            ("a/c/1.txt", "hello_world"),
            ("a/c/5.txt", "cat"),
        ],
    );
    let r = state.relocate(&inv);
    assert!(r.is_ok());
    let (moves, cost) = r.unwrap();
    assert_eq!(14, cost);
    assert_eq!(2, moves.len());
    let moves = moves.iter().map(|m| names.path_move(m)).collect::<Vec<_>>();
    assert!(moves.contains(&path_move(test_dir, "a/c/1.txt", "b/c/1.txt")));
    assert!(moves.contains(&path_move(test_dir, "a/c/5.txt", "b/c/5.txt")));
}

#[test]
fn one_dir_new() {
    let test_dir = "test_dir_one_dir_new";
    let (_names, inv, state) = setup(
        test_dir,
        &["b"],
        &[("b/c/3.txt", "3"), ("b/c/2.txt", "hello"), ("b/c/4.txt", "1234567890")],
    );
    assert_eq!(Err(PlanError::AlreadyRelocated), state.relocate(&inv).map(|_| ()));
}

#[test]
fn two_dirs_new() {
    let test_dir = "test_dir_two_dirs_new";
    let (_names, inv, state) = setup(
        test_dir,
        &["a", "b"],
        &[
            ("b/c/3.txt", "3"),
            ("b/c/2.txt", "hello"),
            ("b/c/4.txt", "1234567890"),
            ("a/c/1.txt", "hello_world"),
            ("a/c/5.txt", "cat"),
        ],
    );
    let r = state.relocate(&inv);
    assert!(r.is_ok());
    let (moves, cost) = r.unwrap();
    assert_eq!(14, cost);
    assert_eq!(2, moves.len());
}
