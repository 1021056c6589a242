use vstd::prelude::*;

verus! {

/// What the command line asks for: the roots to gather subdirs under, the
/// scratchpad roots to empty, and whether to carry the plan out.
#[derive(Debug, Clone)]
pub struct Config {
    /// Paths of the roots to search for files within.
    pub root: Vec<String>,
    /// Whether the plan should be executed.
    pub execute: bool,
    /// Paths of roots to use for temporary storage.
    pub scratch: Vec<String>,
}

impl Config {
    pub fn new(root: Vec<String>, execute: bool, scratch: Vec<String>) -> (r: Self)
        ensures
            r.root == root,
            r.execute == execute,
            r.scratch == scratch,
    {
        Config { root, execute, scratch }
    }
}

} // verus!
