//! Planning of file relocations across filesystem roots, so that each
//! top-level subdirectory ends up under a single root.
pub mod config;
pub mod filesystem;
pub mod inventory;
pub mod state;
pub mod successors;
pub mod search;
pub mod names;
pub mod laws;

pub use config::Config;
pub use filesystem::FileSystem;
pub use inventory::{DeltaEntry, Entry, Inventory};
pub use state::OverlayState;
pub use successors::LazySuccessors;
pub use search::{Move, PlanError};
pub use names::{PathMove, StateNames};
