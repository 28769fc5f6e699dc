//! A personal task tracker: the dependency graph between tasks, the index of
//! task names, the identifier counter of a vault, and the rules by which tasks
//! are created, edited, listed and deleted.
//!
//! Each task of a vault is kept in a file of its own, and the state of the
//! vault in one more. This library holds what is decided about them; reading
//! and writing the files is left to the program around it.

pub mod args;
pub mod config;
pub mod display;
pub mod edit;
pub mod error;
pub mod format;
pub mod graph;
pub mod index;
pub mod list;
pub mod lists;
pub mod state;
pub mod stats;
pub mod tasks;
pub mod text;
pub mod tree;
pub mod vault;
pub mod vcs;
