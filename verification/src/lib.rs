//! Inspection model of a cgroup v2 hierarchy: the scanned tree, property
//! selection, the `tree`-style and JSON listings, and the state machine of
//! the interactive explorer.

pub mod text;
pub mod data;
pub mod filter;
pub mod list;
pub mod cgroup;
pub mod cli;
pub mod tui;
