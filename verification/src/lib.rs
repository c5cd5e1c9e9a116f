//! The commit-graph core of a stacked-branch workflow: an arena of commits
//! keyed by id, the passes that annotate and restructure it, and the script
//! that the annotated graph is finally flattened into.
pub mod config;
pub mod git;
pub mod graph;
