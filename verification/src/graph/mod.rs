//! The commit graph and the passes over it.
pub mod acyclic;
pub mod again;
pub mod depth;
pub mod drop;
pub mod fixup;
pub mod graft;
pub mod guard;
pub mod keep;
pub mod large;
pub mod model;
pub mod node;
pub mod order;
pub mod outstanding;
pub mod picks;
pub mod protect;
pub mod pushable;
pub mod rebase;
pub mod replay;
pub mod script;
pub mod store;
pub mod sweep;
pub mod tree;
pub mod trim;
pub mod upstream;
pub mod whole;
