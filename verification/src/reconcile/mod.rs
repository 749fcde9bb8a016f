//! The reconciler.

pub mod compute;
pub mod content_laws;
pub mod context;
pub mod convergence;
pub mod descend;
pub mod file_laws;
pub mod laws;
pub mod model;
pub mod mutate;
pub mod place;
pub mod skipping;
pub mod tree_walk;
pub mod trees;
pub mod walk_laws;
