//! The ancestor replica, which remembers what the files were like when they
//! were last in sync. It is stored entirely in a single database.
//!
//! - `dao` decides on the primitive operations on the store.
//!
//! - `replica` gives meaning to what is stored.

pub mod dao;
pub mod replica;
