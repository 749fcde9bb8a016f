//! The logic of an encrypting bidirectional file synchroniser.

pub mod ancestor;
pub mod blob_reconcile;
pub mod bytes;
pub mod cli;
pub mod defs;
pub mod digest;
pub mod dry_run_replica;
pub mod errors;
pub mod interrupt;
pub mod log;
pub mod memory_replica;
pub mod mutator;
pub mod path;
pub mod posix;
pub mod reconcile;
pub mod replica;
pub mod rules;
pub mod table;
pub mod text;
