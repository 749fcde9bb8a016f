//! The replica on a POSIX file system, used for the client side (typically).
//!
//! The bulk of the replica is represented literally on the local file system.
//! Some side data (a cache of hashes as well as data to know which directories
//! are still clean) is stored in a database under a directory owned by the
//! replica. Additionally, the replica uses the directory it owns for temporary
//! files created during the sync process.
//!
//! - `dao` is about what is stored in the database.
//!
//! - `dir` is about the state of a directory in memory.
//!
//! - `replica` is about what is done with files, and when.

pub mod dao;
pub mod dir;
pub mod replica;
