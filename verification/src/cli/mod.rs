//! What the commands of the program compute and decide.

pub mod config;
pub mod format_date;
pub mod keys;
pub mod log_laws;
pub mod manual;
pub mod open_server;
pub mod options;
pub mod setup;
pub mod sync_log;
pub mod sync_run;
pub mod toml_table;
