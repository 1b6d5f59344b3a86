//! What the command handlers decide and answer. Opening, listing and looking up
//! is the caller's part; it hands the outcomes in.

pub mod create;
pub mod query_info;
pub mod query_directory;
