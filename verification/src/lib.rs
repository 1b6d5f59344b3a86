//! Verified core of an SMB2 server.

pub mod bytes;
pub mod text;
pub mod utf16;
pub mod utils;
pub mod error;
pub mod path;
pub mod trace;
pub mod header;
pub mod ntstatus;
pub mod compound;
pub mod dispatch;
pub mod smb1;
pub mod messages;
pub mod handlers;
