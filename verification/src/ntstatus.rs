//! NTSTATUS codes (MS-ERREF §2.3.1) that the handlers answer with.

use vstd::prelude::*;

verus! {

pub const STATUS_SUCCESS: u32 = 0x0000_0000;

pub const STATUS_NO_MORE_FILES: u32 = 0x8000_0006;

pub const STATUS_INVALID_INFO_CLASS: u32 = 0xC000_0003;

pub const STATUS_INFO_LENGTH_MISMATCH: u32 = 0xC000_0004;

pub const STATUS_INVALID_PARAMETER: u32 = 0xC000_000D;

pub const STATUS_MORE_PROCESSING_REQUIRED: u32 = 0xC000_0016;

pub const STATUS_ACCESS_DENIED: u32 = 0xC000_0022;

pub const STATUS_OBJECT_NAME_INVALID: u32 = 0xC000_0033;

pub const STATUS_OBJECT_NAME_NOT_FOUND: u32 = 0xC000_0034;

pub const STATUS_NO_EAS_ON_FILE: u32 = 0xC000_0052;

pub const STATUS_NOT_SUPPORTED: u32 = 0xC000_00BB;

pub const STATUS_FILE_CLOSED: u32 = 0xC000_0128;

pub const STATUS_USER_SESSION_DELETED: u32 = 0xC000_0203;

/// The codes as they go over the wire.
pub proof fn lemma_status_codes()
    ensures
        STATUS_SUCCESS == 0,
        STATUS_NO_MORE_FILES == 0x8000_0006,
        STATUS_INVALID_INFO_CLASS == 0xC000_0003,
        STATUS_INFO_LENGTH_MISMATCH == 0xC000_0004,
        STATUS_INVALID_PARAMETER == 0xC000_000D,
        STATUS_MORE_PROCESSING_REQUIRED == 0xC000_0016,
        STATUS_ACCESS_DENIED == 0xC000_0022,
        STATUS_OBJECT_NAME_INVALID == 0xC000_0033,
        STATUS_OBJECT_NAME_NOT_FOUND == 0xC000_0034,
        STATUS_NO_EAS_ON_FILE == 0xC000_0052,
        STATUS_NOT_SUPPORTED == 0xC000_00BB,
        STATUS_FILE_CLOSED == 0xC000_0128,
        STATUS_USER_SESSION_DELETED == 0xC000_0203,
{
}

} // verus!
