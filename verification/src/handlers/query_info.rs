//! QUERY_INFO.
//!
//! [`select`] turns a request into what has to be encoded, or into the status
//! that refuses it. [`finish`] turns the encoded information into the response.

use vstd::prelude::*;

use crate::dispatch::{error_response, plain_response, HandlerResponse};
use crate::messages::{encode_output, output_body, FileInfo};
use crate::ntstatus::{
    STATUS_FILE_CLOSED, STATUS_INFO_LENGTH_MISMATCH, STATUS_INVALID_INFO_CLASS,
    STATUS_INVALID_PARAMETER, STATUS_NOT_SUPPORTED, STATUS_NO_EAS_ON_FILE, STATUS_SUCCESS,
};

verus! {

// Info types (MS-SMB2 §2.2.37)
pub const INFO_FILE: u8 = 1;

pub const INFO_FILESYSTEM: u8 = 2;

pub const INFO_SECURITY: u8 = 3;

pub const INFO_QUOTA: u8 = 4;

// File information classes (MS-FSCC §2.4)
pub const FILE_BASIC_INFORMATION: u8 = 4;

pub const FILE_STANDARD_INFORMATION: u8 = 5;

pub const FILE_INTERNAL_INFORMATION: u8 = 6;

pub const FILE_EA_INFORMATION: u8 = 7;

pub const FILE_ACCESS_INFORMATION: u8 = 8;

pub const FILE_NAME_INFORMATION: u8 = 9;

pub const FILE_POSITION_INFORMATION: u8 = 14;

pub const FILE_FULL_EA_INFORMATION: u8 = 15;

pub const FILE_MODE_INFORMATION: u8 = 16;

pub const FILE_ALIGNMENT_INFORMATION: u8 = 17;

pub const FILE_ALL_INFORMATION: u8 = 18;

pub const FILE_STREAM_INFORMATION: u8 = 22;

pub const FILE_NETWORK_OPEN_INFORMATION: u8 = 34;

// File system information classes (MS-FSCC §2.5)
pub const FS_VOLUME_INFORMATION: u8 = 1;

pub const FS_SIZE_INFORMATION: u8 = 3;

pub const FS_DEVICE_INFORMATION: u8 = 4;

pub const FS_ATTRIBUTE_INFORMATION: u8 = 5;

pub const FS_FULL_SIZE_INFORMATION: u8 = 7;

pub const FILE_DEVICE_DISK: u32 = 0x0000_0007;

pub const FILE_REMOTE_DEVICE: u32 = 0x0000_0010;

// FS attribute flags (MS-FSCC §2.5.1)
pub const FILE_CASE_SENSITIVE_SEARCH: u32 = 0x0000_0001;

pub const FILE_CASE_PRESERVED_NAMES: u32 = 0x0000_0002;

pub const FILE_UNICODE_ON_DISK: u32 = 0x0000_0004;

pub const FILE_PERSISTENT_ACLS: u32 = 0x0000_0008;

pub const FILE_FILE_COMPRESSION: u32 = 0x0000_0010;

pub const FILE_SUPPORTS_HARD_LINKS: u32 = 0x0040_0000;

pub const FILE_SUPPORTS_EXTENDED_ATTRIBUTES: u32 = 0x0080_0000;

pub const FILE_NAMED_STREAMS: u32 = 0x0004_0000;

/// Every right on a file.
pub const FULL_ACCESS: u32 = 0x001F_01FF;

/// The serial number of the volume.
pub const VOLUME_SERIAL: u32 = 0xCAFE_BABE;

/// The label of the volume.
pub const VOLUME_LABEL: &'static str = "smb-server";

/// The name of the file system.
pub const FILE_SYSTEM_NAME: &'static str = "NTFS";

/// The longest name component.
pub const MAX_NAME_LENGTH: u32 = 255;

/// The allocation units of the pseudo-volume.
pub const TOTAL_UNITS: u64 = 0x100_0000_0000;

/// The allocation units of the pseudo-volume that are free.
pub const FREE_UNITS: u64 = 0x80_0000_0000;

pub const SECTORS_PER_UNIT: u32 = 1;

pub const BYTES_PER_SECTOR: u32 = 4096;

/// What the handler reads of a QUERY_INFO request.
#[derive(Debug, Clone, Copy)]
pub struct QueryInfoRequest {
    pub info_type: u8,
    pub file_information_class: u8,
    pub output_buffer_length: u32,
}

/// What the handler reads of an open.
#[derive(Debug)]
pub struct QueriedOpen {
    /// The volatile part of the FileId, the unique id of the handle.
    pub file_index: u64,
    /// What the backend knows of the open name, or the status of its failure.
    pub stat: Result<FileInfo, u32>,
}

/// Information to encode. The file classes that take no argument here describe
/// what the backend knows of the open name.
#[derive(Debug, Clone, Copy)]
pub enum InfoPayload {
    FileBasic,
    FileStandard,
    FileInternal { file_index: u64 },
    FileEa,
    FileAccess { access: u32 },
    FilePosition,
    FileMode { mode: u32 },
    FileAlignment,
    FileName,
    FileAll { file_index: u64, access: u32 },
    FileNetworkOpen,
    FileStream,
    FsVolume { creation_time: u64, serial: u32, label: &'static str },
    FsSize { total: u64, free: u64, sectors_per_unit: u32, bytes_per_sector: u32 },
    FsDevice { device_type: u32, characteristics: u32 },
    FsAttribute { attributes: u32, max_name_length: u32, file_system: &'static str },
    FsFullSize {
        total: u64,
        caller_free: u64,
        actual_free: u64,
        sectors_per_unit: u32,
        bytes_per_sector: u32,
    },
    SecurityDescriptor,
}

/// The file system attributes. `FILE_NAMED_STREAMS` is advertised only when the
/// backend honours stream names: claiming it otherwise would make clients
/// attempt stream-backed writes against a backend that drops them onto the
/// primary data stream.
pub open spec fn fs_attributes(named_streams: bool) -> u32 {
    let base = FILE_CASE_SENSITIVE_SEARCH | FILE_CASE_PRESERVED_NAMES | FILE_UNICODE_ON_DISK
        | FILE_PERSISTENT_ACLS | FILE_FILE_COMPRESSION | FILE_SUPPORTS_HARD_LINKS
        | FILE_SUPPORTS_EXTENDED_ATTRIBUTES;
    if named_streams {
        base | FILE_NAMED_STREAMS
    } else {
        base
    }
}

/// What a file information class asks for.
pub open spec fn file_payload(class: u8, file_index: u64) -> Result<InfoPayload, u32> {
    if class == FILE_BASIC_INFORMATION {
        Ok(InfoPayload::FileBasic)
    } else if class == FILE_STANDARD_INFORMATION {
        Ok(InfoPayload::FileStandard)
    } else if class == FILE_INTERNAL_INFORMATION {
        Ok(InfoPayload::FileInternal { file_index })
    } else if class == FILE_EA_INFORMATION {
        Ok(InfoPayload::FileEa)
    } else if class == FILE_FULL_EA_INFORMATION {
        Err(STATUS_NO_EAS_ON_FILE)
    } else if class == FILE_ACCESS_INFORMATION {
        Ok(InfoPayload::FileAccess { access: FULL_ACCESS })
    } else if class == FILE_POSITION_INFORMATION {
        Ok(InfoPayload::FilePosition)
    } else if class == FILE_MODE_INFORMATION {
        Ok(InfoPayload::FileMode { mode: 0 })
    } else if class == FILE_ALIGNMENT_INFORMATION {
        Ok(InfoPayload::FileAlignment)
    } else if class == FILE_NAME_INFORMATION {
        Ok(InfoPayload::FileName)
    } else if class == FILE_ALL_INFORMATION {
        Ok(InfoPayload::FileAll { file_index, access: FULL_ACCESS })
    } else if class == FILE_NETWORK_OPEN_INFORMATION {
        Ok(InfoPayload::FileNetworkOpen)
    } else if class == FILE_STREAM_INFORMATION {
        Ok(InfoPayload::FileStream)
    } else {
        Err(STATUS_INVALID_INFO_CLASS)
    }
}

/// What a file system information class asks for.
pub open spec fn fs_payload(class: u8, creation_time: u64, named_streams: bool) -> Result<
    InfoPayload,
    u32,
> {
    if class == FS_VOLUME_INFORMATION {
        Ok(
            InfoPayload::FsVolume {
                creation_time,
                serial: VOLUME_SERIAL,
                label: VOLUME_LABEL,
            },
        )
    } else if class == FS_SIZE_INFORMATION {
        Ok(
            InfoPayload::FsSize {
                total: TOTAL_UNITS,
                free: FREE_UNITS,
                sectors_per_unit: SECTORS_PER_UNIT,
                bytes_per_sector: BYTES_PER_SECTOR,
            },
        )
    } else if class == FS_DEVICE_INFORMATION {
        Ok(
            InfoPayload::FsDevice {
                device_type: FILE_DEVICE_DISK,
                characteristics: FILE_REMOTE_DEVICE,
            },
        )
    } else if class == FS_ATTRIBUTE_INFORMATION {
        Ok(
            InfoPayload::FsAttribute {
                attributes: fs_attributes(named_streams),
                max_name_length: MAX_NAME_LENGTH,
                file_system: FILE_SYSTEM_NAME,
            },
        )
    } else if class == FS_FULL_SIZE_INFORMATION {
        Ok(
            InfoPayload::FsFullSize {
                total: TOTAL_UNITS,
                caller_free: FREE_UNITS,
                actual_free: FREE_UNITS,
                sectors_per_unit: SECTORS_PER_UNIT,
                bytes_per_sector: BYTES_PER_SECTOR,
            },
        )
    } else {
        Err(STATUS_INVALID_INFO_CLASS)
    }
}

/// What a request asks for, or the status that refuses it. Of several reasons
/// the first one counts. `tree` says whether the backend of the tree honours
/// stream names.
pub open spec fn selected(
    request: Option<QueryInfoRequest>,
    tree: Result<bool, u32>,
    open: Option<QueriedOpen>,
) -> Result<InfoPayload, u32> {
    match request {
        None => Err(STATUS_INVALID_PARAMETER),
        Some(req) => if !(INFO_FILE <= req.info_type <= INFO_QUOTA) {
            Err(STATUS_INVALID_INFO_CLASS)
        } else {
            match (tree, open) {
                (Err(status), _) => Err(status),
                (Ok(_), None) => Err(STATUS_FILE_CLOSED),
                (Ok(named_streams), Some(open)) => if req.info_type == INFO_FILE {
                    match open.stat {
                        Ok(_) => file_payload(req.file_information_class, open.file_index),
                        Err(status) => Err(status),
                    }
                } else if req.info_type == INFO_FILESYSTEM {
                    fs_payload(
                        req.file_information_class,
                        match open.stat {
                            Ok(info) => info.creation_time,
                            Err(_) => 0,
                        },
                        named_streams,
                    )
                } else if req.info_type == INFO_SECURITY {
                    Ok(InfoPayload::SecurityDescriptor)
                } else {
                    Err(STATUS_NOT_SUPPORTED)
                },
            }
        },
    }
}

/// Selects what a file information class asks for.
fn select_file(class: u8, file_index: u64) -> (r: Result<InfoPayload, u32>)
    ensures
        r == file_payload(class, file_index),
{
    match class {
        FILE_BASIC_INFORMATION => Ok(InfoPayload::FileBasic),
        FILE_STANDARD_INFORMATION => Ok(InfoPayload::FileStandard),
        FILE_INTERNAL_INFORMATION => Ok(InfoPayload::FileInternal { file_index }),
        FILE_EA_INFORMATION => Ok(InfoPayload::FileEa),
        FILE_FULL_EA_INFORMATION => Err(STATUS_NO_EAS_ON_FILE),
        FILE_ACCESS_INFORMATION => Ok(InfoPayload::FileAccess { access: FULL_ACCESS }),
        FILE_POSITION_INFORMATION => Ok(InfoPayload::FilePosition),
        FILE_MODE_INFORMATION => Ok(InfoPayload::FileMode { mode: 0 }),
        FILE_ALIGNMENT_INFORMATION => Ok(InfoPayload::FileAlignment),
        FILE_NAME_INFORMATION => Ok(InfoPayload::FileName),
        FILE_ALL_INFORMATION => Ok(InfoPayload::FileAll { file_index, access: FULL_ACCESS }),
        FILE_NETWORK_OPEN_INFORMATION => Ok(InfoPayload::FileNetworkOpen),
        FILE_STREAM_INFORMATION => Ok(InfoPayload::FileStream),
        _ => Err(STATUS_INVALID_INFO_CLASS),
    }
}

/// Selects what a file system information class asks for.
fn select_fs(class: u8, creation_time: u64, named_streams: bool) -> (r: Result<InfoPayload, u32>)
    ensures
        r == fs_payload(class, creation_time, named_streams),
{
    match class {
        FS_VOLUME_INFORMATION => Ok(
            InfoPayload::FsVolume { creation_time, serial: VOLUME_SERIAL, label: VOLUME_LABEL },
        ),
        FS_SIZE_INFORMATION => Ok(
            InfoPayload::FsSize {
                total: TOTAL_UNITS,
                free: FREE_UNITS,
                sectors_per_unit: SECTORS_PER_UNIT,
                bytes_per_sector: BYTES_PER_SECTOR,
            },
        ),
        FS_DEVICE_INFORMATION => Ok(
            InfoPayload::FsDevice {
                device_type: FILE_DEVICE_DISK,
                characteristics: FILE_REMOTE_DEVICE,
            },
        ),
        FS_ATTRIBUTE_INFORMATION => {
            let mut attributes: u32 = FILE_CASE_SENSITIVE_SEARCH | FILE_CASE_PRESERVED_NAMES
                | FILE_UNICODE_ON_DISK | FILE_PERSISTENT_ACLS | FILE_FILE_COMPRESSION
                | FILE_SUPPORTS_HARD_LINKS | FILE_SUPPORTS_EXTENDED_ATTRIBUTES;
            if named_streams {
                attributes = attributes | FILE_NAMED_STREAMS;
            }
            Ok(
                InfoPayload::FsAttribute {
                    attributes,
                    max_name_length: MAX_NAME_LENGTH,
                    file_system: FILE_SYSTEM_NAME,
                },
            )
        },
        FS_FULL_SIZE_INFORMATION => Ok(
            InfoPayload::FsFullSize {
                total: TOTAL_UNITS,
                caller_free: FREE_UNITS,
                actual_free: FREE_UNITS,
                sectors_per_unit: SECTORS_PER_UNIT,
                bytes_per_sector: BYTES_PER_SECTOR,
            },
        ),
        _ => Err(STATUS_INVALID_INFO_CLASS),
    }
}

/// Selects what a request asks for. `request` is `None` where the body of the
/// request does not parse; `tree` is whether the tree's backend honours stream
/// names, or the status of a session or tree that does not exist; `open` is
/// `None` where the FileId names no open or one that has been closed.
pub fn select(
    request: Option<QueryInfoRequest>,
    tree: Result<bool, u32>,
    open: Option<&QueriedOpen>,
) -> (r: Result<InfoPayload, u32>)
    ensures
        r == selected(
            request,
            tree,
            match open {
                Some(o) => Some(*o),
                None => None,
            },
        ),
{
    let req = match request {
        Some(r) => r,
        None => return Err(STATUS_INVALID_PARAMETER),
    };
    if req.info_type < INFO_FILE || req.info_type > INFO_QUOTA {
        return Err(STATUS_INVALID_INFO_CLASS);
    }
    let named_streams = match tree {
        Ok(n) => n,
        Err(status) => return Err(status),
    };
    let open = match open {
        Some(o) => o,
        None => return Err(STATUS_FILE_CLOSED),
    };
    match req.info_type {
        INFO_FILE => match &open.stat {
            Ok(_) => select_file(req.file_information_class, open.file_index),
            Err(status) => Err(*status),
        },
        INFO_FILESYSTEM => {
            let creation_time: u64 = match &open.stat {
                Ok(info) => info.creation_time,
                Err(_) => 0,
            };
            select_fs(req.file_information_class, creation_time, named_streams)
        },
        INFO_SECURITY => Ok(InfoPayload::SecurityDescriptor),
        _ => Err(STATUS_NOT_SUPPORTED),
    }
}

/// `r` answers with the encoded information, unless it is longer than what the
/// client offered.
pub open spec fn answers_query(r: HandlerResponse, offered: u32, buffer: Seq<u8>) -> bool {
    if buffer.len() as u32 > offered {
        error_response(r, STATUS_INFO_LENGTH_MISMATCH)
    } else {
        plain_response(r, STATUS_SUCCESS, output_body(buffer))
    }
}

/// Answers a request with the encoded information, unless the client's buffer
/// is too small for it.
pub fn finish(req: QueryInfoRequest, buffer: &[u8]) -> (r: HandlerResponse)
    ensures
        answers_query(r, req.output_buffer_length, buffer@),
        if buffer@.len() as u32 > req.output_buffer_length {
            error_response(r, STATUS_INFO_LENGTH_MISMATCH)
        } else {
            plain_response(r, STATUS_SUCCESS, output_body(buffer@))
        },
{
    if buffer.len() as u32 > req.output_buffer_length {
        return HandlerResponse::err(STATUS_INFO_LENGTH_MISMATCH);
    }
    HandlerResponse::ok(encode_output(buffer))
}

/// Named streams are advertised if and only if the backend honours them, and
/// nothing else depends on that.
pub proof fn lemma_named_streams_advertised()
    ensures
        fs_attributes(true) & FILE_NAMED_STREAMS != 0,
        fs_attributes(false) & FILE_NAMED_STREAMS == 0,
        fs_attributes(true) == fs_attributes(false) | FILE_NAMED_STREAMS,
{
    assert((1u32 | 2 | 4 | 8 | 0x10 | 0x40_0000 | 0x80_0000 | 0x4_0000) & 0x4_0000 != 0)
        by (bit_vector);
    assert((1u32 | 2 | 4 | 8 | 0x10 | 0x40_0000 | 0x80_0000) & 0x4_0000 == 0) by (bit_vector);
}

/// Which file information classes are answered: 4, 5, 6, 7, 8, 9, 14, 16, 17, 18,
/// 22 and 34, each with its own information. Class 15 is STATUS_NO_EAS_ON_FILE
/// (C0000052), and every other one STATUS_INVALID_INFO_CLASS (C0000003). The ids in
/// an answer are the open's, and the rights are 1F01FF.
pub proof fn lemma_file_classes(class: u8, file_index: u64)
    ensures
        file_payload(class, file_index) == match class {
            4 => Ok(InfoPayload::FileBasic),
            5 => Ok(InfoPayload::FileStandard),
            6 => Ok(InfoPayload::FileInternal { file_index }),
            7 => Ok(InfoPayload::FileEa),
            8 => Ok(InfoPayload::FileAccess { access: 0x1F_01FF }),
            9 => Ok(InfoPayload::FileName),
            14 => Ok(InfoPayload::FilePosition),
            15 => Err(0xC000_0052u32),
            16 => Ok(InfoPayload::FileMode { mode: 0 }),
            17 => Ok(InfoPayload::FileAlignment),
            18 => Ok(InfoPayload::FileAll { file_index, access: 0x1F_01FF }),
            22 => Ok(InfoPayload::FileStream),
            34 => Ok(InfoPayload::FileNetworkOpen),
            _ => Err(0xC000_0003u32),
        },
{
}

/// Which file system information classes are answered: 1, 3, 4, 5 and 7. Half of
/// the 2^40 units of one sector of 4096 bytes are free; the device is a remote
/// disk. Every other class is STATUS_INVALID_INFO_CLASS (C0000003).
pub proof fn lemma_fs_classes(class: u8, creation_time: u64, named_streams: bool)
    ensures
        ({
            let r = fs_payload(class, creation_time, named_streams);
            &&& !(class == 1 || class == 3 || class == 4 || class == 5 || class == 7) ==> r == Err::<
                InfoPayload,
                u32,
            >(0xC000_0003u32)
            &&& class == 1 ==> match r {
                Ok(InfoPayload::FsVolume { creation_time: t, serial, label }) => t == creation_time
                    && serial == 0xCAFE_BABE && label@ == "smb-server"@,
                _ => false,
            }
            &&& class == 3 ==> r == Ok::<InfoPayload, u32>(
                InfoPayload::FsSize {
                    total: 1_099_511_627_776,
                    free: 549_755_813_888,
                    sectors_per_unit: 1,
                    bytes_per_sector: 4096,
                },
            )
            &&& class == 4 ==> r == Ok::<InfoPayload, u32>(
                InfoPayload::FsDevice { device_type: 7, characteristics: 0x10 },
            )
            &&& class == 5 ==> match r {
                Ok(
                    InfoPayload::FsAttribute { attributes, max_name_length, file_system },
                ) => max_name_length == 255 && file_system@ == "NTFS"@ && attributes
                    == 0x00C0_001F + (if named_streams {
                    0x0004_0000int
                } else {
                    0
                }),
                _ => false,
            }
            &&& class == 7 ==> r == Ok::<InfoPayload, u32>(
                InfoPayload::FsFullSize {
                    total: 1_099_511_627_776,
                    caller_free: 549_755_813_888,
                    actual_free: 549_755_813_888,
                    sectors_per_unit: 1,
                    bytes_per_sector: 4096,
                },
            )
        }),
{
    assert(1u32 | 2 | 4 | 8 | 0x10 | 0x40_0000 | 0x80_0000 == 0xC0_001F) by (bit_vector);
    assert(0xC0_001Fu32 | 0x4_0000 == 0xC4_001F) by (bit_vector);
}

/// What decides on a query, first reason first: a request that does not parse is
/// STATUS_INVALID_PARAMETER (C000000D); an info type other than 1 to 4
/// STATUS_INVALID_INFO_CLASS (C0000003); a tree that does not exist gives its own
/// status; no open is STATUS_FILE_CLOSED (C0000128). Type 1 asks about the file and
/// fails where the backend failed; type 2 asks about the file system and does not;
/// type 3 asks for the security descriptor; type 4 is STATUS_NOT_SUPPORTED
/// (C00000BB).
pub proof fn lemma_query_decided(
    req: QueryInfoRequest,
    tree: Result<bool, u32>,
    open: Option<QueriedOpen>,
)
    ensures
        selected(None, tree, open) == Err::<InfoPayload, u32>(0xC000_000Du32),
        ({
            let r = selected(Some(req), tree, open);
            let known = req.info_type == 1 || req.info_type == 2 || req.info_type == 3
                || req.info_type == 4;
            &&& !known ==> r == Err::<InfoPayload, u32>(0xC000_0003u32)
            &&& known && tree is Err ==> r == Err::<InfoPayload, u32>(tree->Err_0)
            &&& known && tree is Ok && open is None ==> r == Err::<InfoPayload, u32>(
                0xC000_0128u32,
            )
            &&& known && tree is Ok && open is Some ==> {
                let o = open->0;
                &&& req.info_type == 1 && o.stat is Err ==> r == Err::<InfoPayload, u32>(
                    o.stat->Err_0,
                )
                &&& req.info_type == 1 && o.stat is Ok ==> r == file_payload(
                    req.file_information_class,
                    o.file_index,
                )
                &&& req.info_type == 2 && o.stat is Err ==> r == fs_payload(
                    req.file_information_class,
                    0,
                    tree->Ok_0,
                )
                &&& req.info_type == 2 && o.stat is Ok ==> r == fs_payload(
                    req.file_information_class,
                    o.stat->Ok_0.creation_time,
                    tree->Ok_0,
                )
                &&& req.info_type == 3 ==> r == Ok::<InfoPayload, u32>(
                    InfoPayload::SecurityDescriptor,
                )
                &&& req.info_type == 4 ==> r == Err::<InfoPayload, u32>(0xC000_00BBu32)
            }
        }),
{
}

/// A query succeeds exactly if the information is no longer than what the client
/// offered, and then carries all of it behind eight bytes; otherwise it is
/// STATUS_INFO_LENGTH_MISMATCH (C0000004) with none of it.
pub proof fn lemma_query_answer(r: HandlerResponse, offered: u32, buffer: Seq<u8>)
    requires
        answers_query(r, offered, buffer),
        buffer.len() <= u32::MAX,
    ensures
        buffer.len() <= offered ==> r.status == 0 && r.body@.len() == 8 + buffer.len()
            && r.body@.skip(8) == buffer,
        buffer.len() > offered ==> r.status == 0xC000_0004 && r.body@.len() == 9,
{
    crate::messages::lemma_output_layout(buffer);
}

} // verus!
