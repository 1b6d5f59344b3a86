use smb_server::handlers::query_info::{
    finish, select, InfoPayload, QueriedOpen, QueryInfoRequest, FILE_NAMED_STREAMS,
    FS_ATTRIBUTE_INFORMATION,
};
use smb_server::messages::FileInfo;
use smb_server::ntstatus;

fn open() -> QueriedOpen {
    QueriedOpen {
        file_index: 77,
        stat: Ok(FileInfo {
            name: String::new(),
            end_of_file: 0,
            allocation_size: 0,
            creation_time: 0x01D9_0000_0000_0000,
            last_access_time: 0,
            last_write_time: 0,
            change_time: 0,
            is_directory: true,
            file_index: 0,
            attributes: 0x10,
        }),
    }
}

fn query(info_type: u8, class: u8) -> Option<QueryInfoRequest> {
    Some(QueryInfoRequest {
        info_type,
        file_information_class: class,
        output_buffer_length: 4096,
    })
}

fn fs_attributes(named_streams: bool) -> u32 {
    match select(query(2, FS_ATTRIBUTE_INFORMATION), Ok(named_streams), Some(&open())) {
        Ok(InfoPayload::FsAttribute {
            attributes,
            max_name_length,
            file_system,
        }) => {
            assert_eq!(max_name_length, 255);
            assert_eq!(file_system, "NTFS");
            attributes
        }
        other => panic!("{other:?}"),
    }
}

#[test]
fn fs_attribute_information_advertises_named_streams_when_the_backend_supports_them() {
    let attrs = fs_attributes(true);
    assert_ne!(
        attrs & FILE_NAMED_STREAMS,
        0,
        "the backend implements streams — FILE_NAMED_STREAMS must be advertised"
    );
    assert_eq!(attrs, 0x00C4_001F);
}

#[test]
fn fs_attribute_information_does_not_claim_streams_the_backend_lacks() {
    assert_eq!(fs_attributes(false), 0x00C0_001F);
}

#[test]
fn query_refusals_come_in_order() {
    let open = open();
    let status = |q, t, o| select(q, t, o).unwrap_err();
    assert_eq!(
        status(None, Err(1), None),
        ntstatus::STATUS_INVALID_PARAMETER
    );
    assert_eq!(
        status(query(0, 4), Err(1), None),
        ntstatus::STATUS_INVALID_INFO_CLASS
    );
    assert_eq!(
        status(query(5, 4), Err(1), None),
        ntstatus::STATUS_INVALID_INFO_CLASS
    );
    assert_eq!(status(query(1, 4), Err(1), None), 1);
    assert_eq!(
        status(query(4, 4), Ok(true), None),
        ntstatus::STATUS_FILE_CLOSED
    );
    assert_eq!(
        status(query(4, 4), Ok(true), Some(&open)),
        ntstatus::STATUS_NOT_SUPPORTED
    );
    assert_eq!(
        status(query(1, 15), Ok(true), Some(&open)),
        ntstatus::STATUS_NO_EAS_ON_FILE
    );
    assert_eq!(
        status(query(1, 1), Ok(true), Some(&open)),
        ntstatus::STATUS_INVALID_INFO_CLASS
    );
    assert_eq!(
        status(query(2, 2), Ok(true), Some(&open)),
        ntstatus::STATUS_INVALID_INFO_CLASS
    );
}

#[test]
fn a_failed_stat_fails_file_queries_only() {
    let open = QueriedOpen {
        file_index: 1,
        stat: Err(ntstatus::STATUS_OBJECT_NAME_NOT_FOUND),
    };
    assert_eq!(
        select(query(1, 4), Ok(true), Some(&open)).unwrap_err(),
        ntstatus::STATUS_OBJECT_NAME_NOT_FOUND
    );
    match select(query(2, 1), Ok(true), Some(&open)) {
        Ok(InfoPayload::FsVolume {
            creation_time,
            serial,
            label,
        }) => {
            assert_eq!(creation_time, 0);
            assert_eq!(serial, 0xCAFE_BABE);
            assert_eq!(label, "smb-server");
        }
        other => panic!("{other:?}"),
    }
    assert!(matches!(
        select(query(3, 0), Ok(true), Some(&open)),
        Ok(InfoPayload::SecurityDescriptor)
    ));
}

#[test]
fn classes_select_their_information() {
    let open = open();
    let get = |t, c| select(query(t, c), Ok(false), Some(&open)).unwrap();
    assert!(matches!(get(1, 4), InfoPayload::FileBasic));
    assert!(matches!(get(1, 5), InfoPayload::FileStandard));
    assert!(matches!(get(1, 6), InfoPayload::FileInternal { file_index: 77 }));
    assert!(matches!(get(1, 7), InfoPayload::FileEa));
    assert!(matches!(get(1, 8), InfoPayload::FileAccess { access: 0x001F_01FF }));
    assert!(matches!(get(1, 9), InfoPayload::FileName));
    assert!(matches!(get(1, 14), InfoPayload::FilePosition));
    assert!(matches!(get(1, 16), InfoPayload::FileMode { mode: 0 }));
    assert!(matches!(get(1, 17), InfoPayload::FileAlignment));
    assert!(matches!(
        get(1, 18),
        InfoPayload::FileAll { file_index: 77, access: 0x001F_01FF }
    ));
    assert!(matches!(get(1, 22), InfoPayload::FileStream));
    assert!(matches!(get(1, 34), InfoPayload::FileNetworkOpen));
    match get(2, 3) {
        InfoPayload::FsSize {
            total,
            free,
            sectors_per_unit,
            bytes_per_sector,
        } => assert_eq!(
            (total, free, sectors_per_unit, bytes_per_sector),
            (1u64 << 40, 1u64 << 39, 1, 4096)
        ),
        other => panic!("{other:?}"),
    }
    assert!(matches!(
        get(2, 4),
        InfoPayload::FsDevice { device_type: 7, characteristics: 0x10 }
    ));
    match get(2, 7) {
        InfoPayload::FsFullSize {
            total,
            caller_free,
            actual_free,
            sectors_per_unit,
            bytes_per_sector,
        } => assert_eq!(
            (total, caller_free, actual_free, sectors_per_unit, bytes_per_sector),
            (1u64 << 40, 1u64 << 39, 1u64 << 39, 1, 4096)
        ),
        other => panic!("{other:?}"),
    }
}

#[test]
fn information_that_does_not_fit_is_a_length_mismatch() {
    let req = QueryInfoRequest {
        info_type: 1,
        file_information_class: 4,
        output_buffer_length: 3,
    };
    assert_eq!(
        finish(req, &[1, 2, 3, 4]).status,
        ntstatus::STATUS_INFO_LENGTH_MISMATCH
    );
    let resp = finish(req, &[1, 2, 3]);
    assert_eq!(resp.status, ntstatus::STATUS_SUCCESS);
    assert_eq!(resp.body, vec![9, 0, 72, 0, 3, 0, 0, 0, 1, 2, 3]);
}
