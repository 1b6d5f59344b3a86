use smb_server::dispatch::HandlerResponse;
use smb_server::handlers::query_directory::{
    fill, finish, pack, plan, DirEntry, ListedOpen, QueryDirectoryRequest, FLAG_REOPEN,
    FLAG_RESTART_SCANS, FLAG_RETURN_SINGLE_ENTRY,
};
use smb_server::messages::FileInfo;
use smb_server::ntstatus;
use smb_server::utils::{utf16le, utf16le_to_string};

fn entry(name: &str) -> DirEntry {
    DirEntry {
        info: FileInfo {
            name: name.to_string(),
            end_of_file: 3,
            allocation_size: 3,
            creation_time: 0x01D9_0000_0000_0000,
            last_access_time: 0x01D9_0000_0000_0000,
            last_write_time: 0x01D9_0000_0000_0000,
            change_time: 0x01D9_0000_0000_0000,
            is_directory: false,
            file_index: 0,
            attributes: 0x80,
        },
    }
}

/// FileIdBothDirectoryInformation: 104 fixed bytes, then the name.
fn encode(entry: &DirEntry) -> Vec<u8> {
    let name = utf16le(&entry.info.name);
    let mut out = vec![0u8; 104];
    out[60..64].copy_from_slice(&(name.len() as u32).to_le_bytes());
    out.extend_from_slice(&name);
    out
}

fn query(pattern: &str, flags: u8) -> QueryDirectoryRequest {
    QueryDirectoryRequest {
        class_known: true,
        flags,
        file_name: utf16le(pattern),
    }
}

const FRESH: ListedOpen = ListedOpen {
    is_directory: true,
    has_cursor: false,
    has_handle: true,
};

/// Answers an exact-name query on a directory that lists `entries`, whatever the
/// pattern.
fn handle(entries: Vec<DirEntry>, pattern: &str) -> HandlerResponse {
    let req = query(pattern, FLAG_RESTART_SCANS | FLAG_RETURN_SINGLE_ENTRY);
    let plan = match plan(Some(&req), Ok(()), Some(FRESH)) {
        Ok(p) => p,
        Err(status) => return HandlerResponse::err(status),
    };
    assert!(plan.refill && plan.single_entry);
    let cursor = fill(entries, plan.pattern);
    let encoded: Vec<Vec<u8>> = cursor.entries[cursor.next..].iter().map(encode).collect();
    let packed = pack(&encoded, 64 * 1024, plan.single_entry);
    finish(&packed.buffer)
}

#[test]
fn exact_name_lookup_does_not_return_an_unrelated_sibling() {
    let response = handle(vec![entry("pre_existing.txt")], "new_sibling.txt");
    assert_eq!(response.status, ntstatus::STATUS_NO_MORE_FILES);
}

#[test]
fn exact_name_lookup_is_ascii_case_insensitive() {
    let response = handle(vec![entry("pre_existing.txt")], "PRE_EXISTING.TXT");
    assert_eq!(response.status, ntstatus::STATUS_SUCCESS);
    let buffer = &response.body[8..];
    let name_len = u32::from_le_bytes(buffer[60..64].try_into().unwrap()) as usize;
    let name_bytes = &buffer[104..104 + name_len];
    assert_eq!(utf16le_to_string(name_bytes), "pre_existing.txt");
}

#[test]
fn listing_refusals_come_in_order() {
    let req = query("*", 0);
    let unknown = QueryDirectoryRequest {
        class_known: false,
        flags: 0,
        file_name: vec![],
    };
    let status = |r, t, o| plan(r, t, o).unwrap_err();
    assert_eq!(
        status(None, Err(1), None),
        ntstatus::STATUS_INVALID_PARAMETER
    );
    assert_eq!(
        status(Some(&unknown), Err(1), None),
        ntstatus::STATUS_INVALID_INFO_CLASS
    );
    assert_eq!(status(Some(&req), Err(1), None), 1);
    assert_eq!(
        status(Some(&req), Ok(()), None),
        ntstatus::STATUS_FILE_CLOSED
    );
    let file = ListedOpen {
        is_directory: false,
        ..FRESH
    };
    assert_eq!(
        status(Some(&req), Ok(()), Some(file)),
        ntstatus::STATUS_INVALID_PARAMETER
    );
    let closed = ListedOpen {
        has_handle: false,
        ..FRESH
    };
    assert_eq!(
        status(Some(&req), Ok(()), Some(closed)),
        ntstatus::STATUS_FILE_CLOSED
    );
}

#[test]
fn a_listing_under_way_goes_on_unless_restarted() {
    let under_way = ListedOpen {
        is_directory: true,
        has_cursor: true,
        has_handle: false,
    };
    let go_on = query("*", FLAG_RETURN_SINGLE_ENTRY);
    let p = plan(Some(&go_on), Ok(()), Some(under_way)).unwrap();
    assert!(!p.refill && p.single_entry && p.pattern.is_none());
    for flag in [FLAG_RESTART_SCANS, FLAG_REOPEN] {
        let open = ListedOpen {
            has_handle: true,
            ..under_way
        };
        let p = plan(Some(&query("*.txt", flag)), Ok(()), Some(open)).unwrap();
        assert!(p.refill && !p.single_entry);
        assert_eq!(p.pattern.as_deref(), Some("*.txt"));
        assert_eq!(
            plan(Some(&query("", flag)), Ok(()), Some(under_way)).unwrap_err(),
            ntstatus::STATUS_FILE_CLOSED
        );
    }
    let odd = QueryDirectoryRequest {
        class_known: true,
        flags: 0,
        file_name: vec![0x61],
    };
    assert!(plan(Some(&odd), Ok(()), Some(FRESH)).unwrap().pattern.is_none());
}

#[test]
fn the_cursor_keeps_what_the_pattern_selects() {
    let all = || vec![entry("a.txt"), entry("b.log"), entry("C.TXT")];
    let cursor = fill(all(), Some("*.txt".to_string()));
    let names: Vec<&str> = cursor.entries.iter().map(|e| e.info.name.as_str()).collect();
    assert_eq!(names, vec!["a.txt", "C.TXT"]);
    assert_eq!(cursor.next, 0);
    assert_eq!(cursor.pattern.as_deref(), Some("*.txt"));
    assert_eq!(fill(all(), None).entries.len(), 3);
}

#[test]
fn entries_are_chained_and_padded() {
    let encoded = vec![vec![0xAA; 9], vec![], vec![0xBB; 8], vec![0xCC; 5]];
    let packed = pack(&encoded, 1024, false);
    assert_eq!(packed.done, 4);
    let mut expected = vec![16, 0, 0, 0, 0xAA, 0xAA, 0xAA, 0xAA, 0xAA, 0, 0, 0, 0, 0, 0, 0];
    expected.extend_from_slice(&[8, 0, 0, 0, 0xBB, 0xBB, 0xBB, 0xBB]);
    expected.extend_from_slice(&[0xCC, 0xCC, 0xCC, 0xCC, 0xCC, 0, 0, 0]);
    assert_eq!(packed.buffer, expected);
}

#[test]
fn a_buffer_is_filled_up_to_its_capacity() {
    let encoded = vec![vec![1; 8], vec![2; 8], vec![3; 8]];
    let packed = pack(&encoded, 16, false);
    assert_eq!(packed.done, 2);
    assert_eq!(packed.buffer.len(), 16);
    let packed = pack(&encoded, 15, false);
    assert_eq!((packed.done, packed.buffer.len()), (1, 8));
    // The first entry goes out even where it does not fit.
    let packed = pack(&encoded, 1, false);
    assert_eq!((packed.done, packed.buffer), (1, vec![1; 8]));
    let packed = pack(&encoded, 1024, true);
    assert_eq!((packed.done, packed.buffer), (1, vec![1; 8]));
}

#[test]
fn a_listing_returns_every_entry_once_and_then_ends() {
    let encoded: Vec<Vec<u8>> = (0u8..5).map(|i| vec![0, 0, 0, 0, i, i, i, i]).collect();
    let mut next = 0;
    let mut seen = Vec::new();
    loop {
        let packed = pack(&encoded[next..].to_vec(), 16, false);
        let response = finish(&packed.buffer);
        if response.status == ntstatus::STATUS_NO_MORE_FILES {
            break;
        }
        assert_eq!(response.status, ntstatus::STATUS_SUCCESS);
        let mut at = 0;
        loop {
            seen.push(packed.buffer[at + 4]);
            let step = u32::from_le_bytes(packed.buffer[at..at + 4].try_into().unwrap());
            if step == 0 {
                break;
            }
            at += step as usize;
        }
        next += packed.done;
    }
    assert_eq!(seen, vec![0, 1, 2, 3, 4]);
}

#[test]
fn a_whole_listing_returns_what_the_pattern_selects() {
    let listed = vec![
        entry("a.txt"),
        entry("b.log"),
        entry("c.txt"),
        entry("d.txt"),
        entry("E.TXT"),
    ];
    let mut cursor = fill(listed, Some("*.txt".to_string()));
    let mut names = Vec::new();
    let mut pages = 0;
    // A single entry, then buffers that hold two, then the end.
    for (flags, cap) in [(FLAG_RETURN_SINGLE_ENTRY, 65536), (0, 256), (0, 256), (0, 256)] {
        let under_way = ListedOpen {
            is_directory: true,
            has_cursor: true,
            has_handle: true,
        };
        let p = plan(Some(&query("ignored", flags)), Ok(()), Some(under_way)).unwrap();
        assert!(!p.refill);
        let encoded: Vec<Vec<u8>> = cursor.entries[cursor.next..].iter().map(encode).collect();
        let packed = pack(&encoded, cap, p.single_entry);
        for e in &cursor.entries[cursor.next..cursor.next + packed.done] {
            names.push(e.info.name.clone());
        }
        cursor.advance(packed.done);
        let response = finish(&packed.buffer);
        if response.status == ntstatus::STATUS_NO_MORE_FILES {
            break;
        }
        assert!(packed.buffer.len() <= cap);
        pages += 1;
    }
    assert_eq!(names, vec!["a.txt", "c.txt", "d.txt", "E.TXT"]);
    assert_eq!(pages, 3);
    assert_eq!(cursor.next, 4);
    assert_eq!(cursor.pattern.as_deref(), Some("*.txt"));
}
