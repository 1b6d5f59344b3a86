use smb_server::dispatch::HandlerResponse;
use smb_server::handlers::create::{
    build_aapl_response_context, finish, plan, CreateOutcome, CreateRequest,
    AAPL_CMD_SERVER_QUERY, AAPL_REQ_SERVER_CAPS, AAPL_SERVER_CAPS_UNIX_BASED, FILE_CREATE,
    FILE_DELETE_ON_CLOSE, FILE_DIRECTORY_FILE, FILE_NON_DIRECTORY_FILE, FILE_OPEN, FILE_OPEN_IF,
    FILE_OVERWRITE, FILE_OVERWRITE_IF, FILE_SUPERSEDE,
};
use smb_server::messages::{Access, CreateContext, FileId, FileInfo, OpenIntent};
use smb_server::ntstatus;
use smb_server::trace::TraceEvent;
use smb_server::utils::utf16le;

const FILE_ID: FileId = FileId {
    persistent: 0x1122_3344_5566_7788,
    volatile: 9,
};

fn request(name: &str, create_options: u32, create_disposition: u32) -> CreateRequest {
    CreateRequest {
        desired_access: 0x0012_0089,
        create_disposition,
        create_options,
        name: utf16le(name),
        create_contexts: Some(vec![]),
    }
}

fn file_info(is_directory: bool) -> FileInfo {
    FileInfo {
        name: "x".to_string(),
        end_of_file: 5,
        allocation_size: 8,
        creation_time: 0x01D9_0000_0000_0000,
        last_access_time: 0x01D9_0000_0000_0001,
        last_write_time: 0x01D9_0000_0000_0002,
        change_time: 0x01D9_0000_0000_0003,
        is_directory,
        file_index: 0,
        attributes: if is_directory { 0x10 } else { 0x80 },
    }
}

fn opened(is_directory: bool) -> CreateOutcome {
    CreateOutcome::Opened {
        file_id: FILE_ID,
        info: file_info(is_directory),
    }
}

/// Answers `req` on a writable tree, with `outcome` if it gets to the backend.
fn handle(req: &CreateRequest, outcome: CreateOutcome) -> (Option<TraceEvent>, HandlerResponse) {
    match plan(Some(req), Ok(Access::ReadWrite)) {
        Ok(plan) => {
            finish(req, &plan, &outcome, true)
        }
        Err(status) => (None, HandlerResponse::err(status)),
    }
}

fn u32_at(b: &[u8], at: usize) -> u32 {
    u32::from_le_bytes(b[at..at + 4].try_into().unwrap())
}

fn u64_at(b: &[u8], at: usize) -> u64 {
    u64::from_le_bytes(b[at..at + 8].try_into().unwrap())
}

#[test]
fn both_directory_constraint_flags_set_is_invalid_parameter() {
    let req = request(
        "x",
        FILE_DIRECTORY_FILE | FILE_NON_DIRECTORY_FILE,
        FILE_OPEN,
    );
    let (_, resp) = handle(&req, opened(true));
    assert_eq!(resp.status, ntstatus::STATUS_INVALID_PARAMETER);
}

#[test]
fn directory_flag_with_overwrite_if_disposition_is_invalid_parameter() {
    // FILE_SUPERSEDE (0) and FILE_OVERWRITE_IF (5) both fold to
    // `OpenIntent::OverwriteOrCreate` — both must be rejected paired
    // with FILE_DIRECTORY_FILE.
    for disposition in [FILE_SUPERSEDE, FILE_OVERWRITE_IF] {
        let req = request("x", FILE_DIRECTORY_FILE, disposition);
        let (_, resp) = handle(&req, opened(true));
        assert_eq!(
            resp.status,
            ntstatus::STATUS_INVALID_PARAMETER,
            "disposition {disposition:#x}"
        );
    }
}

#[test]
fn directory_flag_with_overwrite_disposition_is_invalid_parameter() {
    let req = request("x", FILE_DIRECTORY_FILE, FILE_OVERWRITE);
    let (_, resp) = handle(&req, opened(true));
    assert_eq!(resp.status, ntstatus::STATUS_INVALID_PARAMETER);
}

#[test]
fn directory_flag_with_creating_dispositions_survives_stage1() {
    for (disposition, name) in [
        (FILE_CREATE, "newdir_create"),
        (FILE_OPEN_IF, "newdir_openif"),
    ] {
        let req = request(name, FILE_DIRECTORY_FILE, disposition);
        let (_, resp) = handle(&req, opened(true));
        assert_eq!(
            resp.status,
            ntstatus::STATUS_SUCCESS,
            "disposition {disposition:#x} must survive Stage 1 and reach the backend"
        );
    }
}

#[test]
fn directory_flag_with_open_disposition_survives_stage1() {
    let create = request("existing_dir", FILE_DIRECTORY_FILE, FILE_CREATE);
    let (_, create_resp) = handle(&create, opened(true));
    assert_eq!(
        create_resp.status,
        ntstatus::STATUS_SUCCESS,
        "setup: create the directory"
    );

    let open = request("existing_dir", FILE_DIRECTORY_FILE, FILE_OPEN);
    let (_, open_resp) = handle(&open, opened(true));
    assert_eq!(
        open_resp.status,
        ntstatus::STATUS_SUCCESS,
        "FILE_DIRECTORY_FILE + FILE_OPEN must survive Stage 1 and reach the backend"
    );
}

#[test]
fn stream_create_on_an_existing_file_reaches_the_backend() {
    let (_, host_resp) = handle(&request("new.txt", 0, FILE_CREATE), opened(false));
    assert_eq!(
        host_resp.status,
        ntstatus::STATUS_SUCCESS,
        "setup: create the host file"
    );

    let req = request("new.txt:AFP_AfpInfo", 0, FILE_CREATE);
    let planned = plan(Some(&req), Ok(Access::ReadWrite)).ok().expect("reaches the backend");
    assert_eq!(planned.path.stream_name(), Some("AFP_AfpInfo"));
    let (_, stream_resp) = handle(&req, opened(false));
    assert_eq!(
        stream_resp.status,
        ntstatus::STATUS_SUCCESS,
        "a stream CREATE against an existing host file must reach the backend and succeed"
    );
}

#[test]
fn stream_create_paired_with_directory_flag_is_invalid_parameter() {
    let req = request("new.txt:AFP_AfpInfo", FILE_DIRECTORY_FILE, FILE_CREATE);
    let (_, resp) = handle(&req, opened(false));
    assert_eq!(resp.status, ntstatus::STATUS_INVALID_PARAMETER);
}

#[test]
fn build_aapl_response_context_answers_both_requested_bitmaps() {
    let req_ctx = CreateContext {
        name: CreateContext::NAME_AAPL.to_vec(),
        data: {
            let mut d = Vec::new();
            d.extend_from_slice(&1u32.to_le_bytes()); // SERVER_QUERY
            d.extend_from_slice(&0u32.to_le_bytes());
            d.extend_from_slice(&0x3u64.to_le_bytes()); // SERVER_CAPS | VOLUME_CAPS
            d.extend_from_slice(&0xfu64.to_le_bytes());
            d
        },
    };

    let resp = build_aapl_response_context(&req_ctx).expect("must answer a well-formed query");
    assert_eq!(resp.name, CreateContext::NAME_AAPL);
    // 16-byte header + 8 bytes SERVER_CAPS + 8 bytes VOLUME_CAPS.
    assert_eq!(resp.data.len(), 32);
    let command_code = u32::from_le_bytes(resp.data[0..4].try_into().unwrap());
    let reply_bitmap = u64::from_le_bytes(resp.data[8..16].try_into().unwrap());
    let server_caps = u64::from_le_bytes(resp.data[16..24].try_into().unwrap());
    let volume_caps = u64::from_le_bytes(resp.data[24..32].try_into().unwrap());
    assert_eq!(command_code, AAPL_CMD_SERVER_QUERY);
    assert_eq!(reply_bitmap, 0x3);
    assert_eq!(server_caps, AAPL_SERVER_CAPS_UNIX_BASED);
    assert_eq!(volume_caps, 0);
}

#[test]
fn build_aapl_response_context_answers_only_the_requested_bitmap() {
    let req_ctx = CreateContext {
        name: CreateContext::NAME_AAPL.to_vec(),
        data: {
            let mut d = Vec::new();
            d.extend_from_slice(&1u32.to_le_bytes());
            d.extend_from_slice(&0u32.to_le_bytes());
            d.extend_from_slice(&AAPL_REQ_SERVER_CAPS.to_le_bytes()); // SERVER_CAPS only
            d.extend_from_slice(&0u64.to_le_bytes());
            d
        },
    };

    let resp = build_aapl_response_context(&req_ctx).expect("must answer a well-formed query");
    // 16-byte header + 8 bytes SERVER_CAPS only — no VOLUME_CAPS bytes.
    assert_eq!(resp.data.len(), 24);
    let reply_bitmap = u64::from_le_bytes(resp.data[8..16].try_into().unwrap());
    assert_eq!(reply_bitmap, AAPL_REQ_SERVER_CAPS);
}

#[test]
fn build_aapl_response_context_ignores_wrong_length_payload() {
    let req_ctx = CreateContext {
        name: CreateContext::NAME_AAPL.to_vec(),
        data: vec![0u8; 16],
    };
    assert!(build_aapl_response_context(&req_ctx).is_none());
}

#[test]
fn build_aapl_response_context_ignores_unknown_command_code() {
    let req_ctx = CreateContext {
        name: CreateContext::NAME_AAPL.to_vec(),
        data: {
            let mut d = Vec::new();
            d.extend_from_slice(&2u32.to_le_bytes()); // RESOLVE_ID, not SERVER_QUERY
            d.extend_from_slice(&0u32.to_le_bytes());
            d.extend_from_slice(&0x3u64.to_le_bytes());
            d.extend_from_slice(&0u64.to_le_bytes());
            d
        },
    };
    assert!(build_aapl_response_context(&req_ctx).is_none());
}

#[test]
fn model_info_is_absent_from_the_reply_bitmap() {
    let mut data = Vec::new();
    data.extend_from_slice(&1u32.to_le_bytes());
    data.extend_from_slice(&0u32.to_le_bytes());
    data.extend_from_slice(&0x6u64.to_le_bytes()); // VOLUME_CAPS | MODEL_INFO
    data.extend_from_slice(&0u64.to_le_bytes());
    let context = CreateContext {
        name: CreateContext::NAME_AAPL.to_vec(),
        data,
    };
    let reply = build_aapl_response_context(&context).expect("a server query");
    assert_eq!(u64_at(&reply.data, 8), 0x2);
    assert_eq!(reply.data.len(), 24);
}

#[test]
fn create_response_carries_an_aapl_context_when_the_client_sends_one() {
    let mut data = Vec::new();
    data.extend_from_slice(&1u32.to_le_bytes());
    data.extend_from_slice(&0u32.to_le_bytes());
    data.extend_from_slice(&0x3u64.to_le_bytes());
    data.extend_from_slice(&0xfu64.to_le_bytes());
    let mut req = request("aapl_probe", 0, FILE_CREATE);
    req.create_contexts = Some(vec![
        CreateContext {
            name: b"ExtA".to_vec(),
            data: vec![1, 2, 3],
        },
        CreateContext {
            name: CreateContext::NAME_AAPL.to_vec(),
            data,
        },
    ]);

    let (_, resp) = handle(&req, opened(false));
    assert_eq!(resp.status, ntstatus::STATUS_SUCCESS);
    assert_eq!(
        u32_at(&resp.body, 80),
        152,
        "64-byte SMB2 header + 88-byte fixed CreateResponse body"
    );
    let chain = &resp.body[88..];
    assert_eq!(u32_at(&resp.body, 84) as usize, chain.len());
    // One context: no next one, its name where NameOffset says.
    assert_eq!(u32_at(chain, 0), 0);
    assert_eq!(&chain[4..8], &[16, 0, 4, 0]);
    assert_eq!(&chain[16..20], &CreateContext::NAME_AAPL);
    assert_eq!(&chain[10..12], &[24, 0]);
    assert_eq!(u32_at(chain, 12), 32);
    assert_eq!(chain.len(), 24 + 32);
    assert_eq!(u64_at(chain, 24 + 8), 0x3);
}

#[test]
fn create_response_has_no_contexts_when_the_client_sends_none() {
    let (_, resp) = handle(&request("no_probe", 0, FILE_CREATE), opened(false));
    assert_eq!(resp.status, ntstatus::STATUS_SUCCESS);
    assert_eq!(u32_at(&resp.body, 80), 0);
    assert_eq!(u32_at(&resp.body, 84), 0);
    assert_eq!(resp.body.len(), 88);
}

#[test]
fn a_malformed_context_chain_does_not_fail_the_create() {
    let mut req = request("probe", 0, FILE_CREATE);
    req.create_contexts = None;
    let (event, resp) = handle(&req, opened(false));
    assert_eq!(resp.status, ntstatus::STATUS_SUCCESS);
    assert_eq!(resp.body.len(), 88);
    match event {
        Some(TraceEvent::Create { contexts, .. }) => assert!(contexts.is_empty()),
        _ => unreachable!(),
    }
}

#[test]
fn create_response_lays_out_its_fields() {
    let (_, resp) = handle(&request("f", 0, FILE_CREATE), opened(false));
    let body = &resp.body;
    assert_eq!(&body[0..4], &[89, 0, 0, 0]);
    assert_eq!(u32_at(body, 4), 2, "FILE_CREATED");
    assert_eq!(u64_at(body, 8), 0x01D9_0000_0000_0000);
    assert_eq!(u64_at(body, 16), 0x01D9_0000_0000_0001);
    assert_eq!(u64_at(body, 24), 0x01D9_0000_0000_0002);
    assert_eq!(u64_at(body, 32), 0x01D9_0000_0000_0003);
    assert_eq!(u64_at(body, 40), 8);
    assert_eq!(u64_at(body, 48), 5);
    assert_eq!(u32_at(body, 56), 0x80);
    assert_eq!(u32_at(body, 60), 0);
    assert_eq!(u64_at(body, 64), FILE_ID.persistent);
    assert_eq!(u64_at(body, 72), FILE_ID.volatile);

    let (_, resp) = handle(&request("f", 0, FILE_OPEN_IF), opened(false));
    assert_eq!(u32_at(&resp.body, 4), 1, "FILE_OPENED");
}

#[test]
fn create_is_traced_with_no_file_id_when_the_backend_rejects_it() {
    let req = request("ghost.txt", 0, FILE_OPEN);
    let (event, resp) = handle(
        &req,
        CreateOutcome::Failed(ntstatus::STATUS_OBJECT_NAME_NOT_FOUND),
    );
    assert_eq!(resp.status, ntstatus::STATUS_OBJECT_NAME_NOT_FOUND);
    match event.expect("a failing CREATE must still be traced") {
        TraceEvent::Create {
            path,
            create_disposition,
            file_id,
            ..
        } => {
            assert_eq!(path, "ghost.txt");
            assert_eq!(create_disposition, FILE_OPEN);
            assert_eq!(
                file_id, None,
                "a CREATE that never opened anything gets no FileId"
            );
        }
        _ => unreachable!(),
    }
}

#[test]
fn create_is_traced_with_a_file_id_on_success() {
    let (event, resp) = handle(&request("new.txt", 0, FILE_CREATE), opened(false));
    assert_eq!(resp.status, ntstatus::STATUS_SUCCESS);
    match event.expect("a successful CREATE must be traced") {
        TraceEvent::Create { file_id, .. } => {
            let id = file_id.expect("a successful CREATE gets a real FileId");
            assert_eq!(u64_at(&id, 0), FILE_ID.persistent);
            assert_eq!(u64_at(&id, 8), FILE_ID.volatile);
        }
        _ => unreachable!(),
    }
}

#[test]
fn create_trace_carries_raw_options_and_no_payload() {
    let mut req = request("marker.txt", FILE_NON_DIRECTORY_FILE, FILE_OVERWRITE_IF);
    req.create_contexts = Some(vec![CreateContext {
        name: b"ExtA".to_vec(),
        data: b"PAYLOAD_MARKER".to_vec(),
    }]);
    let (event, _) = handle(&req, opened(false));
    let line = format!("{:?}", event.unwrap());
    assert!(line.contains("create_options: 64"), "{line}");
    assert!(line.contains("data_len: 14"), "{line}");
    let leaked = format!("{:?}", b"PAYLOAD_MARKER");
    assert!(!line.contains(&leaked[1..leaked.len() - 1]), "{line}");
}

#[test]
fn nothing_is_traced_without_a_sink() {
    let req = request("x", 0, FILE_OPEN);
    let planned = plan(Some(&req), Ok(Access::Read)).ok().unwrap();
    let (event, resp) = finish(&req, &planned, &opened(false), false);
    assert!(event.is_none());
    assert_eq!(resp.status, ntstatus::STATUS_SUCCESS);
}

#[test]
fn refusals_come_in_order() {
    let ok = request("x", 0, FILE_OPEN);
    let status = |r: Option<&CreateRequest>, t| plan(r, t).err();
    assert_eq!(
        status(None, Err(ntstatus::STATUS_USER_SESSION_DELETED)),
        Some(ntstatus::STATUS_INVALID_PARAMETER)
    );
    assert_eq!(
        status(Some(&ok), Err(ntstatus::STATUS_USER_SESSION_DELETED)),
        Some(ntstatus::STATUS_USER_SESSION_DELETED)
    );
    let mut odd = request("x", 0, 99);
    odd.name.push(0);
    assert_eq!(
        status(Some(&odd), Ok(Access::Read)),
        Some(ntstatus::STATUS_OBJECT_NAME_INVALID)
    );
    assert_eq!(
        status(Some(&request("a\\..\\b", 0, 99)), Ok(Access::Read)),
        Some(ntstatus::STATUS_OBJECT_NAME_INVALID)
    );
    assert_eq!(
        status(Some(&request("x", 0, 6)), Ok(Access::Read)),
        Some(ntstatus::STATUS_INVALID_PARAMETER)
    );
    assert_eq!(
        status(Some(&request("x", 0x41, FILE_CREATE)), Ok(Access::Read)),
        Some(ntstatus::STATUS_ACCESS_DENIED)
    );
    let mut write = request("x", 0, FILE_OPEN);
    write.desired_access = 0x0000_0002;
    assert_eq!(
        status(Some(&write), Ok(Access::Read)),
        Some(ntstatus::STATUS_ACCESS_DENIED)
    );
    assert_eq!(status(Some(&ok), Ok(Access::Read)), None);
}

#[test]
fn dispositions_and_access_are_translated() {
    for (disposition, intent) in [
        (FILE_SUPERSEDE, OpenIntent::OverwriteOrCreate),
        (FILE_OPEN, OpenIntent::Open),
        (FILE_CREATE, OpenIntent::Create),
        (FILE_OPEN_IF, OpenIntent::OpenOrCreate),
        (FILE_OVERWRITE, OpenIntent::Truncate),
        (FILE_OVERWRITE_IF, OpenIntent::OverwriteOrCreate),
    ] {
        let req = request("x", FILE_DELETE_ON_CLOSE, disposition);
        let p = plan(Some(&req), Ok(Access::ReadWrite)).ok().unwrap();
        assert_eq!(p.options.intent, intent);
        assert!(p.options.delete_on_close);
        assert!(p.options.read && !p.options.write);
        assert_eq!(p.access, Access::Read);
    }
    for (access, read, write) in [
        (0x0000_0000, true, false),
        (0x0000_0080, true, false),
        (0x0000_0002, false, true),
        (0x0000_0004, false, true),
        (0x0000_0100, false, true),
        (0x0001_0000, false, true),
        (0x8000_0000, true, false),
        (0x4000_0000, false, true),
        (0x1000_0000, true, true),
        (0x0200_0000, true, true),
        (0x0008_0000, true, false),
    ] {
        let mut req = request("x", 0, FILE_OPEN);
        req.desired_access = access;
        let p = plan(Some(&req), Ok(Access::ReadWrite)).ok().unwrap();
        assert_eq!((p.options.read, p.options.write), (read, write), "{access:#x}");
        let granted = if write { Access::ReadWrite } else { Access::Read };
        assert_eq!(p.access, granted);
    }
}
