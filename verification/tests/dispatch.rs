use std::collections::HashMap;
use std::sync::{Arc, Mutex};

use smb_server::compound::{
    capture_create_file_id, file_id_body_offset, inherit_related_context, signed_by, stitch,
    ChainState, ChainStep,
};
use smb_server::dispatch::{
    build_response_bytes, command_name, compound_key, decide, enter, is_smb311, preauth_after,
    request_signature_check, response_event, response_session_id, settle_session_preauth,
    take_session_preauth, verify_request_signature, Admission, HandlerResponse, PreauthUpdate,
    PreauthUse, SessionSigning, SignatureCheck,
};
use smb_server::header::{
    Command, HeaderTail, Smb2Header, SMB2_FLAGS_ASYNC_COMMAND, SMB2_FLAGS_RELATED_OPERATIONS,
    SMB2_FLAGS_SERVER_TO_REDIR, SMB2_FLAGS_SIGNED, SMB2_HEADER_LEN,
};
use smb_server::ntstatus;
use smb_server::trace::{record, SinkHandle, TraceEvent, TraceKey, TraceSink};

struct CaptureSink {
    events: Mutex<Vec<(Option<TraceKey>, String)>>,
}

impl TraceSink for CaptureSink {
    fn record(&self, key: Option<TraceKey>, event: &TraceEvent) {
        self.events
            .lock()
            .unwrap()
            .push((key, format!("{event:?}")));
    }
}

fn header(command: Command, message_id: u64, next_command: u32) -> Smb2Header {
    Smb2Header {
        credit_charge: 1,
        channel_sequence_status: 0,
        command,
        credit_request_response: 1,
        flags: 0,
        next_command,
        message_id,
        tail: HeaderTail::sync(0),
        session_id: 0,
        signature: [0u8; 16],
    }
}

fn packet(hdr: &Smb2Header, body: &[u8]) -> Vec<u8> {
    let mut buf = Vec::new();
    hdr.write(&mut buf);
    buf.extend_from_slice(body);
    buf
}

/// One ECHO sub-frame — the simplest command needing no session/tree —
/// with `next_command` set by the caller to chain it into a compound
/// frame (`0` marks the last sub-frame in the chain).
fn echo_subframe(message_id: u64, next_command: u32) -> Vec<u8> {
    packet(&header(Command::Echo, message_id, next_command), &[4, 0, 0, 0])
}

/// Walks a frame and answers each operation with an ECHO response.
fn dispatch_frame(sink: &SinkHandle, connection_id: u64, frame: &[u8]) -> Option<Vec<u8>> {
    let mut state = ChainState::start();
    let mut responses = Vec::new();
    loop {
        let op = match state.next_operation(frame) {
            ChainStep::Drop => return None,
            ChainStep::Finished => break,
            ChainStep::Dispatch(op) => op,
        };
        let request = enter(&op.frame, sink.is_some(), connection_id, state.ordinal)?;
        record(sink, request.key, request.event);
        let response = HandlerResponse::ok(vec![4, 0, 0, 0]);
        let built = build_response_bytes(&request.header, &response, None);
        record(sink, request.key, response_event(&built.bytes));
        state = state.advance(&op, Some(&built.bytes));
        responses.push(built.bytes);
    }
    stitch(&responses).map(|s| s.bytes)
}

fn request_keys(events: &[(Option<TraceKey>, String)]) -> Vec<TraceKey> {
    events
        .iter()
        .filter(|(_, text)| text.starts_with("Request"))
        .map(|(key, _)| key.expect("a Request event must carry a key when a sink is armed"))
        .collect()
}

#[test]
fn compound_frame_gets_sequential_ordinals_from_real_dispatch() {
    let capture = Arc::new(CaptureSink {
        events: Mutex::new(Vec::new()),
    });
    let sink: SinkHandle = Some(capture.clone());

    let sub_len = (SMB2_HEADER_LEN + 4) as u32; // header + 4-byte EchoRequest
    let mut frame = Vec::new();
    frame.extend(echo_subframe(42, sub_len));
    frame.extend(echo_subframe(42, sub_len));
    frame.extend(echo_subframe(42, 0));

    let resp = dispatch_frame(&sink, 7, &frame);
    assert!(
        resp.is_some(),
        "a 3-op ECHO compound must produce a response"
    );

    let events = capture.events.lock().unwrap();
    let mut ordinals: Vec<u32> = request_keys(&events)
        .into_iter()
        .map(|k| {
            assert_eq!(k.connection_id, 7);
            assert_eq!(k.message_id, 42);
            k.compound_ordinal
        })
        .collect();
    ordinals.sort_unstable();
    assert_eq!(
        ordinals,
        vec![0, 1, 2],
        "three compounded operations under one message_id must get three distinct, \
         sequential ordinals from the real dispatch loop"
    );
}

#[test]
fn two_real_connections_reusing_the_same_message_id_get_distinct_keys() {
    let capture = Arc::new(CaptureSink {
        events: Mutex::new(Vec::new()),
    });
    let sink: SinkHandle = Some(capture.clone());

    let frame = echo_subframe(5, 0);
    dispatch_frame(&sink, 1, &frame);
    dispatch_frame(&sink, 2, &frame);

    let events = capture.events.lock().unwrap();
    let keys = request_keys(&events);
    assert_eq!(keys.len(), 2);
    assert_eq!(keys[0].message_id, 5);
    assert_eq!(keys[1].message_id, 5);
    assert_ne!(
        keys[0].connection_id, keys[1].connection_id,
        "two distinct connections reusing message_id=5 must not collide"
    );
}

/// A hash that keeps what went into it.
#[derive(Clone, Debug, PartialEq)]
struct Transcript(Vec<Vec<u8>>);

impl Transcript {
    fn update(&mut self, bytes: &[u8]) {
        self.0.push(bytes.to_vec());
    }
}

fn negotiated_preauth() -> Transcript {
    let mut preauth = Transcript(Vec::new());
    preauth.update(b"negotiate request");
    preauth.update(b"negotiate response");
    preauth
}

#[test]
fn new_session_setup_preauth_starts_from_negotiate_base() {
    let base = negotiated_preauth();
    let mut kept: HashMap<u64, Transcript> = HashMap::new();

    let mut first_session = take_session_preauth(&mut kept, &base, 0);
    first_session.update(b"session one request");
    first_session.update(b"session one response");
    settle_session_preauth(&mut kept, PreauthUpdate::Store(1), Some(first_session));

    let mut second_session = take_session_preauth(&mut kept, &base, 0);
    second_session.update(b"session two request");

    let mut expected = base.clone();
    expected.update(b"session two request");

    let mut polluted = base;
    polluted.update(b"session one request");
    polluted.update(b"session one response");
    polluted.update(b"session two request");

    assert_eq!(second_session, expected);
    assert_ne!(second_session, polluted);
    assert!(kept.contains_key(&1));
}

#[test]
fn followup_session_setup_consumes_stored_session_preauth() {
    let base = negotiated_preauth();
    let mut stored = negotiated_preauth();
    stored.update(b"session setup request");
    stored.update(b"session setup more-processing response");
    let expected = stored.clone();
    let mut kept = HashMap::new();
    settle_session_preauth(&mut kept, PreauthUpdate::Store(7), Some(stored));

    let got = take_session_preauth(&mut kept, &base, 7);

    assert_eq!(got, expected);
    assert!(!kept.contains_key(&7));
}

#[test]
fn settling_touches_only_what_it_names() {
    let mut kept: HashMap<u64, Transcript> = HashMap::new();
    kept.insert(1, negotiated_preauth());
    kept.insert(2, negotiated_preauth());
    settle_session_preauth(&mut kept, PreauthUpdate::Keep, Some(negotiated_preauth()));
    settle_session_preauth(&mut kept, PreauthUpdate::UpdateConnection, None);
    settle_session_preauth(&mut kept, PreauthUpdate::Store(3), None);
    assert_eq!(kept.len(), 2);
    settle_session_preauth(&mut kept, PreauthUpdate::Forget(1), None);
    assert_eq!(kept.keys().collect::<Vec<_>>(), vec![&2]);
}

#[test]
fn preauth_follows_command_dialect_and_status() {
    assert!(is_smb311(Some(0x0311)) && !is_smb311(Some(0x0302)) && !is_smb311(None));
    assert_eq!(
        decide(Command::Negotiate, Ok(()), None),
        Admission::Handle(PreauthUse::Connection)
    );
    assert_eq!(
        decide(Command::SessionSetup, Ok(()), Some(0x0311)),
        Admission::Handle(PreauthUse::Session)
    );
    assert_eq!(
        decide(Command::SessionSetup, Ok(()), Some(0x0302)),
        Admission::Handle(PreauthUse::Nothing)
    );
    assert_eq!(decide(Command::Cancel, Ok(()), None), Admission::Ignore);
    assert_eq!(
        decide(Command::Cancel, Err(ntstatus::STATUS_ACCESS_DENIED), None),
        Admission::Refuse(ntstatus::STATUS_ACCESS_DENIED)
    );

    let mut hdr = header(Command::SessionSetup, 1, 0);
    hdr.session_id = 9;
    hdr.channel_sequence_status = ntstatus::STATUS_MORE_PROCESSING_REQUIRED;
    let more = packet(&hdr, &[]);
    hdr.channel_sequence_status = ntstatus::STATUS_SUCCESS;
    let done = packet(&hdr, &[]);
    assert_eq!(
        preauth_after(PreauthUse::Session, 5, &more),
        PreauthUpdate::Store(9)
    );
    assert_eq!(
        preauth_after(PreauthUse::Session, 5, &done),
        PreauthUpdate::Forget(5)
    );
    assert_eq!(
        preauth_after(PreauthUse::Connection, 5, &more),
        PreauthUpdate::UpdateConnection
    );
    assert_eq!(
        preauth_after(PreauthUse::Nothing, 5, &more),
        PreauthUpdate::Keep
    );
}

#[test]
fn err_is_an_error_response() {
    let resp = HandlerResponse::err(ntstatus::STATUS_ACCESS_DENIED);
    assert_eq!(resp.status, 0xC000_0022);
    assert_eq!(resp.body, vec![9, 0, 0, 0, 0, 0, 0, 0, 0]);
    assert!(!resp.skip_signing);
    assert_eq!(resp.override_tree_id, None);
    assert_eq!(resp.override_session_id, None);
    assert_eq!(resp.take_preauth_snapshot_for_session, None);
    assert_eq!(HandlerResponse::ok(vec![1]).status, ntstatus::STATUS_SUCCESS);
}

#[test]
fn malformed_frames_are_dropped() {
    let dropped = |frame: &[u8]| {
        matches!(ChainState::start().next_operation(frame), ChainStep::Drop)
    };
    assert!(dropped(&[0xFE; 63]));
    let mut bad = echo_subframe(1, 0);
    bad[0] = 0xFD;
    assert!(dropped(&bad));
    let mut unknown = echo_subframe(1, 0);
    unknown[12] = 0x13;
    assert!(dropped(&unknown));
    assert!(dropped(&echo_subframe(1, 63)));
    assert!(dropped(&echo_subframe(1, 69)));
    assert!(!dropped(&echo_subframe(1, 68)));
    assert!(matches!(
        ChainState::start().next_operation(&[]),
        ChainStep::Finished
    ));
    // A bad second operation drops the whole frame.
    let mut frame = echo_subframe(1, 68);
    frame.extend_from_slice(&[0u8; 10]);
    assert_eq!(dispatch_frame(&None, 1, &frame), None);
}

#[test]
fn related_operations_inherit_ids_and_the_created_file() {
    let mut create = header(Command::Create, 1, 64);
    create.session_id = 0x11;
    create.tail = HeaderTail::sync(0x22);
    let mut close = header(Command::Close, 2, 0);
    close.flags = SMB2_FLAGS_RELATED_OPERATIONS;
    close.session_id = u64::MAX;
    close.tail = HeaderTail::sync(u32::MAX);
    let mut frame = packet(&create, &[]);
    let mut close_body = vec![24, 0, 0, 0, 0, 0, 0, 0];
    close_body.extend_from_slice(&[0xFF; 16]);
    frame.extend(packet(&close, &close_body));

    let state = ChainState::start();
    let op = match state.next_operation(&frame) {
        ChainStep::Dispatch(op) => op,
        other => panic!("{other:?}"),
    };
    assert_eq!(op.frame, frame[..64].to_vec());
    assert_eq!(op.next, 64);
    // A successful CREATE response whose FileId is 1, 2, .. 16.
    let mut response = packet(&header(Command::Create, 1, 0), &[0u8; 88]);
    let id: [u8; 16] = core::array::from_fn(|i| i as u8 + 1);
    response[128..144].copy_from_slice(&id);
    assert_eq!(capture_create_file_id(&response), Some(id));

    let state = state.advance(&op, Some(&response));
    assert_eq!((state.offset, state.ordinal, state.done), (64, 1, false));
    let op = match state.next_operation(&frame) {
        ChainStep::Dispatch(op) => op,
        other => panic!("{other:?}"),
    };
    assert_eq!(op.header.session_id, 0x11);
    assert_eq!(op.header.tree_id(), Some(0x22));
    assert_eq!(&op.frame[64 + 8..64 + 24], &id);
    assert_eq!(Smb2Header::parse(&op.frame), Some(op.header));
    let state = state.advance(&op, None);
    assert!(state.done);
    assert_eq!(state.prev_create_file_id, Some(id));
    assert!(matches!(state.next_operation(&frame), ChainStep::Finished));
}

#[test]
fn explicit_ids_are_not_overwritten() {
    let mut hdr = header(Command::Read, 2, 0);
    hdr.session_id = 5;
    hdr.tail = HeaderTail::sync(6);
    let mut frame = packet(&hdr, &[0u8; 48]);
    let before = frame.clone();
    let mut patched = hdr;
    inherit_related_context(&mut frame, &mut patched, 8, 9, Some([7; 16]));
    assert_eq!(frame, before);
    assert_eq!(patched, hdr);
}

#[test]
fn file_id_offsets_by_command() {
    assert_eq!(file_id_body_offset(Command::Close), Some(8));
    assert_eq!(file_id_body_offset(Command::OplockBreak), Some(8));
    assert_eq!(file_id_body_offset(Command::Read), Some(16));
    assert_eq!(file_id_body_offset(Command::Write), Some(16));
    assert_eq!(file_id_body_offset(Command::SetInfo), Some(16));
    assert_eq!(file_id_body_offset(Command::QueryInfo), Some(24));
    assert_eq!(file_id_body_offset(Command::Create), None);
    assert_eq!(file_id_body_offset(Command::Echo), None);
}

#[test]
fn a_refused_or_short_create_has_no_file_id() {
    let mut hdr = header(Command::Create, 1, 0);
    assert_eq!(capture_create_file_id(&packet(&hdr, &[0u8; 79])), None);
    assert_eq!(
        capture_create_file_id(&packet(&hdr, &[0u8; 80])),
        Some([0; 16])
    );
    hdr.channel_sequence_status = ntstatus::STATUS_ACCESS_DENIED;
    assert_eq!(capture_create_file_id(&packet(&hdr, &[0u8; 88])), None);
}

#[test]
fn stitched_responses_are_linked_padded_and_walkable() {
    let first = packet(&header(Command::Echo, 1, 0), &[4, 0, 0, 0]);
    let second = packet(&header(Command::Echo, 2, 0), &[]);
    let third = packet(&header(Command::Echo, 3, 0), &[9]);
    let reply = stitch(&vec![first.clone(), second.clone(), third.clone()]).unwrap();
    assert_eq!(reply.ranges, vec![(0, 68), (72, 64), (136, 65)]);
    assert_eq!(reply.bytes.len(), 201);
    assert_eq!(&reply.bytes[0x14..0x18], &[72, 0, 0, 0]);
    assert_eq!(&reply.bytes[68..72], &[0, 0, 0, 0]);
    assert_eq!(&reply.bytes[72 + 0x14..72 + 0x18], &[64, 0, 0, 0]);
    assert_eq!(&reply.bytes[136..], third.as_slice());
    assert_eq!(&reply.bytes[..0x14], &first[..0x14]);
    assert_eq!(&reply.bytes[0x18..68], &first[0x18..]);

    let mut state = ChainState::start();
    let mut ids = Vec::new();
    while let ChainStep::Dispatch(op) = state.next_operation(&reply.bytes) {
        ids.push(op.header.message_id);
        state = state.advance(&op, None);
    }
    assert!(state.done);
    assert_eq!(ids, vec![1, 2, 3]);

    assert!(stitch(&vec![]).is_none());
    assert_eq!(stitch(&vec![first.clone()]).unwrap().bytes, first);
}

#[test]
fn signed_responses_are_found_again_after_stitching() {
    let mut signed = header(Command::Read, 1, 0);
    signed.flags = SMB2_FLAGS_SIGNED;
    signed.session_id = 0x77;
    let plain = packet(&header(Command::Echo, 2, 0), &[1, 2, 3]);
    let reply = stitch(&vec![plain, packet(&signed, &[])]).unwrap();
    assert_eq!(signed_by(&reply.bytes, reply.ranges[0].0), None);
    assert_eq!(signed_by(&reply.bytes, reply.ranges[1].0), Some(0x77));

    let session = SessionSigning {
        anonymous: false,
        signing_required: true,
        signing_key: [3; 16],
    };
    assert_eq!(compound_key(Some(session)), Some([3; 16]));
    assert_eq!(
        compound_key(Some(SessionSigning {
            anonymous: true,
            ..session
        })),
        None
    );
    assert_eq!(compound_key(None), None);
}

#[test]
fn request_signatures() {
    let session = SessionSigning {
        anonymous: false,
        signing_required: true,
        signing_key: [3; 16],
    };
    let anonymous = SessionSigning {
        anonymous: true,
        ..session
    };
    let optional = SessionSigning {
        signing_required: false,
        ..session
    };
    let mut hdr = header(Command::Read, 1, 0);
    assert_eq!(verify_request_signature(&hdr, None, false), Ok(()));
    hdr.session_id = 1;
    assert_eq!(verify_request_signature(&hdr, None, false), Ok(()));
    assert_eq!(
        verify_request_signature(&hdr, Some(session), false),
        Err(ntstatus::STATUS_ACCESS_DENIED)
    );
    assert_eq!(verify_request_signature(&hdr, Some(optional), false), Ok(()));
    assert_eq!(verify_request_signature(&hdr, Some(anonymous), false), Ok(()));
    hdr.command = Command::SessionSetup;
    assert_eq!(verify_request_signature(&hdr, Some(session), false), Ok(()));
    hdr.command = Command::Read;
    hdr.flags = SMB2_FLAGS_SIGNED;
    assert_eq!(
        verify_request_signature(&hdr, None, true),
        Err(ntstatus::STATUS_USER_SESSION_DELETED)
    );
    assert!(matches!(
        request_signature_check(&hdr, Some(session)),
        SignatureCheck::Verify([3, 3, ..])
    ));
    assert_eq!(verify_request_signature(&hdr, Some(session), true), Ok(()));
    assert_eq!(
        verify_request_signature(&hdr, Some(optional), false),
        Err(ntstatus::STATUS_ACCESS_DENIED)
    );
    assert_eq!(verify_request_signature(&hdr, Some(anonymous), false), Ok(()));
    hdr.command = Command::Negotiate;
    assert_eq!(verify_request_signature(&hdr, None, false), Ok(()));
}

#[test]
fn responses_turn_the_request_header_round() {
    let mut req = header(Command::TreeConnect, 8, 96);
    req.flags = SMB2_FLAGS_ASYNC_COMMAND | SMB2_FLAGS_SIGNED | SMB2_FLAGS_RELATED_OPERATIONS;
    req.tail = HeaderTail::Async { async_id: 5 };
    req.session_id = 4;
    req.signature = [9; 16];
    let mut resp = HandlerResponse::ok(vec![1, 2, 3]);
    resp.override_tree_id = Some(0x55);
    let built = build_response_bytes(&req, &resp, None);
    assert_eq!(built.key, None);
    let hdr = Smb2Header::parse(&built.bytes).unwrap();
    assert_eq!(hdr, built.header);
    assert_eq!(
        hdr.flags,
        SMB2_FLAGS_SERVER_TO_REDIR | SMB2_FLAGS_RELATED_OPERATIONS
    );
    assert_eq!(hdr.next_command, 0);
    assert_eq!(hdr.message_id, 8);
    assert_eq!(hdr.tree_id(), Some(0x55));
    assert_eq!(hdr.session_id, 4);
    assert_eq!(hdr.signature, [0; 16]);
    assert_eq!(&built.bytes[64..], &[1, 2, 3]);

    let refused = build_response_bytes(&req, &HandlerResponse::err(0xC000_0022), None);
    assert_eq!(&refused.bytes[8..12], &[0x22, 0, 0, 0xC0]);
    assert_eq!(refused.header.tree_id(), Some(0));
    assert!(matches!(
        response_event(&refused.bytes),
        TraceEvent::Response { status: 0xC000_0022 }
    ));
}

#[test]
fn which_responses_are_signed() {
    let session = SessionSigning {
        anonymous: false,
        signing_required: false,
        signing_key: [3; 16],
    };
    let mut req = header(Command::Read, 1, 0);
    req.session_id = 1;
    let key = |req: &Smb2Header, resp: &HandlerResponse, s| {
        let built = build_response_bytes(req, resp, s);
        assert_eq!(
            built.header.flags & SMB2_FLAGS_SIGNED != 0,
            built.key.is_some()
        );
        built.key
    };
    let ok = HandlerResponse::ok(vec![0; 9]);
    // An unsigned request gets an unsigned response.
    assert_eq!(key(&req, &ok, Some(session)), None);
    req.flags = SMB2_FLAGS_SIGNED;
    assert_eq!(key(&req, &ok, Some(session)), Some([3; 16]));
    assert_eq!(key(&req, &ok, None), None);
    let mut skipped = HandlerResponse::ok(vec![]);
    skipped.skip_signing = true;
    assert_eq!(key(&req, &skipped, Some(session)), None);
    let anonymous = SessionSigning {
        anonymous: true,
        ..session
    };
    assert_eq!(key(&req, &ok, Some(anonymous)), None);
    let keyless = SessionSigning {
        signing_key: [0; 16],
        ..session
    };
    assert_eq!(key(&req, &ok, Some(keyless)), None);
    req.session_id = 0;
    assert_eq!(key(&req, &ok, Some(session)), None);

    // A SESSION_SETUP that succeeds is signed though the request is not.
    let mut setup = header(Command::SessionSetup, 1, 0);
    let mut done = HandlerResponse::ok(vec![9, 0, 0, 0]);
    done.override_session_id = Some(0x42);
    assert_eq!(response_session_id(&setup, &done), 0x42);
    assert_eq!(key(&setup, &done, Some(session)), Some([3; 16]));
    let mut guest = HandlerResponse::ok(vec![9, 0, 1, 0]);
    guest.override_session_id = Some(0x42);
    assert_eq!(key(&setup, &guest, Some(session)), None);
    setup.session_id = 7;
    let mut more = HandlerResponse::ok(vec![9, 0, 0, 0]);
    more.status = ntstatus::STATUS_MORE_PROCESSING_REQUIRED;
    assert_eq!(response_session_id(&setup, &more), 7);
    assert_eq!(key(&setup, &more, Some(session)), None);
}

#[test]
fn requests_are_taken_in_with_their_event() {
    let mut hdr = header(Command::QueryInfo, 6, 0);
    hdr.session_id = 0xABC;
    hdr.tail = HeaderTail::sync(0xDEF);
    let frame = packet(&hdr, &[1, 2]);
    let request = enter(&frame, false, 1, 0).unwrap();
    assert_eq!(request.key, None);
    assert_eq!(request.body, vec![1, 2]);
    match request.event {
        TraceEvent::Request {
            cmd,
            session_id,
            tree_id,
        } => {
            assert_eq!(cmd, "QueryInfo");
            assert_eq!(session_id, 0xABC);
            assert_eq!(tree_id, 0xDEF);
        }
        _ => unreachable!(),
    }
    assert!(enter(&frame[..63], true, 1, 0).is_none());
}

#[test]
fn every_command_has_its_code_and_name() {
    let names = [
        "Negotiate",
        "SessionSetup",
        "Logoff",
        "TreeConnect",
        "TreeDisconnect",
        "Create",
        "Close",
        "Flush",
        "Read",
        "Write",
        "Lock",
        "Ioctl",
        "Cancel",
        "Echo",
        "QueryDirectory",
        "ChangeNotify",
        "QueryInfo",
        "SetInfo",
        "OplockBreak",
    ];
    for (code, name) in names.iter().enumerate() {
        let command = Command::from_u16(code as u16).unwrap();
        assert_eq!(command.as_u16(), code as u16);
        assert_eq!(command_name(command), *name);
        assert_eq!(format!("{command:?}"), *name);
    }
    assert_eq!(Command::from_u16(0x13), None);
}

#[test]
fn headers_are_read_as_they_are_written() {
    let mut hdr = Smb2Header {
        credit_charge: 0x0102,
        channel_sequence_status: 0x0304_0506,
        command: Command::Ioctl,
        credit_request_response: 0x0708,
        flags: 0x0900_0000,
        next_command: 0x0A0B_0C0D,
        message_id: 0x1112_1314_1516_1718,
        tail: HeaderTail::Sync {
            reserved: 0x2122_2324,
            tree_id: 0x3132_3334,
        },
        session_id: 0x4142_4344_4546_4748,
        signature: [0x5A; 16],
    };
    let bytes = packet(&hdr, &[]);
    assert_eq!(bytes.len(), 64);
    assert_eq!(&bytes[0..8], &[0xFE, 0x53, 0x4D, 0x42, 64, 0, 0x02, 0x01]);
    assert_eq!(&bytes[12..16], &[0x0B, 0, 0x08, 0x07]);
    assert_eq!(&bytes[36..40], &[0x34, 0x33, 0x32, 0x31]);
    assert_eq!(Smb2Header::parse(&bytes), Some(hdr));
    hdr.flags |= SMB2_FLAGS_ASYNC_COMMAND;
    hdr.tail = HeaderTail::Async {
        async_id: 0x6162_6364_6566_6768,
    };
    let bytes = packet(&hdr, &[1]);
    assert_eq!(Smb2Header::parse(&bytes), Some(hdr));
    assert_eq!(hdr.tree_id(), None);
}
