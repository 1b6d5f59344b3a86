//! Dispatch of one operation: take the request in, decide on its signature and
//! on what happens to it, build the response.
//!
//! The functions here decide; whoever drives them awaits the session table, the
//! handlers and the cryptography, and hands the outcomes back.

use vstd::prelude::*;

use std::collections::HashMap;

use crate::bytes::{
    copy_range, le32_at, le64_at, push_all, push_u16, push_zeros, read_u32, read_u64, zeros,
};
use crate::compound::{chain_run, lemma_chain_ordinals, ChainState, Operation};
use crate::header::{
    begins_with_header, command_code, has_flag, header_bytes, lemma_command_codes, lemma_flag_bits,
    lemma_header_round_trip, reads_as, tree_or_zero,
    Command, HeaderTail, Smb2Header, SMB2_FLAGS_ASYNC_COMMAND, SMB2_FLAGS_SERVER_TO_REDIR,
    SMB2_FLAGS_SIGNED, SMB2_HEADER_LEN,
};
use crate::ntstatus::{
    STATUS_ACCESS_DENIED, STATUS_MORE_PROCESSING_REQUIRED, STATUS_SUCCESS,
    STATUS_USER_SESSION_DELETED,
};
use crate::trace::{TraceEvent, TraceKey};

verus! {

/// Result of a handler: a complete (unsigned) response payload + the NTSTATUS
/// to set in the header. The dispatcher patches the header, applies signing
/// (if required), and ships the bytes.
#[derive(Debug)]
pub struct HandlerResponse {
    /// Bytes after the SMB2 header — the body. The handler owns body
    /// construction.
    pub body: Vec<u8>,
    /// NTSTATUS for the response header.
    pub status: u32,
    /// Optional override for `tree_id` on the response header (e.g.
    /// TREE_CONNECT returns the freshly minted tree id).
    pub override_tree_id: Option<u32>,
    /// Optional override for `session_id` on the response header (e.g.
    /// SESSION_SETUP returns the freshly minted session id).
    pub override_session_id: Option<u64>,
    /// If true, the dispatcher will not sign the response. Used for
    /// pre-session-setup messages where no key exists yet.
    pub skip_signing: bool,
    /// If set, take the per-session 3.1.1 preauth snapshot after hashing the
    /// SESSION_SETUP request but before hashing the response. Set by
    /// SESSION_SETUP on the round that produces STATUS_SUCCESS, so the
    /// session's KDF context can use the snapshot.
    pub take_preauth_snapshot_for_session: Option<u64>,
}

/// The body of an SMB2 ERROR response (MS-SMB2 §2.2.2) without error data: the
/// structure size 9, no error contexts, no data bytes, and the one zero byte
/// that stands for the absent data.
pub open spec fn error_body() -> Seq<u8> {
    seq![9u8, 0, 0, 0, 0, 0, 0, 0, 0]
}

/// A response with that status and body and nothing out of the ordinary: no
/// override, no snapshot, signed like any other.
pub open spec fn plain_response(r: HandlerResponse, status: u32, body: Seq<u8>) -> bool {
    &&& r.body@ == body
    &&& r.status == status
    &&& r.override_tree_id is None
    &&& r.override_session_id is None
    &&& !r.skip_signing
    &&& r.take_preauth_snapshot_for_session is None
}

/// The response that refuses a request with `status`.
pub open spec fn error_response(r: HandlerResponse, status: u32) -> bool {
    plain_response(r, status, error_body())
}

impl HandlerResponse {
    /// A successful response.
    pub fn ok(body: Vec<u8>) -> (r: HandlerResponse)
        ensures
            plain_response(r, STATUS_SUCCESS, body@),
    {
        HandlerResponse {
            body,
            status: STATUS_SUCCESS,
            override_tree_id: None,
            override_session_id: None,
            skip_signing: false,
            take_preauth_snapshot_for_session: None,
        }
    }

    /// A response that refuses the request.
    pub fn err(status: u32) -> (r: HandlerResponse)
        ensures
            error_response(r, status),
    {
        let mut body: Vec<u8> = Vec::new();
        push_u16(&mut body, 9);
        push_zeros(&mut body, 7);
        assert(body@ =~= error_body());
        HandlerResponse {
            body,
            status,
            override_tree_id: None,
            override_session_id: None,
            skip_signing: false,
            take_preauth_snapshot_for_session: None,
        }
    }
}

// ---------------------------------------------------------------------------
// Signatures
// ---------------------------------------------------------------------------

/// What the dispatcher reads of a session.
#[derive(Debug, Clone, Copy)]
pub struct SessionSigning {
    /// The session's identity is anonymous.
    pub anonymous: bool,
    /// Requests on the session have to be signed.
    pub signing_required: bool,
    pub signing_key: [u8; 16],
}

/// What is left to do about the signature of a request.
#[derive(Debug, Clone, Copy)]
pub enum SignatureCheck {
    /// Nothing: the request passes.
    Pass,
    /// Nothing: the request is refused with this status.
    Refuse(u32),
    /// Verify it with this key.
    Verify([u8; 16]),
}

/// What is left to do about the signature of the request `h`, where `session`
/// is the session that it names, if there is one.
pub open spec fn needed_check(h: Smb2Header, session: Option<SessionSigning>) -> SignatureCheck {
    let signed = has_flag(h, SMB2_FLAGS_SIGNED);
    if h.command == Command::Negotiate || h.session_id == 0 {
        SignatureCheck::Pass
    } else {
        match session {
            None => if signed {
                SignatureCheck::Refuse(STATUS_USER_SESSION_DELETED)
            } else {
                SignatureCheck::Pass
            },
            Some(s) => if s.anonymous {
                SignatureCheck::Pass
            } else if signed {
                SignatureCheck::Verify(s.signing_key)
            } else if s.signing_required && h.command != Command::SessionSetup {
                SignatureCheck::Refuse(STATUS_ACCESS_DENIED)
            } else {
                SignatureCheck::Pass
            },
        }
    }
}

/// What becomes of the request once the signature, where it has to be verified,
/// proved `valid` or not.
pub open spec fn verdict(check: SignatureCheck, valid: bool) -> Result<(), u32> {
    match check {
        SignatureCheck::Pass => Ok(()),
        SignatureCheck::Refuse(status) => Err(status),
        SignatureCheck::Verify(_) => if valid {
            Ok(())
        } else {
            Err(STATUS_ACCESS_DENIED)
        },
    }
}

/// Decides what is left to do about the signature of a request.
pub fn request_signature_check(hdr: &Smb2Header, session: Option<SessionSigning>) -> (r:
    SignatureCheck)
    ensures
        r == needed_check(*hdr, session),
{
    if hdr.command == Command::Negotiate {
        return SignatureCheck::Pass;
    }
    if hdr.session_id == 0 {
        return SignatureCheck::Pass;
    }
    let sess = match session {
        Some(s) => s,
        None => {
            // Unknown session.
            if hdr.flags & SMB2_FLAGS_SIGNED == 0 {
                return SignatureCheck::Pass;
            }
            return SignatureCheck::Refuse(STATUS_USER_SESSION_DELETED);
        },
    };
    if hdr.flags & SMB2_FLAGS_SIGNED != 0 {
        if sess.anonymous {
            return SignatureCheck::Pass;
        }
        return SignatureCheck::Verify(sess.signing_key);
    } else if hdr.command != Command::SessionSetup {
        if sess.signing_required && !sess.anonymous {
            return SignatureCheck::Refuse(STATUS_ACCESS_DENIED);
        }
    }
    SignatureCheck::Pass
}

/// Decides on a request by its signature. `signature_valid` says whether the
/// signature verifies with the session's key; it counts only where
/// `request_signature_check` asks for that.
pub fn verify_request_signature(
    hdr: &Smb2Header,
    session: Option<SessionSigning>,
    signature_valid: bool,
) -> (r: Result<(), u32>)
    ensures
        r == verdict(needed_check(*hdr, session), signature_valid),
{
    match request_signature_check(hdr, session) {
        SignatureCheck::Pass => Ok(()),
        SignatureCheck::Refuse(status) => Err(status),
        SignatureCheck::Verify(_) => if signature_valid {
            Ok(())
        } else {
            Err(STATUS_ACCESS_DENIED)
        },
    }
}

/// On a session that is not anonymous, a signed request passes only with a valid
/// signature, and where the session requires signing no request but NEGOTIATE
/// and SESSION_SETUP passes unsigned.
pub proof fn lemma_signature_enforced(h: Smb2Header, s: SessionSigning, valid: bool)
    requires
        h.command != Command::Negotiate,
        h.session_id != 0,
        !s.anonymous,
        verdict(needed_check(h, Some(s)), valid) is Ok,
    ensures
        has_flag(h, SMB2_FLAGS_SIGNED) ==> valid,
        s.signing_required && h.command != Command::SessionSetup ==> has_flag(h, SMB2_FLAGS_SIGNED),
{
}

// ---------------------------------------------------------------------------
// Responses
// ---------------------------------------------------------------------------

/// A response on its way out.
#[derive(Debug)]
pub struct ResponseBytes {
    pub header: Smb2Header,
    /// Header and body, the signature still zero.
    pub bytes: Vec<u8>,
    /// The key to sign the bytes with; `None` where they go out unsigned.
    pub key: Option<[u8; 16]>,
}

/// The response reports that a session was set up.
pub open spec fn sets_up_session(req: Smb2Header, resp: HandlerResponse) -> bool {
    req.command == Command::SessionSetup && resp.status == STATUS_SUCCESS
}

/// The response's own session flags say that the session is a guest's.
pub open spec fn grants_guest(req: Smb2Header, resp: HandlerResponse) -> bool {
    sets_up_session(req, resp) && resp.body@.len() >= 4 && resp.body@[2] & 0x01 != 0
}

/// The session that the response goes out under.
pub open spec fn response_session(req: Smb2Header, resp: HandlerResponse) -> u64 {
    match resp.override_session_id {
        Some(sid) => sid,
        None => req.session_id,
    }
}

/// The key that the response is signed with, where `session` is the session
/// that it goes out under: that of a session which is not anonymous and has a
/// key, when the request was signed or set the session up for someone other than
/// a guest.
pub open spec fn response_key(
    req: Smb2Header,
    resp: HandlerResponse,
    session: Option<SessionSigning>,
) -> Option<[u8; 16]> {
    match session {
        Some(s) => if !resp.skip_signing && response_session(req, resp) != 0 && (has_flag(
            req,
            SMB2_FLAGS_SIGNED,
        ) || sets_up_session(req, resp)) && !s.anonymous && !grants_guest(req, resp)
            && s.signing_key@ != zeros(16) {
            Some(s.signing_key)
        } else {
            None
        },
        None => None,
    }
}

/// `h` is the header of the response `resp` to the request `req`: the request's
/// header turned round, with the response's status, tree and session, no
/// NextCommand, and a signature that is still zero.
pub open spec fn response_header(
    h: Smb2Header,
    req: Smb2Header,
    resp: HandlerResponse,
    signed: bool,
) -> bool {
    let flags = (req.flags | SMB2_FLAGS_SERVER_TO_REDIR) & !SMB2_FLAGS_ASYNC_COMMAND;
    &&& h.credit_charge == req.credit_charge
    &&& h.channel_sequence_status == resp.status
    &&& h.command == req.command
    &&& h.credit_request_response == req.credit_request_response
    &&& h.flags == if signed {
        flags | SMB2_FLAGS_SIGNED
    } else {
        flags & !SMB2_FLAGS_SIGNED
    }
    &&& h.next_command == 0
    &&& h.message_id == req.message_id
    &&& h.tail == HeaderTail::Sync {
        reserved: 0,
        tree_id: match resp.override_tree_id {
            Some(t) => t,
            None => tree_or_zero(req),
        },
    }
    &&& h.session_id == response_session(req, resp)
    &&& h.signature@ == zeros(16)
}

/// Is every byte of the key zero?
fn is_zero_key(key: &[u8; 16]) -> (r: bool)
    ensures
        r == (key@ == zeros(16)),
{
    let mut i: usize = 0;
    while i < 16
        invariant
            i <= 16,
            forall|k: int| 0 <= k < i ==> key@[k] == 0,
        decreases 16 - i,
    {
        if key[i] != 0 {
            assert(key@[i as int] != zeros(16)[i as int]);
            return false;
        }
        i += 1;
    }
    assert(key@ =~= zeros(16));
    true
}

/// The session whose signing state `build_response_bytes` needs.
pub fn response_session_id(req_hdr: &Smb2Header, resp: &HandlerResponse) -> (r: u64)
    ensures
        r == response_session(*req_hdr, *resp),
{
    match resp.override_session_id {
        Some(sid) => sid,
        None => req_hdr.session_id,
    }
}

/// Builds the on-the-wire bytes, header and body, and says which key signs
/// them. `session` is the session that the response goes out under, if there is
/// one.
#[verifier::rlimit(50)]
pub fn build_response_bytes(
    req_hdr: &Smb2Header,
    handler_resp: &HandlerResponse,
    session: Option<SessionSigning>,
) -> (r: ResponseBytes)
    ensures
        r.key == response_key(*req_hdr, *handler_resp, session),
        response_header(r.header, *req_hdr, *handler_resp, r.key is Some),
        r.bytes@ == header_bytes(r.header) + handler_resp.body@,
{
    let mut hdr = *req_hdr;
    hdr.flags = hdr.flags | SMB2_FLAGS_SERVER_TO_REDIR;
    hdr.flags = hdr.flags & !SMB2_FLAGS_ASYNC_COMMAND;
    hdr.next_command = 0;
    hdr.channel_sequence_status = handler_resp.status;
    let tree_id: u32 = match handler_resp.override_tree_id {
        Some(t) => t,
        None => match req_hdr.tree_id() {
            Some(t) => t,
            None => 0,
        },
    };
    hdr.tail = HeaderTail::sync(tree_id);
    hdr.session_id = response_session_id(req_hdr, handler_resp);
    hdr.signature = [0u8; 16];
    assert(hdr.signature@ =~= zeros(16));

    let request_was_signed = req_hdr.flags & SMB2_FLAGS_SIGNED != 0;
    // MS-SMB2 §3.3.5.5.3 step 12: SessionSetup SUCCESS must be signed for
    // non-anon/non-guest sessions even though the request cannot be signed yet.
    let is_session_setup_success = req_hdr.command == Command::SessionSetup && handler_resp.status
        == STATUS_SUCCESS;
    let mut key: Option<[u8; 16]> = None;
    if !handler_resp.skip_signing && hdr.session_id != 0 && (request_was_signed
        || is_session_setup_success) {
        if let Some(sess) = session {
            let is_guest_response = is_session_setup_success && handler_resp.body.len() >= 4 && (
            handler_resp.body[2] & 0x01) != 0;
            if !sess.anonymous && !is_guest_response && !is_zero_key(&sess.signing_key) {
                key = Some(sess.signing_key);
            }
        }
    }
    if key.is_some() {
        hdr.flags = hdr.flags | SMB2_FLAGS_SIGNED;
    } else {
        hdr.flags = hdr.flags & !SMB2_FLAGS_SIGNED;
    }
    let mut out: Vec<u8> = Vec::new();
    hdr.write(&mut out);
    assert(out@ =~= header_bytes(hdr));
    push_all(&mut out, handler_resp.body.as_slice());
    ResponseBytes { header: hdr, bytes: out, key }
}

/// What a client reads out of the bytes of a response: a header that says what
/// the handler decided, marked as a response and not as asynchronous, signed if
/// and only if a key signs it, and alone in its frame.
pub proof fn lemma_response_reads(h: Smb2Header, req: Smb2Header, resp: HandlerResponse, signed: bool)
    requires
        response_header(h, req, resp, signed),
    ensures
        reads_as(header_bytes(h) + resp.body@, h),
        (header_bytes(h) + resp.body@).skip(64) == resp.body@,
        has_flag(h, SMB2_FLAGS_SERVER_TO_REDIR),
        !has_flag(h, SMB2_FLAGS_ASYNC_COMMAND),
        has_flag(h, SMB2_FLAGS_SIGNED) == signed,
        le32_at(header_bytes(h) + resp.body@, 0x08) == resp.status,
        le32_at(header_bytes(h) + resp.body@, 0x14) == 0,
        le64_at(header_bytes(h) + resp.body@, 0x28) == response_session(req, resp),
{
    let f = req.flags;
    assert(((f | 1u32) & !2u32 | 8u32) & 2u32 == 0u32) by (bit_vector);
    assert((((f | 1u32) & !2u32) & !8u32) & 2u32 == 0u32) by (bit_vector);
    assert(((f | 1u32) & !2u32 | 8u32) & 1u32 != 0u32) by (bit_vector);
    assert((((f | 1u32) & !2u32) & !8u32) & 1u32 != 0u32) by (bit_vector);
    assert(((f | 1u32) & !2u32 | 8u32) & 8u32 != 0u32) by (bit_vector);
    assert((((f | 1u32) & !2u32) & !8u32) & 8u32 == 0u32) by (bit_vector);
    lemma_header_round_trip(h, resp.body@);
    assert((header_bytes(h) + resp.body@).skip(64) =~= resp.body@);
}

/// A refused request is answered with the refusal: whatever the session, the
/// response carries the status that the verdict gave, under the request's own
/// message id, session and tree, and the body of an error response.
pub proof fn lemma_refusal_answered(
    h: Smb2Header,
    req: Smb2Header,
    resp: HandlerResponse,
    status: u32,
    signed: bool,
)
    requires
        error_response(resp, status),
        response_header(h, req, resp, signed),
    ensures
        reads_as(header_bytes(h) + resp.body@, h),
        h.channel_sequence_status == status,
        h.command == req.command,
        h.message_id == req.message_id,
        h.session_id == req.session_id,
        tree_or_zero(h) == tree_or_zero(req),
        (header_bytes(h) + resp.body@).skip(64) == error_body(),
{
    lemma_response_reads(h, req, resp, signed);
}

/// The key that signs a response again once it has been stitched into a
/// compound reply: that of its session, unless there is no such session any
/// more or it is anonymous.
pub open spec fn compound_key_of(session: Option<SessionSigning>) -> Option<[u8; 16]> {
    match session {
        Some(s) => if s.anonymous {
            None
        } else {
            Some(s.signing_key)
        },
        None => None,
    }
}

/// The key that signs a response again once it has been stitched into a
/// compound reply: that of its session, unless there is no such session any
/// more or it is anonymous.
pub fn compound_key(session: Option<SessionSigning>) -> (r: Option<[u8; 16]>)
    ensures
        r == compound_key_of(session),
        r == match session {
            Some(s) => if s.anonymous {
                None
            } else {
                Some(s.signing_key)
            },
            None => None,
        },
{
    match session {
        Some(s) => if s.anonymous {
            None
        } else {
            Some(s.signing_key)
        },
        None => None,
    }
}

// ---------------------------------------------------------------------------
// One operation
// ---------------------------------------------------------------------------

/// The name of a command.
pub open spec fn command_text(cmd: Command) -> Seq<char> {
    match cmd {
        Command::Negotiate => "Negotiate"@,
        Command::SessionSetup => "SessionSetup"@,
        Command::Logoff => "Logoff"@,
        Command::TreeConnect => "TreeConnect"@,
        Command::TreeDisconnect => "TreeDisconnect"@,
        Command::Create => "Create"@,
        Command::Close => "Close"@,
        Command::Flush => "Flush"@,
        Command::Read => "Read"@,
        Command::Write => "Write"@,
        Command::Lock => "Lock"@,
        Command::Ioctl => "Ioctl"@,
        Command::Cancel => "Cancel"@,
        Command::Echo => "Echo"@,
        Command::QueryDirectory => "QueryDirectory"@,
        Command::ChangeNotify => "ChangeNotify"@,
        Command::QueryInfo => "QueryInfo"@,
        Command::SetInfo => "SetInfo"@,
        Command::OplockBreak => "OplockBreak"@,
    }
}

/// Stable, `'static` command name for `TraceEvent::Request` — never the
/// request/response body, never file content.
pub fn command_name(cmd: Command) -> (name: &'static str)
    ensures
        name@ == command_text(cmd),
{
    match cmd {
        Command::Negotiate => "Negotiate",
        Command::SessionSetup => "SessionSetup",
        Command::Logoff => "Logoff",
        Command::TreeConnect => "TreeConnect",
        Command::TreeDisconnect => "TreeDisconnect",
        Command::Create => "Create",
        Command::Close => "Close",
        Command::Flush => "Flush",
        Command::Read => "Read",
        Command::Write => "Write",
        Command::Lock => "Lock",
        Command::Ioctl => "Ioctl",
        Command::Cancel => "Cancel",
        Command::Echo => "Echo",
        Command::QueryDirectory => "QueryDirectory",
        Command::ChangeNotify => "ChangeNotify",
        Command::QueryInfo => "QueryInfo",
        Command::SetInfo => "SetInfo",
        Command::OplockBreak => "OplockBreak",
    }
}

/// The trace key of an operation; no key is made where no sink is configured.
pub open spec fn key_of(
    armed: bool,
    connection_id: u64,
    message_id: u64,
    compound_ordinal: u32,
) -> Option<TraceKey> {
    if armed {
        Some(TraceKey { connection_id, message_id, compound_ordinal })
    } else {
        None
    }
}

/// A request that entered dispatch.
#[derive(Debug)]
pub struct Request {
    pub header: Smb2Header,
    /// The bytes after the header.
    pub body: Vec<u8>,
    /// What the request's events are recorded under.
    pub key: Option<TraceKey>,
    /// The event that reports the request.
    pub event: TraceEvent,
}

/// Takes in one operation; `None` where no header stands at its start. `armed`
/// says whether a trace sink is configured.
pub fn enter(frame: &[u8], armed: bool, connection_id: u64, compound_ordinal: u32) -> (r: Option<
    Request,
>)
    ensures
        match r {
            Some(req) => {
                &&& reads_as(frame@, req.header)
                &&& req.body@ == frame@.skip(64)
                &&& req.key == key_of(
                    armed,
                    connection_id,
                    req.header.message_id,
                    compound_ordinal,
                )
                &&& req.event matches TraceEvent::Request { cmd, session_id, tree_id } && cmd@
                    == command_text(req.header.command) && session_id == req.header.session_id
                    && tree_id == tree_or_zero(req.header)
            },
            None => !begins_with_header(frame@),
        },
{
    let header = match Smb2Header::parse(frame) {
        Some(h) => h,
        None => return None,
    };
    let tree_id: u32 = match header.tree_id() {
        Some(t) => t,
        None => 0,
    };
    let key = if armed {
        Some(TraceKey { connection_id, message_id: header.message_id, compound_ordinal })
    } else {
        None
    };
    let body = copy_range(frame, SMB2_HEADER_LEN, frame.len());
    assert(body@ =~= frame@.skip(64));
    Some(
        Request {
            header,
            body,
            key,
            event: TraceEvent::Request {
                cmd: command_name(header.command),
                session_id: header.session_id,
                tree_id,
            },
        },
    )
}

/// Trace keys do not collide: two operations share a key only if they came over
/// the same connection, under the same message id, at the same place in their
/// compound.
pub proof fn lemma_keys_distinct(c1: u64, m1: u64, o1: u32, c2: u64, m2: u64, o2: u32)
    ensures
        key_of(true, c1, m1, o1) == key_of(true, c2, m2, o2) <==> c1 == c2 && m1 == m2 && o1 == o2,
{
}

/// No two operations of one compound frame share a trace key, whatever message
/// ids their headers hold, as long as there are no more of them than ordinals.
pub proof fn lemma_compound_keys_distinct(
    frame: Seq<u8>,
    states: Seq<ChainState>,
    ops: Seq<Operation>,
    answers: Seq<Option<Seq<u8>>>,
    connection_id: u64,
    i: int,
    j: int,
)
    requires
        chain_run(frame, states, ops, answers),
        0 <= i < j < ops.len() <= 0x1_0000_0000,
    ensures
        key_of(true, connection_id, ops[i].header.message_id, states[i].ordinal) != key_of(
            true,
            connection_id,
            ops[j].header.message_id,
            states[j].ordinal,
        ),
{
    lemma_chain_ordinals(frame, states, ops, answers, i);
    lemma_chain_ordinals(frame, states, ops, answers, j);
}

/// The event that reports a response: the status that stands in its bytes.
pub fn response_event(bytes: &[u8]) -> (event: TraceEvent)
    requires
        bytes@.len() >= 12,
    ensures
        event == (TraceEvent::Response { status: le32_at(bytes@, 0x08) }),
{
    TraceEvent::Response { status: read_u32(bytes, 0x08) }
}

/// The dialect that SMB 3.1.1 negotiates.
pub const DIALECT_SMB311: u16 = 0x0311;

/// Which preauth integrity hash the bytes of an operation go into. It is
/// connection-scoped for NEGOTIATE, then per SESSION_SETUP authentication
/// exchange, and only SMB 3.1.1 has the latter.
#[derive(Debug, Clone, Copy, PartialEq, Eq, Structural)]
pub enum PreauthUse {
    Nothing,
    Connection,
    Session,
}

/// Which preauth integrity hash the bytes of an operation go into.
pub open spec fn preauth_use(cmd: Command, dialect: Option<u16>) -> PreauthUse {
    if cmd == Command::Negotiate {
        PreauthUse::Connection
    } else if cmd == Command::SessionSetup && dialect == Some(DIALECT_SMB311) {
        PreauthUse::Session
    } else {
        PreauthUse::Nothing
    }
}

/// What happens to an operation.
#[derive(Debug, Clone, Copy, PartialEq, Eq, Structural)]
pub enum Admission {
    /// It is answered with an error.
    Refuse(u32),
    /// It gets no answer.
    Ignore,
    /// Its handler answers it.
    Handle(PreauthUse),
}

/// What happens to an operation, given what its signature was found to be.
pub open spec fn admission(
    cmd: Command,
    verdict: Result<(), u32>,
    dialect: Option<u16>,
) -> Admission {
    match verdict {
        Err(status) => Admission::Refuse(status),
        // CANCEL is fire-and-forget.
        Ok(_) => if cmd == Command::Cancel {
            Admission::Ignore
        } else {
            Admission::Handle(preauth_use(cmd, dialect))
        },
    }
}

/// Is SMB 3.1.1 the connection's dialect?
pub fn is_smb311(dialect: Option<u16>) -> (r: bool)
    ensures
        r == (dialect == Some(DIALECT_SMB311)),
{
    match dialect {
        Some(d) => d == DIALECT_SMB311,
        None => false,
    }
}

/// Decides what happens to an operation.
pub fn decide(cmd: Command, verdict: Result<(), u32>, dialect: Option<u16>) -> (r: Admission)
    ensures
        r == admission(cmd, verdict, dialect),
{
    if let Err(status) = verdict {
        return Admission::Refuse(status);
    }
    if cmd == Command::Cancel {
        return Admission::Ignore;
    }
    if cmd == Command::Negotiate {
        Admission::Handle(PreauthUse::Connection)
    } else if cmd == Command::SessionSetup && is_smb311(dialect) {
        Admission::Handle(PreauthUse::Session)
    } else {
        Admission::Handle(PreauthUse::Nothing)
    }
}

/// What becomes of a preauth integrity hash after the response.
#[derive(Debug, Clone, Copy, PartialEq, Eq, Structural)]
pub enum PreauthUpdate {
    /// Nothing.
    Keep,
    /// The response goes into the connection's hash.
    UpdateConnection,
    /// The response goes into the exchange's hash, which is kept for the next
    /// round under this session.
    Store(u64),
    /// The exchange is over: what is kept under this session is dropped.
    Forget(u64),
}

/// What becomes of a preauth integrity hash after the response `bytes` to a
/// request on session `sid`.
pub open spec fn preauth_update(used: PreauthUse, sid: u64, bytes: Seq<u8>) -> PreauthUpdate {
    match used {
        PreauthUse::Nothing => PreauthUpdate::Keep,
        PreauthUse::Connection => PreauthUpdate::UpdateConnection,
        PreauthUse::Session => if le32_at(bytes, 0x08) == STATUS_MORE_PROCESSING_REQUIRED {
            PreauthUpdate::Store(le64_at(bytes, 0x28))
        } else {
            PreauthUpdate::Forget(sid)
        },
    }
}

/// Decides what becomes of a preauth integrity hash after the response.
pub fn preauth_after(used: PreauthUse, request_session_id: u64, bytes: &[u8]) -> (r: PreauthUpdate)
    requires
        used == PreauthUse::Session ==> bytes@.len() >= 0x0C,
        used == PreauthUse::Session && le32_at(bytes@, 0x08) == STATUS_MORE_PROCESSING_REQUIRED
            ==> bytes@.len() >= 0x30,
    ensures
        r == preauth_update(used, request_session_id, bytes@),
{
    match used {
        PreauthUse::Nothing => PreauthUpdate::Keep,
        PreauthUse::Connection => PreauthUpdate::UpdateConnection,
        PreauthUse::Session => {
            if read_u32(bytes, 0x08) == STATUS_MORE_PROCESSING_REQUIRED {
                PreauthUpdate::Store(read_u64(bytes, 0x28))
            } else {
                PreauthUpdate::Forget(request_session_id)
            }
        },
    }
}

/// The hash that a SESSION_SETUP on session `sid` goes on from: the one that is
/// kept for that session. A request that names no session begins a new exchange.
pub open spec fn kept_preauth<P>(kept: Map<u64, P>, sid: u64) -> Option<P> {
    if sid != 0 && kept.dom().contains(sid) {
        Some(kept[sid])
    } else {
        None
    }
}

/// Takes the hash that a SESSION_SETUP on session `session_id` goes on from. A
/// kept hash is taken out; a new exchange begins with a copy of the
/// connection's.
pub fn take_session_preauth<P: Clone>(
    kept: &mut HashMap<u64, P>,
    connection: &P,
    session_id: u64,
) -> (r: P)
    ensures
        match kept_preauth(old(kept)@, session_id) {
            Some(p) => r == p && final(kept)@ == old(kept)@.remove(session_id),
            None => cloned(*connection, r) && final(kept)@ == old(kept)@,
        },
{
    broadcast use vstd::std_specs::hash::group_hash_axioms;

    if session_id != 0 {
        if let Some(p) = kept.remove(&session_id) {
            return p;
        }
    }
    assert(kept@ =~= old(kept)@);
    connection.clone()
}

/// What is kept after `update`, where `preauth` is the exchange's hash.
pub open spec fn kept_after<P>(
    kept: Map<u64, P>,
    update: PreauthUpdate,
    preauth: Option<P>,
) -> Map<u64, P> {
    match (update, preauth) {
        (PreauthUpdate::Store(sid), Some(p)) => kept.insert(sid, p),
        (PreauthUpdate::Forget(sid), _) => kept.remove(sid),
        _ => kept,
    }
}

/// Carries out `update` on what is kept; `preauth` is the exchange's hash, the
/// response already in it where it is to be stored.
pub fn settle_session_preauth<P>(
    kept: &mut HashMap<u64, P>,
    update: PreauthUpdate,
    preauth: Option<P>,
)
    ensures
        final(kept)@ == kept_after(old(kept)@, update, preauth),
{
    broadcast use vstd::std_specs::hash::group_hash_axioms;

    match update {
        PreauthUpdate::Store(sid) => {
            if let Some(p) = preauth {
                kept.insert(sid, p);
            }
        },
        PreauthUpdate::Forget(sid) => {
            kept.remove(&sid);
        },
        PreauthUpdate::Keep => {},
        PreauthUpdate::UpdateConnection => {},
    }
    assert(kept@ =~= kept_after(old(kept)@, update, preauth));
}

/// The next round of an exchange goes on from the hash that the round before
/// stored, once; a new exchange never does, and no other session is touched.
pub proof fn lemma_preauth_exchange<P>(kept: Map<u64, P>, sid: u64, p: P, other: u64)
    requires
        sid != 0,
    ensures
        kept_preauth(kept_after(kept, PreauthUpdate::Store(sid), Some(p)), sid) == Some(p),
        kept_preauth(
            kept_after(kept, PreauthUpdate::Store(sid), Some(p)).remove(sid),
            sid,
        ) is None,
        kept_preauth(kept_after(kept, PreauthUpdate::Store(sid), Some(p)), 0) is None,
        kept_preauth(kept_after(kept, PreauthUpdate::Forget(sid), Some(p)), sid) is None,
        other != sid ==> kept_preauth(
            kept_after(kept, PreauthUpdate::Store(sid), Some(p)),
            other,
        ) == kept_preauth(kept, other),
        other != sid ==> kept_preauth(
            kept_after(kept, PreauthUpdate::Forget(sid), Some(p)),
            other,
        ) == kept_preauth(kept, other),
{
}

/// What becomes of a request by its signature, in full. A NEGOTIATE and a request
/// without a session pass. On an unknown session an unsigned request passes and a
/// signed one is refused with STATUS_USER_SESSION_DELETED (C0000203). On an
/// anonymous session everything passes. On any other session a signed request
/// passes exactly if its signature is valid, whether or not signing is required,
/// and an unsigned one exactly if signing is not required or it is a
/// SESSION_SETUP; what does not pass is refused with STATUS_ACCESS_DENIED
/// (C0000022). The signature is verified with the session's key.
pub proof fn lemma_signature_verdict(h: Smb2Header, session: Option<SessionSigning>, valid: bool)
    ensures
        ({
            let signed = (h.flags as int / 8) % 2 == 1;
            let exempt = command_code(h.command) == 0 || h.session_id == 0;
            let r = verdict(needed_check(h, session), valid);
            &&& exempt ==> r == Ok::<(), u32>(())
            &&& !exempt && session is None ==> r == if signed {
                Err(0xC000_0203u32)
            } else {
                Ok(())
            }
            &&& session matches Some(s) ==> {
                &&& s.anonymous ==> r == Ok::<(), u32>(())
                &&& !exempt && !s.anonymous && signed ==> {
                    &&& r == if valid {
                        Ok(())
                    } else {
                        Err(0xC000_0022u32)
                    }
                    &&& needed_check(h, session) == SignatureCheck::Verify(s.signing_key)
                }
                &&& !exempt && !s.anonymous && !signed ==> r == if !s.signing_required
                    || command_code(h.command) == 1 {
                    Ok(())
                } else {
                    Err(0xC000_0022u32)
                }
            }
        }),
{
    lemma_flag_bits(h);
    lemma_command_codes(h.command, Command::Negotiate);
    lemma_command_codes(h.command, Command::SessionSetup);
}

/// The verdict on a request does not depend on whether its session requires
/// signing, so long as the request is signed.
pub proof fn lemma_signed_request_verdict(
    h: Smb2Header,
    s: SessionSigning,
    t: SessionSigning,
    valid: bool,
)
    requires
        (h.flags as int / 8) % 2 == 1,
        s.anonymous == t.anonymous,
        s.signing_key == t.signing_key,
    ensures
        verdict(needed_check(h, Some(s)), valid) == verdict(needed_check(h, Some(t)), valid),
{
    lemma_signature_verdict(h, Some(s), valid);
    lemma_signature_verdict(h, Some(t), valid);
}

/// Which responses are signed: exactly those under a session that exists, is not
/// anonymous and has a key that is not all zero, unless signing is skipped, where
/// the request was signed, or was a SESSION_SETUP that succeeded; but not the
/// success of a guest's SESSION_SETUP, which has bit 0 set in byte 2 of its body.
/// The key is the session's.
pub proof fn lemma_response_signed(
    req: Smb2Header,
    resp: HandlerResponse,
    session: Option<SessionSigning>,
)
    ensures
        ({
            let setup = command_code(req.command) == 1 && resp.status == 0;
            let guest = setup && resp.body@.len() >= 4 && resp.body@[2] as int % 2 == 1;
            let sid = match resp.override_session_id {
                Some(sid) => sid,
                None => req.session_id,
            };
            let key = response_key(req, resp, session);
            &&& session is None ==> key is None
            &&& session matches Some(s) ==> {
                &&& key is Some <==> {
                    &&& !resp.skip_signing
                    &&& sid != 0
                    &&& ((req.flags as int / 8) % 2 == 1 || setup)
                    &&& !s.anonymous
                    &&& !guest
                    &&& exists|k: int| 0 <= k < 16 && #[trigger] s.signing_key@[k] != 0
                }
                &&& key is Some ==> key == Some(s.signing_key)
            }
        }),
{
    lemma_flag_bits(req);
    lemma_command_codes(req.command, Command::SessionSetup);
    if resp.body@.len() >= 4 {
        let b = resp.body@[2];
        assert((b & 1u8 != 0) <==> b % 2 == 1) by (bit_vector);
    }
    if let Some(s) = session {
        assert(s.signing_key@.len() == 16);
        if forall|k: int| 0 <= k < 16 ==> #[trigger] s.signing_key@[k] == 0 {
            assert(s.signing_key@ =~= zeros(16));
        } else {
            let k = choose|k: int| 0 <= k < 16 && #[trigger] s.signing_key@[k] != 0;
            assert(s.signing_key@[k] != zeros(16)[k]);
        }
    }
}

/// What signs a response at first signs it again in a compound reply, as long as
/// its session stays.
pub proof fn lemma_compound_key_kept(
    req: Smb2Header,
    resp: HandlerResponse,
    s: SessionSigning,
)
    ensures
        response_key(req, resp, Some(s)) matches Some(key) ==> compound_key_of(Some(s)) == Some(key),
        s.anonymous ==> compound_key_of(Some(s)) is None,
        compound_key_of(None) is None,
{
}

/// What a response's header takes from the request and what from the handler:
/// credits, command and message id are the request's; the status is the
/// handler's; tree and session are the handler's where it gives them, and the
/// request's otherwise. It is marked as a response and not as asynchronous, is
/// marked as signed exactly if it is, and every other flag is the request's.
#[verifier::rlimit(50)]
pub proof fn lemma_response_fields(
    h: Smb2Header,
    req: Smb2Header,
    resp: HandlerResponse,
    signed: bool,
)
    requires
        response_header(h, req, resp, signed),
    ensures
        h.credit_charge == req.credit_charge,
        h.credit_request_response == req.credit_request_response,
        h.command == req.command,
        h.message_id == req.message_id,
        h.next_command == 0,
        h.channel_sequence_status == resp.status,
        h.tail is Sync,
        resp.override_tree_id matches Some(t) ==> tree_or_zero(h) == t,
        resp.override_tree_id is None ==> tree_or_zero(h) == tree_or_zero(req),
        resp.override_session_id matches Some(sid) ==> h.session_id == sid,
        resp.override_session_id is None ==> h.session_id == req.session_id,
        forall|k: int| 0 <= k < 16 ==> #[trigger] h.signature@[k] == 0,
        h.flags as int % 2 == 1,
        (h.flags as int / 2) % 2 == 0,
        (h.flags as int / 4) % 2 == (req.flags as int / 4) % 2,
        (h.flags as int / 8) % 2 == if signed {
            1int
        } else {
            0
        },
        h.flags as int / 16 == req.flags as int / 16,
{
    let f = req.flags;
    let a = (f | 1u32) & !2u32 | 8u32;
    let b = (f | 1u32) & !2u32 & !8u32;
    assert(a % 2 == 1 && (a / 2) % 2 == 0 && (a / 4) % 2 == (f / 4) % 2 && (a / 8) % 2 == 1 && a / 16
        == f / 16) by (bit_vector)
        requires
            a == (f | 1u32) & !2u32 | 8u32,
    ;
    assert(b % 2 == 1 && (b / 2) % 2 == 0 && (b / 4) % 2 == (f / 4) % 2 && (b / 8) % 2 == 0 && b / 16
        == f / 16) by (bit_vector)
        requires
            b == (f | 1u32) & !2u32 & !8u32,
    ;
    assert(zeros(16).len() == 16);
}

/// An error response says nothing but its structure size, 9, in nine bytes.
pub proof fn lemma_error_body(r: HandlerResponse, status: u32)
    requires
        error_response(r, status),
    ensures
        r.status == status,
        r.body@.len() == 9,
        r.body@[0] == 9,
        forall|k: int| 1 <= k < 9 ==> #[trigger] r.body@[k] == 0,
        r.override_tree_id is None && r.override_session_id is None
            && r.take_preauth_snapshot_for_session is None && !r.skip_signing,
{
}

/// A trace key is made exactly where a sink is configured, and holds what it is
/// made of.
pub proof fn lemma_trace_key(armed: bool, connection_id: u64, message_id: u64, ordinal: u32)
    ensures
        key_of(armed, connection_id, message_id, ordinal) is Some <==> armed,
        key_of(armed, connection_id, message_id, ordinal) matches Some(key) ==> key.connection_id
            == connection_id && key.message_id == message_id && key.compound_ordinal == ordinal,
{
}

/// What happens to an operation: a refused one is answered with the status that
/// refuses it, whatever it is; a CANCEL that is not refused gets no answer; every
/// other one is handled. The bytes of a NEGOTIATE go into the connection's hash,
/// those of a SESSION_SETUP into the exchange's where the dialect is 3.1.1
/// (0x0311), and no others into any.
pub proof fn lemma_admission(cmd: Command, refused: Result<(), u32>, dialect: Option<u16>)
    ensures
        ({
            let r = admission(cmd, refused, dialect);
            &&& refused matches Err(status) ==> r == Admission::Refuse(status)
            &&& refused is Ok ==> {
                &&& r is Refuse <==> false
                &&& r is Ignore <==> command_code(cmd) == 12
                &&& r == Admission::Handle(PreauthUse::Connection) <==> command_code(cmd) == 0
                &&& r == Admission::Handle(PreauthUse::Session) <==> command_code(cmd) == 1
                    && dialect == Some(0x0311u16)
            }
        }),
{
    lemma_command_codes(cmd, Command::Cancel);
    lemma_command_codes(cmd, Command::Negotiate);
    lemma_command_codes(cmd, Command::SessionSetup);
}

/// What becomes of a hash after the response: that of a connection takes the
/// response in; that of an exchange is kept under the session in bytes 40 to 47
/// where the status in bytes 8 to 11 is STATUS_MORE_PROCESSING_REQUIRED
/// (C0000016), and what is kept under the request's session is dropped otherwise.
pub proof fn lemma_preauth_update(sid: u64, bytes: Seq<u8>)
    ensures
        preauth_update(PreauthUse::Nothing, sid, bytes) == PreauthUpdate::Keep,
        preauth_update(PreauthUse::Connection, sid, bytes) == PreauthUpdate::UpdateConnection,
        bytes[8] == 0x16 && bytes[9] == 0 && bytes[10] == 0 && bytes[11] == 0xC0 ==> preauth_update(
            PreauthUse::Session,
            sid,
            bytes,
        ) == PreauthUpdate::Store(le64_at(bytes, 40)),
        !(bytes[8] == 0x16 && bytes[9] == 0 && bytes[10] == 0 && bytes[11] == 0xC0)
            ==> preauth_update(PreauthUse::Session, sid, bytes) == PreauthUpdate::Forget(sid),
{
}

/// What is kept for exchanges, key by key: storing changes one entry, forgetting
/// drops one, and nothing else changes any. A request that names no session never
/// goes on from what is kept; one that names a session does exactly if something
/// is kept for it.
pub proof fn lemma_kept_entries<P>(kept: Map<u64, P>, sid: u64, p: P, key: u64)
    ensures
        kept_after(kept, PreauthUpdate::Keep, Some(p)) == kept,
        kept_after(kept, PreauthUpdate::UpdateConnection, Some(p)) == kept,
        kept_after(kept, PreauthUpdate::Store(sid), None::<P>) == kept,
        kept_after(kept, PreauthUpdate::Store(sid), Some(p)).dom().contains(key) <==> key == sid
            || kept.dom().contains(key),
        kept_after(kept, PreauthUpdate::Store(sid), Some(p))[sid] == p,
        key != sid ==> kept_after(kept, PreauthUpdate::Store(sid), Some(p))[key] == kept[key],
        kept_after(kept, PreauthUpdate::Forget(sid), None::<P>).dom().contains(key) <==> key != sid
            && kept.dom().contains(key),
        kept_preauth(kept, key) is Some <==> key != 0 && kept.dom().contains(key),
        kept_preauth(kept, key) matches Some(q) ==> q == kept[key],
{
}

/// A response with nothing out of the ordinary: its status and body, the request's
/// own tree and session, signed like any other, and no snapshot.
pub proof fn lemma_plain_response(r: HandlerResponse, status: u32, body: Seq<u8>)
    requires
        plain_response(r, status, body),
    ensures
        r.status == status,
        r.body@ == body,
        r.override_tree_id is None,
        r.override_session_id is None,
        !r.skip_signing,
        r.take_preauth_snapshot_for_session is None,
{
}

} // verus!
