//! CREATE — open or create a file/directory.
//!
//! [`plan`] turns a request into what the backend is asked to do, or into the
//! status that refuses it before any backend is called. [`finish`] turns the
//! outcome into the traced event and the response.

use vstd::prelude::*;

use crate::bytes::{
    le16, le32, le32_at, le64, le64_at, push_all, push_u16, push_u32, push_u64, read_u32,
    read_u64,
};
use crate::compound::created_file_id;
use crate::dispatch::{error_response, plain_response, response_header, HandlerResponse};
use crate::header::{header_bytes, Smb2Header};
use crate::messages::{
    aapl_name, context_chain, encode_context, file_id_bytes, Access, CreateContext, FileId,
    FileInfo, OpenIntent, OpenOptions,
};
use crate::ntstatus::{
    STATUS_ACCESS_DENIED, STATUS_INVALID_PARAMETER, STATUS_OBJECT_NAME_INVALID, STATUS_SUCCESS,
};
use crate::path::{parse_path, render, PathModel, SmbPath};
use crate::trace::{CreateContextInfo, TraceEvent};
use crate::utf16::utf16;
use crate::utils::{le_units, units_le, utf16le_to_units};

verus! {

// MS-SMB2 §2.2.13 access mask flags
pub const FILE_READ_DATA: u32 = 0x0000_0001;

pub const FILE_WRITE_DATA: u32 = 0x0000_0002;

pub const FILE_APPEND_DATA: u32 = 0x0000_0004;

pub const FILE_READ_ATTRIBUTES: u32 = 0x0000_0080;

pub const FILE_WRITE_ATTRIBUTES: u32 = 0x0000_0100;

pub const DELETE: u32 = 0x0001_0000;

pub const GENERIC_READ: u32 = 0x8000_0000;

pub const GENERIC_WRITE: u32 = 0x4000_0000;

pub const GENERIC_ALL: u32 = 0x1000_0000;

pub const MAX_ALLOWED: u32 = 0x0200_0000;

// CreateOptions
pub const FILE_DIRECTORY_FILE: u32 = 0x0000_0001;

pub const FILE_NON_DIRECTORY_FILE: u32 = 0x0000_0040;

pub const FILE_DELETE_ON_CLOSE: u32 = 0x0000_1000;

// CreateDisposition
pub const FILE_SUPERSEDE: u32 = 0x0000_0000;

pub const FILE_OPEN: u32 = 0x0000_0001;

pub const FILE_CREATE: u32 = 0x0000_0002;

pub const FILE_OPEN_IF: u32 = 0x0000_0003;

pub const FILE_OVERWRITE: u32 = 0x0000_0004;

pub const FILE_OVERWRITE_IF: u32 = 0x0000_0005;

// CreateAction in response (MS-SMB2 §2.2.14)
pub const FILE_OPENED: u32 = 0x0000_0001;

pub const FILE_CREATED: u32 = 0x0000_0002;

// SMB2_CRTCTX_AAPL "server query"
pub const AAPL_CMD_SERVER_QUERY: u32 = 1;

pub const AAPL_REQ_SERVER_CAPS: u64 = 0x1;

pub const AAPL_REQ_VOLUME_CAPS: u64 = 0x2;

pub const AAPL_SERVER_CAPS_UNIX_BASED: u64 = 0x4;

/// What the handler reads of a CREATE request.
#[derive(Debug)]
pub struct CreateRequest {
    pub desired_access: u32,
    pub create_disposition: u32,
    pub create_options: u32,
    /// The name, as it stands in the request: UTF-16LE.
    pub name: Vec<u8>,
    /// The create contexts; `None` where their chain is malformed.
    pub create_contexts: Option<Vec<CreateContext>>,
}

// ---------------------------------------------------------------------------
// Before the backend is called
// ---------------------------------------------------------------------------

/// The path that a name in a request denotes: the text that its UTF-16 units
/// encode, read as a path.
pub open spec fn path_of(name: Seq<u8>) -> Option<PathModel> {
    if name.len() % 2 == 0 && exists|s: Seq<char>| utf16(s) == le_units(name) {
        parse_path(choose|s: Seq<char>| utf16(s) == le_units(name))
    } else {
        None
    }
}

/// What a create disposition asks for.
pub open spec fn intent_of(disposition: u32) -> Option<OpenIntent> {
    if disposition == FILE_SUPERSEDE || disposition == FILE_OVERWRITE_IF {
        Some(OpenIntent::OverwriteOrCreate)
    } else if disposition == FILE_OPEN {
        Some(OpenIntent::Open)
    } else if disposition == FILE_CREATE {
        Some(OpenIntent::Create)
    } else if disposition == FILE_OPEN_IF {
        Some(OpenIntent::OpenOrCreate)
    } else if disposition == FILE_OVERWRITE {
        Some(OpenIntent::Truncate)
    } else {
        None
    }
}

/// Does the access mask ask to read?
pub open spec fn wants_read(access: u32) -> bool {
    access & (FILE_READ_DATA | FILE_READ_ATTRIBUTES | GENERIC_READ | GENERIC_ALL | MAX_ALLOWED) != 0
}

/// Does the access mask ask to write?
pub open spec fn wants_write(access: u32) -> bool {
    access & (FILE_WRITE_DATA | FILE_APPEND_DATA | FILE_WRITE_ATTRIBUTES | DELETE | GENERIC_WRITE
        | GENERIC_ALL | MAX_ALLOWED) != 0
}

/// The options ask for a directory.
pub open spec fn wants_directory(options: u32) -> bool {
    options & FILE_DIRECTORY_FILE != 0
}

/// The options ask for anything but a directory.
pub open spec fn wants_non_directory(options: u32) -> bool {
    options & FILE_NON_DIRECTORY_FILE != 0
}

/// What the backend is asked to do, and what the open may do later on.
#[derive(Debug)]
pub struct CreatePlan {
    pub path: SmbPath,
    pub options: OpenOptions,
    /// What the open grants: no more than what was asked for.
    pub access: Access,
}

/// The status that refuses a request before any backend is called; `None` where
/// it is not refused. Of several reasons the first one counts.
pub open spec fn refusal(request: Option<CreateRequest>, tree: Result<Access, u32>) -> Option<u32> {
    match (request, tree) {
        (None, _) => Some(STATUS_INVALID_PARAMETER),
        (Some(_), Err(status)) => Some(status),
        (Some(req), Ok(granted)) => {
            let path = path_of(req.name@);
            let intent = intent_of(req.create_disposition);
            let directory = wants_directory(req.create_options);
            if path is None {
                Some(STATUS_OBJECT_NAME_INVALID)
            } else if intent is None {
                Some(STATUS_INVALID_PARAMETER)
            } else if granted == Access::Read && (wants_write(req.desired_access) || intent != Some(
                OpenIntent::Open,
            )) {
                Some(STATUS_ACCESS_DENIED)
            } else if directory && (wants_non_directory(req.create_options) || intent == Some(
                OpenIntent::OverwriteOrCreate,
            ) || intent == Some(OpenIntent::Truncate) || path->0.stream is Some) {
                Some(STATUS_INVALID_PARAMETER)
            } else {
                None
            }
        },
    }
}

/// `plan` is what an acceptable request asks for.
pub open spec fn plans(plan: CreatePlan, req: CreateRequest, granted: Access) -> bool {
    &&& path_of(req.name@) == Some(plan.path@)
    &&& intent_of(req.create_disposition) == Some(plan.options.intent)
    &&& plan.options.write == wants_write(req.desired_access)
    &&& plan.options.read == (wants_read(req.desired_access) || !wants_write(req.desired_access))
    &&& plan.options.directory == wants_directory(req.create_options)
    &&& plan.options.non_directory == wants_non_directory(req.create_options)
    &&& plan.options.delete_on_close == (req.create_options & FILE_DELETE_ON_CLOSE != 0)
    &&& plan.access == if wants_write(req.desired_access) {
        granted
    } else {
        Access::Read
    }
}

/// Reads the path out of a request.
fn decode_path(name: &[u8]) -> (r: Option<SmbPath>)
    ensures
        match r {
            Some(p) => path_of(name@) == Some(p@),
            None => path_of(name@) is None,
        },
{
    let units = match utf16le_to_units(name) {
        Some(u) => u,
        None => return None,
    };
    let r = SmbPath::from_utf16(units.as_slice());
    proof {
        if exists|s: Seq<char>| utf16(s) == le_units(name@) {
            let t = choose|s: Seq<char>| utf16(s) == le_units(name@);
            assert forall|s: Seq<char>| #[trigger] utf16(s) == le_units(name@) implies s == t by {
                crate::utf16::lemma_utf16_injective(s, t);
            }
        }
    }
    match r {
        Ok(p) => Some(p),
        Err(_) => None,
    }
}

/// Translates a create disposition.
fn decode_intent(disposition: u32) -> (r: Option<OpenIntent>)
    ensures
        r == intent_of(disposition),
{
    match disposition {
        FILE_SUPERSEDE | FILE_OVERWRITE_IF => Some(OpenIntent::OverwriteOrCreate),
        FILE_OPEN => Some(OpenIntent::Open),
        FILE_CREATE => Some(OpenIntent::Create),
        FILE_OPEN_IF => Some(OpenIntent::OpenOrCreate),
        FILE_OVERWRITE => Some(OpenIntent::Truncate),
        _ => None,
    }
}

/// Turns a request into what the backend is asked to do. `request` is `None`
/// where the body of the request does not parse; `tree` is what the tree that it
/// names grants, or the status of a session or tree that does not exist.
#[verifier::rlimit(50)]
pub fn plan(request: Option<&CreateRequest>, tree: Result<Access, u32>) -> (r: Result<
    CreatePlan,
    u32,
>)
    ensures
        match r {
            Ok(plan) => request matches Some(req) && tree matches Ok(granted) && refusal(
                Some(*req),
                tree,
            ) is None && plans(plan, *req, granted),
            Err(status) => refusal(
                match request {
                    Some(req) => Some(*req),
                    None => None,
                },
                tree,
            ) == Some(status),
        },
{
    let req = match request {
        Some(r) => r,
        None => return Err(STATUS_INVALID_PARAMETER),
    };
    let granted = match tree {
        Ok(granted) => granted,
        Err(status) => return Err(status),
    };

    // Decode path.
    let path = match decode_path(req.name.as_slice()) {
        Some(p) => p,
        None => return Err(STATUS_OBJECT_NAME_INVALID),
    };

    // Translate disposition.
    let intent = match decode_intent(req.create_disposition) {
        Some(i) => i,
        None => return Err(STATUS_INVALID_PARAMETER),
    };

    // Translate desired access into read/write hints.
    let want_read = req.desired_access & (FILE_READ_DATA | FILE_READ_ATTRIBUTES | GENERIC_READ
        | GENERIC_ALL | MAX_ALLOWED) != 0;
    let want_write = req.desired_access & (FILE_WRITE_DATA | FILE_APPEND_DATA
        | FILE_WRITE_ATTRIBUTES | DELETE | GENERIC_WRITE | GENERIC_ALL | MAX_ALLOWED) != 0;

    // Reject writes on a read-only tree.
    if want_write && !granted.allows_write() {
        return Err(STATUS_ACCESS_DENIED);
    }
    // Disposition that creates: requires write permission.

    if !granted.allows_write() && intent != OpenIntent::Open {
        return Err(STATUS_ACCESS_DENIED);
    }
    let directory = req.create_options & FILE_DIRECTORY_FILE != 0;
    let non_directory = req.create_options & FILE_NON_DIRECTORY_FILE != 0;
    if directory && non_directory {
        return Err(STATUS_INVALID_PARAMETER);
    }
    // MS-SMB2 §2.2.13: FILE_DIRECTORY_FILE is valid only paired with
    // FILE_CREATE, FILE_OPEN_IF, or FILE_OPEN — never with a disposition
    // that overwrites or truncates.

    if directory && (intent == OpenIntent::OverwriteOrCreate || intent == OpenIntent::Truncate) {
        return Err(STATUS_INVALID_PARAMETER);
    }
    // A named stream selector never names a directory.

    if directory && path.stream_name().is_some() {
        return Err(STATUS_INVALID_PARAMETER);
    }
    let delete_on_close = req.create_options & FILE_DELETE_ON_CLOSE != 0;
    Ok(
        CreatePlan {
            path,
            options: OpenOptions {
                read: want_read || !want_write,
                write: want_write,
                intent,
                directory,
                non_directory,
                delete_on_close,
            },
            access: if want_write {
                granted
            } else {
                Access::Read
            },
        },
    )
}

/// On a tree that grants reading alone, no open that gets to the backend writes,
/// creates or truncates anything, and the open itself grants reading alone.
pub proof fn lemma_read_only_tree(plan: CreatePlan, req: CreateRequest)
    requires
        refusal(Some(req), Ok(Access::Read)) is None,
        plans(plan, req, Access::Read),
    ensures
        !plan.options.write,
        plan.options.read,
        plan.options.intent == OpenIntent::Open,
        plan.access == Access::Read,
{
}

/// A directory is never overwritten or truncated, never at once asked not to be
/// one, and never named by a stream. Every open reads or writes, and grants
/// writing only where it was asked for and the tree grants it.
pub proof fn lemma_plan_consistent(plan: CreatePlan, req: CreateRequest, granted: Access)
    requires
        refusal(Some(req), Ok(granted)) is None,
        plans(plan, req, granted),
    ensures
        plan.options.directory ==> {
            &&& !plan.options.non_directory
            &&& plan.options.intent != OpenIntent::OverwriteOrCreate
            &&& plan.options.intent != OpenIntent::Truncate
            &&& plan.path@.stream is None
        },
        plan.options.read || plan.options.write,
        plan.access == Access::ReadWrite ==> plan.options.write && granted == Access::ReadWrite,
{
}

// ---------------------------------------------------------------------------
// Apple's create context
// ---------------------------------------------------------------------------

/// The bits of a server query that are answered.
pub open spec fn answered_bits(request: u64) -> u64 {
    let server = if request & AAPL_REQ_SERVER_CAPS != 0 {
        AAPL_REQ_SERVER_CAPS
    } else {
        0
    };
    let volume = if request & AAPL_REQ_VOLUME_CAPS != 0 {
        AAPL_REQ_VOLUME_CAPS
    } else {
        0
    };
    server | volume
}

/// The answers to a server query, in the order of their bits.
pub open spec fn answers(request: u64) -> Seq<u8> {
    let server = if request & AAPL_REQ_SERVER_CAPS != 0 {
        le64(AAPL_SERVER_CAPS_UNIX_BASED)
    } else {
        seq![]
    };
    let volume = if request & AAPL_REQ_VOLUME_CAPS != 0 {
        le64(0)
    } else {
        seq![]
    };
    server + volume
}

/// The reply to the payload of an AAPL context: one to a server query, none to
/// anything else. `SERVER_CAPS` is answered with a UNIX-like server,
/// `VOLUME_CAPS` with no claim at all, and what else is asked for is absent from
/// the reply bitmap.
pub open spec fn aapl_reply(data: Seq<u8>) -> Option<Seq<u8>> {
    if data.len() != 24 || le32_at(data, 0) != AAPL_CMD_SERVER_QUERY {
        None
    } else {
        let request = le64_at(data, 8);
        Some(
            le32(AAPL_CMD_SERVER_QUERY) + le32(0) + le64(answered_bits(request)) + answers(request),
        )
    }
}

/// Answers an AAPL context.
///
/// The server query payload is always exactly 24 bytes (CommandCode, Reserved,
/// RequestBitmap, ClientCapabilities). A different length or command is not
/// something that is understood here; per MS-SMB2 §3.3.5.9.11 unknown or
/// malformed contexts are ignored, not rejected.
pub fn build_aapl_response_context(aapl: &CreateContext) -> (r: Option<CreateContext>)
    ensures
        match r {
            Some(context) => context.name@ == aapl_name() && aapl_reply(aapl.data@) == Some(
                context.data@,
            ),
            None => aapl_reply(aapl.data@) is None,
        },
{
    if aapl.data.len() != 24 {
        return None;
    }
    let command_code: u32 = read_u32(aapl.data.as_slice(), 0);
    if command_code != AAPL_CMD_SERVER_QUERY {
        return None;
    }
    let request_bitmap: u64 = read_u64(aapl.data.as_slice(), 8);

    let mut reply_bitmap: u64 = 0;
    let mut data: Vec<u8> = Vec::new();
    assert(0u64 | 0u64 == 0u64 && 0u64 | 2u64 == 2u64 && 1u64 | 0u64 == 1u64) by (bit_vector);
    assert(0u64 | 1u64 == 1u64) by (bit_vector);
    if request_bitmap & AAPL_REQ_SERVER_CAPS != 0 {
        reply_bitmap = reply_bitmap | AAPL_REQ_SERVER_CAPS;
        push_u64(&mut data, AAPL_SERVER_CAPS_UNIX_BASED);
    }
    if request_bitmap & AAPL_REQ_VOLUME_CAPS != 0 {
        reply_bitmap = reply_bitmap | AAPL_REQ_VOLUME_CAPS;
        push_u64(&mut data, 0);
    }
    assert(reply_bitmap == answered_bits(request_bitmap));
    assert(data@ =~= answers(request_bitmap));

    let mut out: Vec<u8> = Vec::new();
    push_u32(&mut out, AAPL_CMD_SERVER_QUERY);
    push_u32(&mut out, 0);  // Reserved
    push_u64(&mut out, reply_bitmap);
    push_all(&mut out, data.as_slice());
    assert(out@ =~= aapl_reply(aapl.data@)->0);

    let mut name: Vec<u8> = Vec::new();
    push_all(&mut name, CreateContext::NAME_AAPL.as_slice());
    assert(name@ =~= aapl_name());
    Some(CreateContext { name, data: out })
}

/// What a server query is answered: nothing that was not asked for, everything
/// asked for that is implemented, and eight bytes for each answered bit behind
/// the sixteen fixed ones.
pub proof fn lemma_aapl_answers_what_was_asked(data: Seq<u8>)
    requires
        aapl_reply(data) is Some,
    ensures
        answered_bits(le64_at(data, 8)) == le64_at(data, 8) & (AAPL_REQ_SERVER_CAPS
            | AAPL_REQ_VOLUME_CAPS),
        aapl_reply(data)->0.len() == 16 + (if le64_at(data, 8) & AAPL_REQ_SERVER_CAPS != 0 {
            8int
        } else {
            0
        }) + (if le64_at(data, 8) & AAPL_REQ_VOLUME_CAPS != 0 {
            8int
        } else {
            0
        }),
{
    let x = le64_at(data, 8);
    assert(((if x & 1 != 0 {
        1u64
    } else {
        0
    }) | (if x & 2 != 0 {
        2u64
    } else {
        0
    })) == x & (1u64 | 2u64)) by (bit_vector);
}

/// The payload of the first AAPL context in `contexts`.
pub open spec fn first_aapl(contexts: Seq<CreateContext>) -> Option<Seq<u8>>
    decreases contexts.len(),
{
    if contexts.len() == 0 {
        None
    } else if contexts[0].name@ == aapl_name() {
        Some(contexts[0].data@)
    } else {
        first_aapl(contexts.skip(1))
    }
}

/// The contexts of a request. Malformed input degrades to "no contexts seen"
/// rather than failing the CREATE outright.
pub open spec fn seen_contexts(req: CreateRequest) -> Seq<CreateContext> {
    match req.create_contexts {
        Some(contexts) => contexts@,
        None => seq![],
    }
}

/// The context chain of the response: the answer to the first AAPL context, or
/// nothing.
pub open spec fn reply_chain(req: CreateRequest) -> Seq<u8> {
    match first_aapl(seen_contexts(req)) {
        Some(data) => match aapl_reply(data) {
            Some(reply) => context_chain(aapl_name(), reply),
            None => seq![],
        },
        None => seq![],
    }
}

/// Is this the name of Apple's create context?
fn is_aapl(name: &Vec<u8>) -> (r: bool)
    ensures
        r == (name@ == aapl_name()),
{
    if name.len() == 4 && name[0] == 0x41 && name[1] == 0x41 && name[2] == 0x50 && name[3] == 0x4C {
        assert(name@ =~= aapl_name());
        true
    } else {
        false
    }
}

/// Answers the first AAPL context of a request.
fn answer_contexts(req: &CreateRequest) -> (chain: Vec<u8>)
    ensures
        chain@ == reply_chain(*req),
        chain@.len() <= 56,
{
    if let Some(contexts) = &req.create_contexts {
        let mut i: usize = 0;
        assert(contexts@.skip(0) =~= contexts@);
        while i < contexts.len()
            invariant
                i <= contexts@.len(),
                seen_contexts(*req) == contexts@,
                first_aapl(contexts@) == first_aapl(contexts@.skip(i as int)),
            decreases contexts@.len() - i,
        {
            assert(contexts@.skip(i as int).skip(1) =~= contexts@.skip(i + 1));
            if is_aapl(&contexts[i].name) {
                return match build_aapl_response_context(&contexts[i]) {
                    Some(context) => {
                        proof {
                            lemma_aapl_answers_what_was_asked(contexts@[i as int].data@);
                        }
                        encode_context(&context)
                    },
                    None => Vec::new(),
                };
            }
            i += 1;
        }
        assert(contexts@.skip(i as int) =~= seq![]);
    }
    Vec::new()
}

// ---------------------------------------------------------------------------
// After the backend was called
// ---------------------------------------------------------------------------

/// What came of an open.
#[derive(Debug)]
pub enum CreateOutcome {
    /// The backend refused it, or the new handle could not be queried.
    Failed(u32),
    /// It is registered under `file_id`.
    Opened { file_id: FileId, info: FileInfo },
}

/// The names and payload lengths of contexts.
pub open spec fn context_infos(contexts: Seq<CreateContext>, infos: Seq<CreateContextInfo>) -> bool {
    &&& infos.len() == contexts.len()
    &&& forall|i: int|
        0 <= i < contexts.len() ==> (#[trigger] infos[i]).name@ == contexts[i].name@
            && infos[i].data_len == contexts[i].data@.len() as u32
}

/// `event` reports the CREATE `req` on `path`: the raw request fields, the
/// decoded flags, the FileId where one was given out, and of each context its
/// name and the length of its payload.
pub open spec fn traces(
    event: TraceEvent,
    req: CreateRequest,
    path: PathModel,
    file_id: Option<FileId>,
) -> bool {
    event matches TraceEvent::Create {
        path: text,
        create_options,
        directory,
        non_directory,
        create_disposition,
        desired_access,
        file_id: id,
        contexts,
    } && {
        &&& text@ == render(path.components)
        &&& create_options == req.create_options
        &&& directory == wants_directory(req.create_options)
        &&& non_directory == wants_non_directory(req.create_options)
        &&& create_disposition == req.create_disposition
        &&& desired_access == req.desired_access
        &&& match (id, file_id) {
            (Some(a), Some(f)) => a@ == file_id_bytes(f),
            (None, None) => true,
            _ => false,
        }
        &&& context_infos(seen_contexts(req), contexts@)
    }
}

/// Names and payload lengths of the contexts of a request.
fn describe_contexts(req: &CreateRequest) -> (infos: Vec<CreateContextInfo>)
    ensures
        context_infos(seen_contexts(*req), infos@),
{
    let mut infos: Vec<CreateContextInfo> = Vec::new();
    if let Some(contexts) = &req.create_contexts {
        let mut i: usize = 0;
        while i < contexts.len()
            invariant
                i <= contexts@.len(),
                infos@.len() == i,
                forall|k: int|
                    0 <= k < i ==> (#[trigger] infos@[k]).name@ == contexts@[k].name@
                        && infos@[k].data_len == contexts@[k].data@.len() as u32,
            decreases contexts@.len() - i,
        {
            let mut name: Vec<u8> = Vec::new();
            push_all(&mut name, contexts[i].name.as_slice());
            assert(name@ =~= contexts@[i as int].name@);
            infos.push(CreateContextInfo { name, data_len: contexts[i].data.len() as u32 });
            i += 1;
        }
    }
    infos
}

/// The event that reports a CREATE. It is recorded regardless of the outcome; a
/// failing CREATE never gets a FileId.
pub fn create_event(req: &CreateRequest, path: &SmbPath, file_id: Option<FileId>) -> (event:
    TraceEvent)
    ensures
        traces(event, *req, path@, file_id),
{
    TraceEvent::Create {
        path: path.display_backslash(),
        create_options: req.create_options,
        directory: req.create_options & FILE_DIRECTORY_FILE != 0,
        non_directory: req.create_options & FILE_NON_DIRECTORY_FILE != 0,
        create_disposition: req.create_disposition,
        desired_access: req.desired_access,
        file_id: match file_id {
            Some(id) => Some(id.to_bytes()),
            None => None,
        },
        contexts: describe_contexts(req),
    }
}

/// The create action that a response reports.
pub open spec fn action_of(intent: OpenIntent) -> u32 {
    if intent == OpenIntent::Create {
        FILE_CREATED
    } else {
        FILE_OPENED
    }
}

/// The body of a CREATE response up to the FileId (MS-SMB2 §2.2.14).
pub open spec fn create_front(intent: OpenIntent, info: FileInfo) -> Seq<u8> {
    le16(89) + seq![0u8, 0u8] + le32(action_of(intent)) + le64(info.creation_time) + le64(
        info.last_access_time,
    ) + le64(info.last_write_time) + le64(info.change_time) + le64(info.allocation_size) + le64(
        info.end_of_file,
    ) + le32(info.attributes) + le32(0)
}

/// The body of a CREATE response (MS-SMB2 §2.2.14). A context chain can start
/// only behind the 64-byte header and the 88 fixed bytes.
pub open spec fn create_body(
    intent: OpenIntent,
    info: FileInfo,
    file_id: FileId,
    chain: Seq<u8>,
) -> Seq<u8> {
    create_front(intent, info) + file_id_bytes(file_id) + le32(
        if chain.len() == 0 {
            0
        } else {
            152
        },
    ) + le32(chain.len() as u32) + chain
}

/// Encodes the body of a CREATE response.
fn encode_body(intent: OpenIntent, info: &FileInfo, file_id: FileId, chain: &Vec<u8>) -> (out: Vec<
    u8,
>)
    ensures
        out@ == create_body(intent, *info, file_id, chain@),
{
    let create_action: u32 = match intent {
        OpenIntent::Create => FILE_CREATED,
        OpenIntent::OpenOrCreate | OpenIntent::OverwriteOrCreate => FILE_OPENED,
        OpenIntent::Open | OpenIntent::Truncate => FILE_OPENED,
    };
    let mut out: Vec<u8> = Vec::new();
    push_u16(&mut out, 89);
    out.push(0);  // OplockLevel
    out.push(0);  // Flags
    push_u32(&mut out, create_action);
    push_u64(&mut out, info.creation_time);
    push_u64(&mut out, info.last_access_time);
    push_u64(&mut out, info.last_write_time);
    push_u64(&mut out, info.change_time);
    push_u64(&mut out, info.allocation_size);
    push_u64(&mut out, info.end_of_file);
    push_u32(&mut out, info.attributes);
    push_u32(&mut out, 0);  // Reserved2
    assert(out@ =~= create_front(intent, *info));
    push_all(&mut out, file_id.to_bytes().as_slice());
    push_u32(
        &mut out,
        if chain.len() == 0 {
            0
        } else {
            152
        },
    );
    push_u32(&mut out, chain.len() as u32);
    push_all(&mut out, chain.as_slice());
    assert(out@ =~= create_body(intent, *info, file_id, chain@));
    out
}

/// `event` reports the CREATE where a trace sink is configured; otherwise there
/// is no event.
pub open spec fn traces_if(
    armed: bool,
    event: Option<TraceEvent>,
    req: CreateRequest,
    path: PathModel,
    file_id: Option<FileId>,
) -> bool {
    match event {
        Some(e) => armed && traces(e, req, path, file_id),
        None => !armed,
    }
}

/// Answers a CREATE that got to the backend, and reports it, whatever the
/// outcome, where a trace sink is configured (`armed`).
pub fn finish(req: &CreateRequest, plan: &CreatePlan, outcome: &CreateOutcome, armed: bool) -> (r: (
    Option<TraceEvent>,
    HandlerResponse,
))
    ensures
        match *outcome {
            CreateOutcome::Failed(status) => traces_if(armed, r.0, *req, plan.path@, None)
                && error_response(r.1, status),
            CreateOutcome::Opened { file_id, info } => traces_if(
                armed,
                r.0,
                *req,
                plan.path@,
                Some(file_id),
            ) && plain_response(
                r.1,
                STATUS_SUCCESS,
                create_body(plan.options.intent, info, file_id, reply_chain(*req)),
            ),
        },
{
    let file_id = match outcome {
        CreateOutcome::Failed(_) => None,
        CreateOutcome::Opened { file_id, .. } => Some(*file_id),
    };
    let event = if armed {
        Some(create_event(req, &plan.path, file_id))
    } else {
        None
    };
    let response = match outcome {
        CreateOutcome::Failed(status) => HandlerResponse::err(*status),
        CreateOutcome::Opened { file_id, info } => {
            let chain = answer_contexts(req);
            HandlerResponse::ok(encode_body(plan.options.intent, info, *file_id, &chain))
        },
    };
    (event, response)
}

/// A related operation behind a successful CREATE inherits the FileId that was
/// given out: it is what the walk through the compound takes out of the
/// response.
#[verifier::rlimit(50)]
pub proof fn lemma_created_file_id(
    h: Smb2Header,
    req: Smb2Header,
    resp: HandlerResponse,
    signed: bool,
    intent: OpenIntent,
    info: FileInfo,
    file_id: FileId,
    chain: Seq<u8>,
)
    requires
        plain_response(resp, STATUS_SUCCESS, create_body(intent, info, file_id, chain)),
        response_header(h, req, resp, signed),
    ensures
        created_file_id(header_bytes(h) + resp.body@) == Some(file_id_bytes(file_id)),
{
    let head = header_bytes(h);
    let bytes = head + resp.body@;
    let status = le32_at(bytes, 8);
    assert(status == STATUS_SUCCESS && bytes.len() >= 64 && bytes.skip(64) == resp.body@) by {
        crate::dispatch::lemma_response_reads(h, req, resp, signed);
    }
    lemma_body_holds_file_id(intent, info, file_id, chain);
    assert(bytes.subrange(128, 144) =~= bytes.skip(64).subrange(64, 80));
}

proof fn lemma_body_holds_file_id(
    intent: OpenIntent,
    info: FileInfo,
    file_id: FileId,
    chain: Seq<u8>,
)
    ensures
        create_body(intent, info, file_id, chain).len() == 88 + chain.len(),
        create_body(intent, info, file_id, chain).subrange(64, 80) == file_id_bytes(file_id),
{
    let front = create_front(intent, info);
    assert(front.len() == 64);
    let id = file_id_bytes(file_id);
    assert(id.len() == 16);
    assert(create_body(intent, info, file_id, chain).subrange(64, 80) =~= id);
}

/// A refused CREATE hands no FileId on.
pub proof fn lemma_failed_create_has_no_file_id(
    h: Smb2Header,
    req: Smb2Header,
    resp: HandlerResponse,
    status: u32,
    signed: bool,
)
    requires
        error_response(resp, status),
        response_header(h, req, resp, signed),
    ensures
        created_file_id(header_bytes(h) + resp.body@) is None,
{
    crate::dispatch::lemma_response_reads(h, req, resp, signed);
    crate::header::lemma_header_round_trip(h, resp.body@);
}

/// The payload of a context never reaches the trace: an event that reports a
/// request reports just as well any request that differs from it in payload
/// bytes alone.
pub proof fn lemma_trace_has_no_payload(
    event: TraceEvent,
    a: CreateRequest,
    b: CreateRequest,
    path: PathModel,
    file_id: Option<FileId>,
)
    requires
        traces(event, a, path, file_id),
        a.create_options == b.create_options,
        a.create_disposition == b.create_disposition,
        a.desired_access == b.desired_access,
        seen_contexts(a).len() == seen_contexts(b).len(),
        forall|i: int|
            0 <= i < seen_contexts(a).len() ==> (#[trigger] seen_contexts(a)[i]).name@
                == seen_contexts(b)[i].name@ && seen_contexts(a)[i].data@.len() == seen_contexts(
                b,
            )[i].data@.len(),
    ensures
        traces(event, b, path, file_id),
{
}

// ---------------------------------------------------------------------------
// What a CREATE means
// ---------------------------------------------------------------------------

/// The bits of an access mask that ask to read are 1 (FILE_READ_DATA), 80
/// (FILE_READ_ATTRIBUTES), 80000000 (GENERIC_READ), 10000000 (GENERIC_ALL) and
/// 2000000 (MAXIMUM_ALLOWED); those that ask to write are 2 (FILE_WRITE_DATA), 4
/// (FILE_APPEND_DATA), 100 (FILE_WRITE_ATTRIBUTES), 10000 (DELETE), 40000000
/// (GENERIC_WRITE), 10000000 and 2000000. Any one of them is enough, and no other
/// bit counts.
pub proof fn lemma_access_bits(a: u32)
    ensures
        wants_read(a) <==> a & 0x0000_0001 != 0 || a & 0x0000_0080 != 0 || a & 0x8000_0000 != 0 || a
            & 0x1000_0000 != 0 || a & 0x0200_0000 != 0,
        wants_write(a) <==> a & 0x0000_0002 != 0 || a & 0x0000_0004 != 0 || a & 0x0000_0100 != 0 || a
            & 0x0001_0000 != 0 || a & 0x4000_0000 != 0 || a & 0x1000_0000 != 0 || a & 0x0200_0000
            != 0,
{
    assert((a & (0x1u32 | 0x80 | 0x8000_0000 | 0x1000_0000 | 0x0200_0000) != 0) <==> (a & 0x1u32
        != 0 || a & 0x80u32 != 0 || a & 0x8000_0000u32 != 0 || a & 0x1000_0000u32 != 0 || a
        & 0x0200_0000u32 != 0)) by (bit_vector);
    assert((a & (0x2u32 | 0x4 | 0x100 | 0x1_0000 | 0x4000_0000 | 0x1000_0000 | 0x0200_0000) != 0)
        <==> (a & 0x2u32 != 0 || a & 0x4u32 != 0 || a & 0x100u32 != 0 || a & 0x1_0000u32 != 0 || a
        & 0x4000_0000u32 != 0 || a & 0x1000_0000u32 != 0 || a & 0x0200_0000u32 != 0)) by (bit_vector);
}

/// How an accepted CREATE opens: for writing exactly if a bit asks to write; for
/// reading if a bit asks to read, whatever stands beside it, and also if no bit
/// asks to write. The open grants writing exactly if it was asked for and the
/// tree grants it.
pub proof fn lemma_open_modes(plan: CreatePlan, req: CreateRequest, granted: Access)
    requires
        plans(plan, req, granted),
    ensures
        ({
            let a = req.desired_access;
            let reads = a & 0x0000_0001 != 0 || a & 0x0000_0080 != 0 || a & 0x8000_0000 != 0 || a
                & 0x1000_0000 != 0 || a & 0x0200_0000 != 0;
            let writes = a & 0x0000_0002 != 0 || a & 0x0000_0004 != 0 || a & 0x0000_0100 != 0 || a
                & 0x0001_0000 != 0 || a & 0x4000_0000 != 0 || a & 0x1000_0000 != 0 || a
                & 0x0200_0000 != 0;
            &&& reads ==> plan.options.read
            &&& !writes ==> plan.options.read
            &&& plan.options.read ==> reads || !writes
            &&& plan.options.write <==> writes
            &&& plan.access == Access::ReadWrite <==> writes && granted == Access::ReadWrite
        }),
{
    lemma_access_bits(req.desired_access);
}

/// The dispositions are 0 to 5: 0 and 5 overwrite or create, 1 opens, 2 creates, 3
/// opens or creates, 4 truncates. No other number is one.
pub proof fn lemma_dispositions(d: u32)
    ensures
        intent_of(d) is None <==> d > 5,
        intent_of(d) == Some(OpenIntent::OverwriteOrCreate) <==> d == 0 || d == 5,
        intent_of(d) == Some(OpenIntent::Open) <==> d == 1,
        intent_of(d) == Some(OpenIntent::Create) <==> d == 2,
        intent_of(d) == Some(OpenIntent::OpenOrCreate) <==> d == 3,
        intent_of(d) == Some(OpenIntent::Truncate) <==> d == 4,
{
}

/// What the options of a CREATE ask for: bit 1 for a directory, bit 40 for
/// anything else, bit 1000 to delete on close.
pub proof fn lemma_option_bits(plan: CreatePlan, req: CreateRequest, granted: Access)
    requires
        plans(plan, req, granted),
    ensures
        plan.options.directory <==> req.create_options as int % 2 == 1,
        plan.options.non_directory <==> (req.create_options as int / 0x40) % 2 == 1,
        plan.options.delete_on_close <==> (req.create_options as int / 0x1000) % 2 == 1,
        wants_directory(req.create_options) <==> plan.options.directory,
        wants_non_directory(req.create_options) <==> plan.options.non_directory,
{
    let o = req.create_options;
    assert((o & 0x1u32 != 0) <==> o % 2 == 1) by (bit_vector);
    assert((o & 0x40u32 != 0) <==> (o / 0x40) % 2 == 1) by (bit_vector);
    assert((o & 0x1000u32 != 0) <==> (o / 0x1000) % 2 == 1) by (bit_vector);
}

/// The text in a request is UTF-16LE: a name that encodes the text `s` denotes the
/// path that `s` stands for, and a name that encodes no text, or has a byte too
/// many, denotes none.
pub proof fn lemma_name_of_text(s: Seq<char>, name: Seq<u8>)
    ensures
        path_of(units_le(utf16(s))) == parse_path(s),
        name.len() as int % 2 == 1 ==> path_of(name) is None,
        (forall|t: Seq<char>| #[trigger] utf16(t) != le_units(name)) ==> path_of(name) is None,
{
    let units = utf16(s);
    let bytes = units_le(units);
    crate::utils::lemma_units_round_trip(units);
    assert(le_units(bytes) == units);
    let t = choose|t: Seq<char>| utf16(t) == le_units(bytes);
    assert(utf16(s) == le_units(bytes));
    crate::utf16::lemma_utf16_injective(s, t);
}

/// Why a CREATE is refused before any backend is called, in full. A request that
/// does not parse is STATUS_INVALID_PARAMETER (C000000D). A tree that does not
/// exist gives its own status. A name that is no path is
/// STATUS_OBJECT_NAME_INVALID (C0000033), a disposition above 5
/// STATUS_INVALID_PARAMETER. On a tree that grants reading alone, asking to write,
/// or any disposition but 1, is STATUS_ACCESS_DENIED (C0000022). Asking for a
/// directory together with bit 40, with a disposition that overwrites or
/// truncates (0, 4 or 5), or of a stream, is STATUS_INVALID_PARAMETER. Nothing else
/// is refused.
pub proof fn lemma_create_refusals(req: CreateRequest, granted: Access, status: u32)
    ensures
        refusal(None, Ok(granted)) == Some(0xC000_000Du32),
        refusal(None, Err(status)) == Some(0xC000_000Du32),
        refusal(Some(req), Err(status)) == Some(status),
        ({
            let path = path_of(req.name@);
            let d = req.create_disposition;
            let directory = req.create_options & 0x1 != 0;
            let r = refusal(Some(req), Ok(granted));
            &&& path is None ==> r == Some(0xC000_0033u32)
            &&& path is Some && d > 5 ==> r == Some(0xC000_000Du32)
            &&& path is Some && d <= 5 && granted == Access::Read && (wants_write(
                req.desired_access,
            ) || d != 1) ==> r == Some(0xC000_0022u32)
            &&& path is Some && d <= 5 && (granted == Access::ReadWrite || (!wants_write(
                req.desired_access,
            ) && d == 1)) ==> r == if directory && (req.create_options & 0x40 != 0 || d == 0 || d
                == 4 || d == 5 || path->0.stream is Some) {
                Some(0xC000_000Du32)
            } else {
                None
            }
        }),
{
    lemma_dispositions(req.create_disposition);
}

/// What is answered to an AAPL context, byte by byte. Only a payload of 24 bytes
/// whose first four are the number 1 is answered. The reply begins with the number
/// 1 in four bytes, four zero bytes, and the two lowest bits of byte 8 of the
/// payload in eight bytes; eight bytes with the number 4 follow where bit 0 was
/// asked for, and eight zero bytes where bit 1 was.
#[verifier::rlimit(50)]
pub proof fn lemma_aapl_layout(data: Seq<u8>)
    ensures
        aapl_reply(data) is Some <==> data.len() == 24 && data[0] == 1 && data[1] == 0 && data[2]
            == 0 && data[3] == 0,
        aapl_reply(data) matches Some(r) ==> {
            let server = data[8] as int % 2 == 1;
            let volume = (data[8] as int / 2) % 2 == 1;
            &&& r[0] == 1 && r[1] == 0 && r[2] == 0 && r[3] == 0
            &&& r[4] == 0 && r[5] == 0 && r[6] == 0 && r[7] == 0
            &&& le64_at(r, 8) == (if server {
                1int
            } else {
                0
            }) + (if volume {
                2int
            } else {
                0
            })
            &&& server ==> r.len() >= 24 && le64_at(r, 16) == 4
            &&& volume && server ==> r.len() == 32 && le64_at(r, 24) == 0
            &&& volume && !server ==> r.len() == 24 && le64_at(r, 16) == 0
            &&& !volume && server ==> r.len() == 24
            &&& !volume && !server ==> r.len() == 16
        },
{
    if aapl_reply(data) is Some {
        let r = aapl_reply(data)->0;
        let x = le64_at(data, 8);
        let low = data[8] as u64;
        assert(x % 0x100 == low);
        assert((x & 1u64 != 0) <==> x % 0x100 % 2 == 1) by (bit_vector);
        assert((x & 2u64 != 0) <==> (x % 0x100 / 2) % 2 == 1) by (bit_vector);
        let bits = answered_bits(x);
        assert(1u64 | 2u64 == 3u64 && 1u64 | 0u64 == 1u64 && 0u64 | 2u64 == 2u64 && 0u64 | 0u64
            == 0u64) by (bit_vector);
        assert(r.subrange(8, 16) =~= le64(bits));
        crate::bytes::lemma_le64_round_trip(r, 8, bits);
        let server = x & 1u64 != 0;
        let volume = x & 2u64 != 0;
        if server {
            assert(r.subrange(16, 24) =~= le64(4));
            crate::bytes::lemma_le64_round_trip(r, 16, 4);
        }
        if volume {
            let at = if server {
                24int
            } else {
                16
            };
            assert(r.subrange(at, at + 8) =~= le64(0));
            crate::bytes::lemma_le64_round_trip(r, at, 0);
        }
    }
}

/// The context that is answered is the first one whose name is the four bytes
/// `41 41 50 4C`.
pub proof fn lemma_first_aapl(contexts: Seq<CreateContext>, i: int)
    requires
        0 <= i < contexts.len(),
        contexts[i].name@ == seq![0x41u8, 0x41, 0x50, 0x4C],
        forall|k: int|
            0 <= k < i ==> (#[trigger] contexts[k]).name@ != seq![0x41u8, 0x41, 0x50, 0x4C],
    ensures
        first_aapl(contexts) == Some(contexts[i].data@),
    decreases i,
{
    if i > 0 {
        assert(contexts[0].name@ != seq![0x41u8, 0x41, 0x50, 0x4C]);
        let rest = contexts.skip(1);
        assert(rest[i - 1] == contexts[i]);
        assert forall|k: int| 0 <= k < i - 1 implies (#[trigger] rest[k]).name@ != seq![
            0x41u8,
            0x41,
            0x50,
            0x4C,
        ] by {
            assert(rest[k] == contexts[k + 1]);
        }
        lemma_first_aapl(rest, i - 1);
    }
}

/// Without a context of that name nothing is answered.
pub proof fn lemma_no_aapl(contexts: Seq<CreateContext>)
    requires
        forall|k: int|
            0 <= k < contexts.len() ==> (#[trigger] contexts[k]).name@ != seq![
                0x41u8,
                0x41,
                0x50,
                0x4C,
            ],
    ensures
        first_aapl(contexts) is None,
    decreases contexts.len(),
{
    if contexts.len() > 0 {
        assert(contexts[0].name@ != seq![0x41u8, 0x41, 0x50, 0x4C]);
        let rest = contexts.skip(1);
        assert forall|k: int| 0 <= k < rest.len() implies (#[trigger] rest[k]).name@ != seq![
            0x41u8,
            0x41,
            0x50,
            0x4C,
        ] by {
            assert(rest[k] == contexts[k + 1]);
        }
        lemma_no_aapl(rest);
    }
}

/// The contexts of a response: one, with the name that was answered and the reply
/// to its payload, exactly where a payload was answered.
pub proof fn lemma_reply_chain(req: CreateRequest)
    ensures
        req.create_contexts is None ==> reply_chain(req).len() == 0,
        req.create_contexts matches Some(contexts) ==> match first_aapl(contexts@) {
            Some(data) => match aapl_reply(data) {
                Some(reply) => reply_chain(req) == context_chain(
                    seq![0x41u8, 0x41, 0x50, 0x4C],
                    reply,
                ),
                None => reply_chain(req).len() == 0,
            },
            None => reply_chain(req).len() == 0,
        },
{
}

/// Where everything stands in the body of a CREATE response: the structure size
/// 89; the action, 2 where a name was asked to be created and 1 otherwise; four
/// times; the two sizes; the attributes; the FileId at 64; the place of the
/// contexts, 152, and their length, both 0 where there are none; the contexts at
/// 88.
#[verifier::rlimit(80)]
pub proof fn lemma_create_layout(
    intent: OpenIntent,
    info: FileInfo,
    file_id: FileId,
    chain: Seq<u8>,
)
    requires
        chain.len() <= u32::MAX,
    ensures
        ({
            let b = create_body(intent, info, file_id, chain);
            &&& b.len() == 88 + chain.len()
            &&& b[0] == 89 && b[1] == 0 && b[2] == 0 && b[3] == 0
            &&& le32_at(b, 4) == if intent == OpenIntent::Create {
                2u32
            } else {
                1
            }
            &&& le64_at(b, 8) == info.creation_time
            &&& le64_at(b, 16) == info.last_access_time
            &&& le64_at(b, 24) == info.last_write_time
            &&& le64_at(b, 32) == info.change_time
            &&& le64_at(b, 40) == info.allocation_size
            &&& le64_at(b, 48) == info.end_of_file
            &&& le32_at(b, 56) == info.attributes
            &&& le32_at(b, 60) == 0
            &&& le64_at(b, 64) == file_id.persistent
            &&& le64_at(b, 72) == file_id.volatile
            &&& le32_at(b, 80) == if chain.len() == 0 {
                0u32
            } else {
                152
            }
            &&& le32_at(b, 84) == chain.len()
            &&& b.skip(88) == chain
        }),
{
    let b = create_body(intent, info, file_id, chain);
    let f = create_front(intent, info);
    let place: u32 = if chain.len() == 0 {
        0
    } else {
        152
    };
    let len = chain.len() as u32;
    let back = file_id_bytes(file_id) + le32(place) + le32(len) + chain;
    assert(b == f + back && f.len() == 64 && back.len() == 24 + chain.len()) by {
        lemma_front_layout(intent, info);
        lemma_back_layout(file_id, place, len, chain);
        assert(b =~= f + back);
    }
    lemma_front_layout(intent, info);
    lemma_back_layout(file_id, place, len, chain);
    lemma_front_numbers(f, back);
    lemma_back_numbers(f, back);
    assert((f + back).skip(88) =~= back.skip(24));
}

proof fn lemma_front_numbers(f: Seq<u8>, back: Seq<u8>)
    requires
        f.len() == 64,
    ensures
        (f + back)[0] == f[0] && (f + back)[1] == f[1] && (f + back)[2] == f[2] && (f + back)[3]
            == f[3],
        le32_at(f + back, 4) == le32_at(f, 4),
        le64_at(f + back, 8) == le64_at(f, 8),
        le64_at(f + back, 16) == le64_at(f, 16),
        le64_at(f + back, 24) == le64_at(f, 24),
        le64_at(f + back, 32) == le64_at(f, 32),
        le64_at(f + back, 40) == le64_at(f, 40),
        le64_at(f + back, 48) == le64_at(f, 48),
        le32_at(f + back, 56) == le32_at(f, 56),
        le32_at(f + back, 60) == le32_at(f, 60),
{
}

proof fn lemma_back_numbers(f: Seq<u8>, back: Seq<u8>)
    requires
        f.len() == 64,
        back.len() >= 24,
    ensures
        le64_at(f + back, 64) == le64_at(back, 0),
        le64_at(f + back, 72) == le64_at(back, 8),
        le32_at(f + back, 80) == le32_at(back, 16),
        le32_at(f + back, 84) == le32_at(back, 20),
{
}

proof fn lemma_back_layout(file_id: FileId, place: u32, len: u32, chain: Seq<u8>)
    ensures
        ({
            let back = file_id_bytes(file_id) + le32(place) + le32(len) + chain;
            &&& back.len() == 24 + chain.len()
            &&& le64_at(back, 0) == file_id.persistent
            &&& le64_at(back, 8) == file_id.volatile
            &&& le32_at(back, 16) == place
            &&& le32_at(back, 20) == len
            &&& back.skip(24) == chain
        }),
{
    let back = file_id_bytes(file_id) + le32(place) + le32(len) + chain;
    assert(back.subrange(0, 8) =~= le64(file_id.persistent));
    assert(back.subrange(8, 16) =~= le64(file_id.volatile));
    crate::bytes::lemma_le64_round_trip(back, 0, file_id.persistent);
    crate::bytes::lemma_le64_round_trip(back, 8, file_id.volatile);
    assert(back.subrange(16, 20) =~= le32(place));
    assert(back.subrange(20, 24) =~= le32(len));
    crate::bytes::lemma_le32_round_trip(back, 16, place);
    crate::bytes::lemma_le32_round_trip(back, 20, len);
    assert(back.skip(24) =~= chain);
}

#[verifier::rlimit(50)]
proof fn lemma_front_layout(intent: OpenIntent, info: FileInfo)
    ensures
        ({
            let f = create_front(intent, info);
            &&& f.len() == 64
            &&& f[0] == 89 && f[1] == 0 && f[2] == 0 && f[3] == 0
            &&& le32_at(f, 4) == action_of(intent)
            &&& le64_at(f, 8) == info.creation_time
            &&& le64_at(f, 16) == info.last_access_time
            &&& le64_at(f, 24) == info.last_write_time
            &&& le64_at(f, 32) == info.change_time
            &&& le64_at(f, 40) == info.allocation_size
            &&& le64_at(f, 48) == info.end_of_file
            &&& le32_at(f, 56) == info.attributes
            &&& le32_at(f, 60) == 0
        }),
{
    let f = create_front(intent, info);
    assert(f.subrange(4, 8) =~= le32(action_of(intent)));
    assert(f.subrange(8, 16) =~= le64(info.creation_time));
    assert(f.subrange(16, 24) =~= le64(info.last_access_time));
    assert(f.subrange(24, 32) =~= le64(info.last_write_time));
    assert(f.subrange(32, 40) =~= le64(info.change_time));
    assert(f.subrange(40, 48) =~= le64(info.allocation_size));
    assert(f.subrange(48, 56) =~= le64(info.end_of_file));
    assert(f.subrange(56, 60) =~= le32(info.attributes));
    assert(f.subrange(60, 64) =~= le32(0));
    crate::bytes::lemma_le32_round_trip(f, 4, action_of(intent));
    crate::bytes::lemma_le64_round_trip(f, 8, info.creation_time);
    crate::bytes::lemma_le64_round_trip(f, 16, info.last_access_time);
    crate::bytes::lemma_le64_round_trip(f, 24, info.last_write_time);
    crate::bytes::lemma_le64_round_trip(f, 32, info.change_time);
    crate::bytes::lemma_le64_round_trip(f, 40, info.allocation_size);
    crate::bytes::lemma_le64_round_trip(f, 48, info.end_of_file);
    crate::bytes::lemma_le32_round_trip(f, 56, info.attributes);
    crate::bytes::lemma_le32_round_trip(f, 60, 0);
}

/// What the event of a CREATE says: the rendered path, the raw options,
/// disposition and access, the two directory bits of the options, the FileId that
/// was given out, if one was, and of each context its name and the length of its
/// payload. It comes exactly where a sink is configured.
pub proof fn lemma_event_of_create(
    event: Option<TraceEvent>,
    armed: bool,
    req: CreateRequest,
    path: PathModel,
    file_id: Option<FileId>,
)
    requires
        traces_if(armed, event, req, path, file_id),
    ensures
        event is Some <==> armed,
        event matches Some(e) ==> e matches TraceEvent::Create {
            path: text,
            create_options,
            directory,
            non_directory,
            create_disposition,
            desired_access,
            file_id: id,
            contexts,
        } && {
            &&& text@ == render(path.components)
            &&& create_options == req.create_options
            &&& create_disposition == req.create_disposition
            &&& desired_access == req.desired_access
            &&& directory <==> req.create_options as int % 2 == 1
            &&& non_directory <==> (req.create_options as int / 0x40) % 2 == 1
            &&& id is Some <==> file_id is Some
            &&& id matches Some(bytes) ==> le64_at(bytes@, 0) == file_id->0.persistent && le64_at(
                bytes@,
                8,
            ) == file_id->0.volatile
            &&& req.create_contexts is None ==> contexts@.len() == 0
            &&& req.create_contexts matches Some(sent) ==> contexts@.len() == sent@.len()
                && forall|i: int|
                0 <= i < sent@.len() ==> (#[trigger] contexts@[i]).name@ == sent@[i].name@
                    && contexts@[i].data_len == sent@[i].data@.len() as u32
        },
{
    let o = req.create_options;
    assert((o & 0x1u32 != 0) <==> o % 2 == 1) by (bit_vector);
    assert((o & 0x40u32 != 0) <==> (o / 0x40) % 2 == 1) by (bit_vector);
    if let Some(id) = file_id {
        crate::messages::lemma_file_id_layout(id);
    }
}

/// A response reports a name as created (2) exactly where it was asked to be
/// created, and as opened (1) otherwise.
pub proof fn lemma_create_action(intent: OpenIntent)
    ensures
        action_of(intent) == 2 <==> intent == OpenIntent::Create,
        action_of(intent) == 1 <==> intent != OpenIntent::Create,
{
}

} // verus!
