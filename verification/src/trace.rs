//! Optional, caller-supplied request trace. No logging framework, no stdout:
//! this crate never decides *where* diagnostics go — it hands correlated events
//! to whatever `Arc<dyn TraceSink>` the caller wired in. Absent (the default,
//! `None`), every recording site is a null check and nothing is allocated or
//! formatted.
//!
//! **MUST NOT carry request/response bodies or file content.** Every event
//! variant below is restricted to lengths, offsets, names and statuses.

use vstd::prelude::*;

use std::sync::Arc;

verus! {

/// Collision-free correlation key for one operation within one request.
///
/// `message_id` is connection-scoped (MS-SMB2), and a single compound
/// request carries several operations under one `message_id` — so neither
/// `message_id` alone, nor `(connection_id, message_id)`, is unique.
/// `compound_ordinal` is the operation's index within its compound chain (0
/// when the request is not compounded).
#[derive(Debug, Clone, Copy, PartialEq, Eq, Hash, Structural)]
pub struct TraceKey {
    pub connection_id: u64,
    pub message_id: u64,
    pub compound_ordinal: u32,
}

/// One entry of a CREATE request's context chain — its tag and payload
/// length only, never its bytes. A present/ignored boolean cannot
/// distinguish an EA context from an AAPL one; the tag can.
#[derive(Debug, Clone)]
pub struct CreateContextInfo {
    pub name: Vec<u8>,
    pub data_len: u32,
}

/// One traced event, tagged with its `TraceKey` (`None` outside any request
/// scope — a unit test driving the backend directly).
#[derive(Debug, Clone)]
pub enum TraceEvent {
    /// A request entering dispatch.
    Request { cmd: &'static str, session_id: u64, tree_id: u32 },
    /// The response NTSTATUS leaving dispatch.
    Response { status: u32 },
    /// A CREATE. `create_options` is the raw CreateOptions value, not just the
    /// decoded `directory`/`non_directory` booleans; `file_id` is `None` where
    /// nothing was opened.
    Create {
        path: String,
        create_options: u32,
        directory: bool,
        non_directory: bool,
        create_disposition: u32,
        desired_access: u32,
        file_id: Option<[u8; 16]>,
        contexts: Vec<CreateContextInfo>,
    },
    /// SET_INFO with `FILE_RENAME_INFORMATION`: the `ReplaceIfExists` byte,
    /// the requested new name, and the path the handler resolved as the
    /// rename source — together these settle whether a rename meant for
    /// an AppleDouble sidecar landed on the real file instead.
    SetInfoRename { replace_if_exists: bool, new_name: String, resolved_source: String },
    /// SET_INFO with any other information class.
    SetInfoOther { info_class: u8 },
    /// A WRITE.
    Write { file_id: [u8; 16], offset: u64, length: u32 },
    /// A CLOSE.
    Close { file_id: [u8; 16], delete_on_close: bool, last_path: String },
    /// A backend-layer event. Backend internals are not known here; `text` is
    /// whatever the caller's own backend trace chose to format — still subject
    /// to the "no file content" rule above.
    Backend { text: String },
}

/// Caller-supplied sink for every recorded event. Implementors decide where
/// events go; this crate only decides *when* to call `record` and *never*
/// formats or writes on its own.
pub trait TraceSink: Send + Sync {
    /// Holds of the key and the event of every `record` call on this sink; it
    /// says nothing of what the sink does with them.
    open spec fn handed(&self, key: Option<TraceKey>, event: TraceEvent) -> bool {
        true
    }

    fn record(&self, key: Option<TraceKey>, event: &TraceEvent)
        ensures
            self.handed(key, *event),
    ;
}

/// What a task that runs inside a request scope is bound to. A scope without a
/// key reports no key, exactly as if no scope had ever been entered.
#[derive(Debug, Clone, Copy, PartialEq, Eq, Structural)]
pub struct TraceScope {
    pub key: Option<TraceKey>,
}

/// The current request's trace key, or `None` outside any request scope
/// (e.g. a unit test driving a backend directly, with no dispatcher
/// wrapper). `bound` is the innermost scope that the task runs in.
pub fn current_trace_key(bound: Option<TraceScope>) -> (key: Option<TraceKey>)
    ensures
        key == match bound {
            Some(scope) => scope.key,
            None => None,
        },
{
    match bound {
        Some(scope) => scope.key,
        None => None,
    }
}

/// `None` when no sink was configured — every recording site becomes a
/// single `is_none()` check.
pub type SinkHandle = Option<Arc<dyn TraceSink>>;

/// Records `event` under `key` on `sink`, if a sink is configured. Callers
/// MUST use this rather than calling `TraceSink::record` directly so the
/// "is a sink configured at all" check has exactly one call site.
pub fn record(sink: &SinkHandle, key: Option<TraceKey>, event: TraceEvent)
    ensures
        sink matches Some(s) ==> s.handed(key, event),
{
    if let Some(sink) = sink {
        sink.record(key, &event);
    }
}

} // verus!
