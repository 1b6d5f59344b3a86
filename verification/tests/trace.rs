use std::sync::{Arc, Mutex};

use smb_server::trace::{
    current_trace_key, record, SinkHandle, TraceEvent, TraceKey, TraceScope, TraceSink,
};

struct RecordingSink {
    events: Mutex<Vec<(Option<TraceKey>, String)>>,
}

impl TraceSink for RecordingSink {
    fn record(&self, key: Option<TraceKey>, event: &TraceEvent) {
        self.events
            .lock()
            .unwrap()
            .push((key, format!("{event:?}")));
    }
}

#[test]
fn record_is_a_no_op_without_a_sink() {
    let sink: SinkHandle = None;
    // A side-effecting event constructor would prove evaluation
    // happened; there is none here because there is nothing to gate —
    // `record` itself is the single check.
    record(&sink, None, TraceEvent::Response { status: 0 });
}

#[test]
fn record_reaches_a_configured_sink_with_its_key() {
    let recorder = Arc::new(RecordingSink {
        events: Mutex::new(Vec::new()),
    });
    let sink: SinkHandle = Some(recorder.clone());
    let key = TraceKey {
        connection_id: 1,
        message_id: 2,
        compound_ordinal: 0,
    };
    record(
        &sink,
        Some(key),
        TraceEvent::Response {
            status: 0xC000_0022,
        },
    );

    let events = recorder.events.lock().unwrap();
    assert_eq!(events.len(), 1);
    assert_eq!(events[0].0, Some(key));
    assert!(events[0].1.contains(&0xC000_0022u32.to_string()));
}

#[test]
fn current_trace_key_is_none_outside_any_scope() {
    assert_eq!(current_trace_key(None), None);
}

#[test]
fn scoped_binds_the_key_for_the_future_and_only_for_it() {
    let key = TraceKey {
        connection_id: 1,
        message_id: 2,
        compound_ordinal: 0,
    };
    let observed = current_trace_key(Some(TraceScope { key: Some(key) }));
    assert_eq!(observed, Some(key));
    assert_eq!(current_trace_key(None), None);
}

#[test]
fn a_scope_without_a_key_reports_none() {
    assert_eq!(current_trace_key(Some(TraceScope { key: None })), None);
}

#[test]
fn two_connections_reusing_the_same_message_id_get_distinct_keys() {
    let a = TraceKey {
        connection_id: 1,
        message_id: 5,
        compound_ordinal: 0,
    };
    let b = TraceKey {
        connection_id: 2,
        message_id: 5,
        compound_ordinal: 0,
    };
    assert_ne!(a, b);
    let ka = current_trace_key(Some(TraceScope { key: Some(a) }));
    let kb = current_trace_key(Some(TraceScope { key: Some(b) }));
    assert_eq!(ka, Some(a));
    assert_eq!(kb, Some(b));
}

#[test]
fn compound_operations_get_distinct_ordinals() {
    let a = TraceKey {
        connection_id: 1,
        message_id: 9,
        compound_ordinal: 0,
    };
    let b = TraceKey {
        connection_id: 1,
        message_id: 9,
        compound_ordinal: 1,
    };
    assert_ne!(a, b);
    let observed_a = current_trace_key(Some(TraceScope { key: Some(a) }));
    let observed_b = current_trace_key(Some(TraceScope { key: Some(b) }));
    assert_eq!(observed_a, Some(a));
    assert_eq!(observed_b, Some(b));
}
