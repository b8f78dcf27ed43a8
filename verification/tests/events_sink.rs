//! The event sink: filtering, the bounded ring, and record upserts.

use remote_devtools::events::EventBuffer;
use remote_devtools::events::EventLayer;
use remote_devtools::events::Level;
use remote_devtools::events::StoredEvent;
use remote_devtools::events::StoredRecord;
use remote_devtools::tracing::TracingSubscriber;

fn event(target: &str, time_millis: i64) -> StoredEvent {
    StoredEvent { target: String::from(target), time_millis, record: StoredRecord::new() }
}

#[test]
fn ring_buffer_keeps_the_newest_250() {
    // Insert two events over a 250-entry capacity: the buffer holds the 250
    // most recent, the two oldest are gone.
    let mut buffer = EventBuffer::with_capacity(250);
    for i in 0..252i64 {
        buffer.insert(event(&format!("game::step{}", i), i));
    }
    let snapshot = buffer.snapshot();
    assert_eq!(snapshot.len(), 250);
    // Most recent first.
    assert_eq!(snapshot[0].target, "game::step251");
    assert_eq!(snapshot[0].time_millis, 251);
    assert_eq!(snapshot[249].target, "game::step2");
    // The two oldest were evicted.
    for e in &snapshot {
        assert_ne!(e.target, "game::step0");
        assert_ne!(e.target, "game::step1");
    }
}

#[test]
fn sink_polls_the_newest_250_after_overflow() {
    // The process-wide sink fixes the same 250-entry capacity: two events
    // over it, and a poll returns the 250 most recent, the two oldest gone.
    let mut layer = EventLayer::new();
    for i in 0..252i64 {
        layer.on_event(
            format!("game::step{}", i),
            Level::Info,
            i,
            StoredRecord::new(),
        );
    }
    let polled = layer.poll_recent_events();
    assert_eq!(polled.len(), 250);
    assert_eq!(polled[0].target, "game::step251");
    assert_eq!(polled[249].target, "game::step2");
    for e in &polled {
        assert_ne!(e.target, "game::step0");
        assert_ne!(e.target, "game::step1");
    }
}

#[test]
fn snapshot_is_most_recent_first() {
    let mut buffer = EventBuffer::with_capacity(10);
    buffer.insert(event("game::a", 1));
    buffer.insert(event("game::b", 2));
    buffer.insert(event("game::c", 3));
    let snapshot = buffer.snapshot();
    assert_eq!(snapshot.len(), 3);
    assert_eq!(snapshot[0].target, "game::c");
    assert_eq!(snapshot[1].target, "game::b");
    assert_eq!(snapshot[2].target, "game::a");
}

#[test]
fn denylisted_sources_never_polled() {
    let mut layer = EventLayer::new();
    layer.on_event(String::from("wgpu_core::device"), Level::Info, 1, StoredRecord::new());
    layer.on_event(String::from("warp::filters"), Level::Info, 2, StoredRecord::new());
    layer.on_event(String::from("hyper::proto"), Level::Info, 3, StoredRecord::new());
    layer.on_event(String::from("bevy::draw_state"), Level::Info, 4, StoredRecord::new());
    layer.on_event(String::from("bevy::diagnostic::fps"), Level::Info, 5, StoredRecord::new());
    layer.on_event(String::from("game::physics"), Level::Info, 6, StoredRecord::new());
    let polled = layer.poll_recent_events();
    assert_eq!(polled.len(), 1);
    assert_eq!(polled[0].target, "game::physics");
    assert_eq!(polled[0].time_millis, 6);
}

#[test]
fn most_verbose_severity_is_dropped() {
    let mut layer = EventLayer::new();
    layer.on_event(String::from("game::ai"), Level::Trace, 1, StoredRecord::new());
    layer.on_event(String::from("game::ai"), Level::Debug, 2, StoredRecord::new());
    let polled = layer.poll_recent_events();
    assert_eq!(polled.len(), 1);
    assert_eq!(polled[0].time_millis, 2);
}

#[test]
fn filtering_holds_whatever_the_insertion_order() {
    let mut layer = EventLayer::new();
    layer.on_event(String::from("game::a"), Level::Info, 1, StoredRecord::new());
    layer.on_event(String::from("tokio_warp_bridge"), Level::Info, 2, StoredRecord::new());
    layer.on_event(String::from("game::b"), Level::Warn, 3, StoredRecord::new());
    layer.on_event(String::from("my_wgpu_layer"), Level::Error, 4, StoredRecord::new());
    layer.on_event(String::from("game::c"), Level::Error, 5, StoredRecord::new());
    let polled = layer.poll_recent_events();
    assert_eq!(polled.len(), 3);
    for e in &polled {
        assert!(!e.target.contains("wgpu"));
        assert!(!e.target.contains("warp"));
    }
    assert_eq!(polled[0].target, "game::c");
    assert_eq!(polled[1].target, "game::b");
    assert_eq!(polled[2].target, "game::a");
}

#[test]
fn record_keeps_one_value_per_field() {
    let mut record = StoredRecord::new();
    record.record_str(String::from("message"), String::from("first"));
    record.record_str(String::from("level"), String::from("info"));
    record.record_str(String::from("message"), String::from("second"));
    assert_eq!(record.len(), 2);
    assert_eq!(record.get("message"), Some(&String::from("second")));
    assert_eq!(record.get("level"), Some(&String::from("info")));
    assert_eq!(record.get("missing"), None);
    let copy = record.duplicate();
    assert_eq!(copy.get("message"), Some(&String::from("second")));
}

#[test]
fn subscriber_hands_out_increasing_span_ids() {
    let mut subscriber = TracingSubscriber::new();
    assert!(subscriber.enabled());
    assert_eq!(subscriber.new_span(), 1);
    assert_eq!(subscriber.new_span(), 2);
    assert_eq!(subscriber.new_span(), 3);
}

#[test]
fn subscriber_filters_with_its_own_denylist() {
    let mut subscriber = TracingSubscriber::new();
    subscriber.event(String::from("wgpu_core::a"), Level::Info, 1, StoredRecord::new());
    subscriber.event(String::from("warp::b"), Level::Info, 2, StoredRecord::new());
    subscriber.event(String::from("hyper::c"), Level::Info, 3, StoredRecord::new());
    // The subscriber's denylist is shorter: diagnostics pass it.
    subscriber.event(String::from("bevy::diagnostic"), Level::Info, 4, StoredRecord::new());
    subscriber.event(String::from("game::d"), Level::Trace, 5, StoredRecord::new());
    let pending = subscriber.pending_events();
    assert_eq!(pending.len(), 1);
    assert_eq!(pending[0].target, "bevy::diagnostic");
}
