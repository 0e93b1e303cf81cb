use racy::capture::{CaptureBuffer, InitLatch, ScopedProfiler, SPILL_CONSTANT};
use racy::codec::{deserialize_events, serialize_events, Event};

fn event(id: u64, n: u64) -> Event {
    Event { id, duration: n, timestamp: n as u128, name: format!("scope-{}", n) }
}

#[test]
fn recording_below_the_threshold_buffers() {
    let mut buffer = CaptureBuffer::new();
    for n in 0..SPILL_CONSTANT as u64 {
        assert!(buffer.record_event(event(1, n)).is_none());
    }
}

#[test]
fn exceeding_the_threshold_spills_everything_and_clears() {
    let mut buffer = CaptureBuffer::new();
    let mut recorded = Vec::new();
    for n in 0..SPILL_CONSTANT as u64 {
        recorded.push(event(1, n));
        assert!(buffer.record_event(event(1, n)).is_none());
    }
    recorded.push(event(1, 777));
    let bytes = buffer.record_event(event(1, 777)).expect("the 101st event spills");
    assert_eq!(bytes, serialize_events(&recorded));
    let decoded = deserialize_events(&bytes).unwrap();
    assert_eq!(decoded.len(), SPILL_CONSTANT + 1);
    // the buffer was cleared: the next spill starts counting afresh
    assert!(buffer.record_event(event(1, 778)).is_none());
}

#[test]
fn dump_current_drains_the_buffer() {
    let mut buffer = CaptureBuffer::new();
    buffer.record_event(event(2, 5));
    buffer.record_event(event(2, 6));
    let bytes = buffer.dump_current();
    assert_eq!(deserialize_events(&bytes).unwrap().len(), 2);
    assert!(buffer.dump_current().is_empty());
}

#[test]
fn dump_completion_does_not_drain() {
    let mut buffer = CaptureBuffer::new();
    buffer.record_event(event(3, 5));
    let first = buffer.dump_completion();
    let second = buffer.dump_completion();
    assert_eq!(first, second);
    assert_eq!(deserialize_events(&first).unwrap().len(), 1);
}

#[test]
fn init_gate_registers_exactly_once() {
    let mut gate = InitLatch::new();
    let mut registrations = 0;
    for _ in 0..5 {
        if gate.try_register() {
            registrations += 1;
        }
    }
    assert_eq!(registrations, 1);
}

#[test]
fn close_at_computes_elapsed_time() {
    let profiler = ScopedProfiler::new("work".to_string(), 42);
    let event = profiler.close_at(u128::MAX);
    assert_eq!(event.id, 42);
    assert_eq!(event.name, "work");
    assert_eq!(event.timestamp, u128::MAX);
}

#[test]
fn finish_reports_the_scope() {
    let profiler = ScopedProfiler::new("scope".to_string(), 7);
    let event = profiler.finish();
    assert_eq!(event.id, 7);
    assert_eq!(event.name, "scope");
    assert!(event.timestamp > 0);
}
