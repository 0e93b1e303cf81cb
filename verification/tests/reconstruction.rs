use racy::codec::Event;
use racy::event::{Events, EventsBuilder, Thread};

fn event(id: u64, duration: u64, timestamp: u128, name: &str) -> Event {
    Event { id, duration, timestamp, name: name.to_string() }
}

fn build(events: Vec<Event>) -> Events {
    let mut builder = EventsBuilder::new();
    builder.add_vec(events);
    builder.build()
}

#[test]
fn empty_input_reconstructs_to_empty_log() {
    let log = build(Vec::new());
    assert_eq!(log.start_time, 0);
    assert_eq!(log.total_duration, 0);
    assert!(log.threads.is_empty());
    assert!(log.is_empty());
    assert!(log.thread_ids().is_empty());
}

#[test]
fn three_events_one_thread() {
    // thread 7 reports end times 100, 102, 112 with durations 10, 3, 1;
    // normalization is against the minimum reported timestamp, 100
    let log = build(vec![
        event(7, 10, 100, "A"),
        event(7, 3, 102, "B"),
        event(7, 1, 112, "C"),
    ]);
    assert_eq!(log.start_time, 100);
    assert_eq!(log.total_duration, 13);
    let thread = log.threads.get(&7).unwrap();
    assert_eq!(thread.id, 7);
    let spans = &thread.spans;
    assert_eq!(spans.len(), 3);
    // sorted by offset: A at 0, B at 2, C at 12
    assert_eq!(
        (spans[0].name.as_str(), spans[0].timestamp, spans[0].duration, spans[0].depth),
        ("A", 0, 10, 0)
    );
    // B starts while A is still open: one enclosing span
    assert_eq!(
        (spans[1].name.as_str(), spans[1].timestamp, spans[1].duration, spans[1].depth),
        ("B", 2, 3, 1)
    );
    // C starts after both closed: back to depth zero
    assert_eq!(
        (spans[2].name.as_str(), spans[2].timestamp, spans[2].duration, spans[2].depth),
        ("C", 12, 1, 0)
    );
}

#[test]
fn properly_nested_intervals_get_increasing_depths() {
    // normalized intervals [0,100], [10,60], [20,50] on one thread
    let log = build(vec![
        event(3, 100, 1000, "outer"),
        event(3, 50, 1010, "middle"),
        event(3, 30, 1020, "inner"),
    ]);
    let spans = &log.threads.get(&3).unwrap().spans;
    assert_eq!(spans.len(), 3);
    assert_eq!((spans[0].name.as_str(), spans[0].timestamp, spans[0].depth), ("outer", 0, 0));
    assert_eq!((spans[1].name.as_str(), spans[1].timestamp, spans[1].depth), ("middle", 10, 1));
    assert_eq!((spans[2].name.as_str(), spans[2].timestamp, spans[2].depth), ("inner", 20, 2));
}

#[test]
fn sibling_span_returns_to_parent_depth() {
    // [0,100] encloses the disjoint [10,30] and [40,60]: both children sit
    // one level below the parent
    let log = build(vec![
        event(1, 100, 1000, "parent"),
        event(1, 20, 1010, "first"),
        event(1, 20, 1040, "second"),
    ]);
    let spans = &log.threads.get(&1).unwrap().spans;
    assert_eq!(spans.len(), 3);
    assert_eq!((spans[0].name.as_str(), spans[0].depth), ("parent", 0));
    assert_eq!((spans[1].name.as_str(), spans[1].depth), ("first", 1));
    assert_eq!((spans[2].name.as_str(), spans[2].depth), ("second", 1));
}

#[test]
fn sort_order_puts_longer_spans_first_on_start_ties() {
    let log = build(vec![
        event(9, 5, 1005, "short"),
        event(9, 50, 1005, "long"),
        event(9, 5, 1005, "also5b"),
        event(9, 5, 1005, "also5a"),
    ]);
    let spans = &log.threads.get(&9).unwrap().spans;
    // all four start at offset 0; the longer span sorts first, ties fall
    // through to the lexicographically smaller name
    assert_eq!(spans[0].name, "long");
    assert_eq!(spans[1].name, "also5a");
    assert_eq!(spans[2].name, "also5b");
    assert_eq!(spans[3].name, "short");
    assert_eq!(spans[0].depth, 0);
    assert_eq!(spans[1].depth, 1);
    assert_eq!(spans[2].depth, 2);
    assert_eq!(spans[3].depth, 3);
}

#[test]
fn partition_groups_by_thread_id() {
    let log = build(vec![
        event(1, 10, 100, "a"),
        event(2, 10, 105, "b"),
        event(1, 10, 130, "c"),
        event(3, 10, 140, "d"),
    ]);
    let mut ids = log.thread_ids();
    ids.sort();
    assert_eq!(ids, vec![1, 2, 3]);
    assert_eq!(log.threads.get(&1).unwrap().spans.len(), 2);
    assert_eq!(log.threads.get(&2).unwrap().spans.len(), 1);
    assert_eq!(log.threads.get(&3).unwrap().spans.len(), 1);
    assert!(!log.threads.get(&2).unwrap().is_empty());
}

#[test]
fn extent_is_max_end_and_min_timestamp() {
    // ends at offsets 0+40 and 25+10: the extent is 40; the start time is
    // the minimum reported timestamp
    let log = build(vec![event(4, 40, 500, "w"), event(5, 10, 525, "v")]);
    assert_eq!(log.start_time, 500);
    assert_eq!(log.total_duration, 40);
}

#[test]
fn clear_drops_threads_and_keeps_extent() {
    let mut log = build(vec![event(4, 40, 500, "w")]);
    assert!(!log.is_empty());
    log.clear();
    assert!(log.is_empty());
    assert_eq!(log.start_time, 500);
    assert_eq!(log.total_duration, 40);
}

#[test]
fn arrival_order_does_not_matter() {
    let forward = build(vec![
        event(6, 100, 1100, "outer"),
        event(6, 50, 1060, "middle"),
    ]);
    let backward = build(vec![
        event(6, 50, 1060, "middle"),
        event(6, 100, 1100, "outer"),
    ]);
    let f = &forward.threads.get(&6).unwrap().spans;
    let b = &backward.threads.get(&6).unwrap().spans;
    assert_eq!(f, b);
    assert_eq!(forward.start_time, backward.start_time);
    assert_eq!(forward.total_duration, backward.total_duration);
}

#[test]
fn thread_new_is_empty() {
    let t = Thread::new(11);
    assert_eq!(t.id, 11);
    assert!(t.is_empty());
}
