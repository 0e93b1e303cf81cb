use racy::codec::{deserialize_events, serialize_events, DecodeError, Event};

fn event(id: u64, duration: u64, timestamp: u128, name: &str) -> Event {
    Event { id, duration, timestamp, name: name.to_string() }
}

#[test]
fn round_trip_plain_names() {
    let events = vec![
        event(1, 10, 1000, "alpha"),
        event(2, 20, 2000, "beta"),
        event(1, 30, 3000, "gamma"),
    ];
    let bytes = serialize_events(&events);
    let decoded = deserialize_events(&bytes).unwrap();
    assert_eq!(decoded.len(), events.len());
    for (d, e) in decoded.iter().zip(events.iter()) {
        assert_eq!(d.id, e.id);
        assert_eq!(d.duration, e.duration);
        assert_eq!(d.timestamp, e.timestamp);
        assert_eq!(d.name, e.name);
    }
}

#[test]
fn round_trip_zero_length_and_multibyte_names() {
    let events = vec![
        event(7, 0, 0, ""),
        event(8, 1, u128::MAX, "спійманий-Ꙭ-🔥"),
        event(9, u64::MAX, 42, "naïve—測定"),
    ];
    let bytes = serialize_events(&events);
    let decoded = deserialize_events(&bytes).unwrap();
    assert_eq!(decoded.len(), 3);
    for (d, e) in decoded.iter().zip(events.iter()) {
        assert_eq!(d.id, e.id);
        assert_eq!(d.duration, e.duration);
        assert_eq!(d.timestamp, e.timestamp);
        assert_eq!(d.name, e.name);
    }
}

#[test]
fn empty_input_decodes_to_empty_sequence() {
    let decoded = deserialize_events(&[]).unwrap();
    assert!(decoded.is_empty());
}

#[test]
fn truncated_input_is_rejected() {
    let events = vec![event(1, 10, 100, "name"), event(2, 20, 200, "")];
    let bytes = serialize_events(&events);
    let truncated = &bytes[..bytes.len() - 1];
    assert_eq!(deserialize_events(truncated), Err(DecodeError::Truncated));
}

#[test]
fn truncated_single_empty_name_record_is_rejected() {
    let events = vec![event(1, 10, 100, "")];
    let bytes = serialize_events(&events);
    assert_eq!(bytes.len(), 36);
    assert_eq!(
        deserialize_events(&bytes[..35]),
        Err(DecodeError::Truncated)
    );
}

#[test]
fn short_name_payload_is_rejected() {
    let events = vec![event(1, 10, 100, "abcdef")];
    let mut bytes = serialize_events(&events);
    bytes.pop();
    bytes.pop();
    assert_eq!(deserialize_events(&bytes), Err(DecodeError::Truncated));
}

#[test]
fn invalid_utf8_name_is_rejected() {
    // a record whose two name bytes are not valid UTF-8
    let mut bytes = Vec::new();
    bytes.extend_from_slice(&1u64.to_be_bytes());
    bytes.extend_from_slice(&2u128.to_be_bytes());
    bytes.extend_from_slice(&3u64.to_be_bytes());
    bytes.extend_from_slice(&2u32.to_be_bytes());
    bytes.extend_from_slice(&[0xff, 0xfe]);
    assert_eq!(deserialize_events(&bytes), Err(DecodeError::InvalidName));
}

#[test]
fn record_layout_is_exact() {
    let events = vec![event(0x0102030405060708, 0x1112131415161718, 0x21222324252627282930313233343536, "AB")];
    let bytes = serialize_events(&events);
    let mut expected = Vec::new();
    expected.extend_from_slice(&[0x01, 0x02, 0x03, 0x04, 0x05, 0x06, 0x07, 0x08]);
    expected.extend_from_slice(&[
        0x21, 0x22, 0x23, 0x24, 0x25, 0x26, 0x27, 0x28, 0x29, 0x30, 0x31, 0x32, 0x33, 0x34, 0x35,
        0x36,
    ]);
    expected.extend_from_slice(&[0x11, 0x12, 0x13, 0x14, 0x15, 0x16, 0x17, 0x18]);
    expected.extend_from_slice(&[0x00, 0x00, 0x00, 0x02]);
    expected.extend_from_slice(b"AB");
    assert_eq!(bytes, expected);
}

#[test]
fn records_concatenate_without_framing() {
    let first = serialize_events(&[event(1, 1, 1, "x")]);
    let second = serialize_events(&[event(2, 2, 2, "y")]);
    let mut joined = first.clone();
    joined.extend_from_slice(&second);
    let decoded = deserialize_events(&joined).unwrap();
    assert_eq!(decoded.len(), 2);
    assert_eq!(decoded[0].name, "x");
    assert_eq!(decoded[1].name, "y");
}
