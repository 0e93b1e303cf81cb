//! The binary event-log codec.
//!
//! A log is a plain concatenation of records, one per event:
//!
//! ```text
//! record := id (8B BE) ++ timestamp (16B BE) ++ duration (8B BE)
//!           ++ name_len (4B BE) ++ name (name_len bytes, UTF-8)
//! ```
//!
//! There is no header, count or footer, so independent writers can append
//! disjoint chunks safely as long as each append is one contiguous write.

use vstd::prelude::*;

verus! {

use vstd::utf8::{encode_utf8, decode_utf8, valid_utf8};
use vstd::slice::slice_subrange;

/// Number of bytes in a record before the name payload:
/// id (8) + timestamp (16) + duration (8) + name length (4).
pub const RECORD_HEAD_BYTES: usize = 36;

/// One completed scope, as reported by the capture layer: `timestamp` is the
/// absolute end time of the scope in epoch nanoseconds, `duration` its length
/// in nanoseconds, `id` the reporting thread.
#[derive(Debug, PartialEq, Eq)]
pub struct Event {
    pub id: u64,
    pub duration: u64,
    pub timestamp: u128,
    pub name: String,
}

/// The mathematical content of an [`Event`].
#[verifier::ext_equal]
pub struct EventModel {
    pub id: u64,
    pub duration: u64,
    pub timestamp: u128,
    pub name: Seq<char>,
}

impl View for Event {
    type V = EventModel;

    open spec fn view(&self) -> EventModel {
        EventModel {
            id: self.id,
            duration: self.duration,
            timestamp: self.timestamp,
            name: self.name@,
        }
    }
}

/// The big-endian bytes of a `u32`, most significant first.
pub open spec fn spec_u32_be(x: u32) -> Seq<u8> {
    seq![(x >> 24) as u8, (x >> 16) as u8, (x >> 8) as u8, x as u8]
}

/// The big-endian bytes of a `u64`, most significant first.
pub open spec fn spec_u64_be(x: u64) -> Seq<u8> {
    seq![
        (x >> 56) as u8,
        (x >> 48) as u8,
        (x >> 40) as u8,
        (x >> 32) as u8,
        (x >> 24) as u8,
        (x >> 16) as u8,
        (x >> 8) as u8,
        x as u8,
    ]
}

/// The big-endian bytes of a `u128`, most significant first.
pub open spec fn spec_u128_be(x: u128) -> Seq<u8> {
    seq![
        (x >> 120) as u8,
        (x >> 112) as u8,
        (x >> 104) as u8,
        (x >> 96) as u8,
        (x >> 88) as u8,
        (x >> 80) as u8,
        (x >> 72) as u8,
        (x >> 64) as u8,
        (x >> 56) as u8,
        (x >> 48) as u8,
        (x >> 40) as u8,
        (x >> 32) as u8,
        (x >> 24) as u8,
        (x >> 16) as u8,
        (x >> 8) as u8,
        x as u8,
    ]
}

/// The `u32` read from four big-endian bytes.
pub open spec fn spec_u32_from_be(s: Seq<u8>) -> u32
    recommends
        s.len() == 4,
{
    ((s[0] as u32) << 24) | ((s[1] as u32) << 16) | ((s[2] as u32) << 8) | (s[3] as u32)
}

/// The `u64` read from eight big-endian bytes.
pub open spec fn spec_u64_from_be(s: Seq<u8>) -> u64
    recommends
        s.len() == 8,
{
    ((s[0] as u64) << 56) | ((s[1] as u64) << 48) | ((s[2] as u64) << 40) | ((s[3] as u64) << 32)
        | ((s[4] as u64) << 24) | ((s[5] as u64) << 16) | ((s[6] as u64) << 8) | (s[7] as u64)
}

/// The `u128` read from sixteen big-endian bytes.
pub open spec fn spec_u128_from_be(s: Seq<u8>) -> u128
    recommends
        s.len() == 16,
{
    ((s[0] as u128) << 120) | ((s[1] as u128) << 112) | ((s[2] as u128) << 104) | ((
    s[3] as u128) << 96) | ((s[4] as u128) << 88) | ((s[5] as u128) << 80) | ((
    s[6] as u128) << 72) | ((s[7] as u128) << 64) | ((s[8] as u128) << 56) | ((
    s[9] as u128) << 48) | ((s[10] as u128) << 40) | ((s[11] as u128) << 32) | ((
    s[12] as u128) << 24) | ((s[13] as u128) << 16) | ((s[14] as u128) << 8) | (s[15] as u128)
}

/// Reading back the big-endian bytes of a `u32` yields the value again.
pub proof fn lemma_u32_be_roundtrip(x: u32)
    ensures
        spec_u32_from_be(spec_u32_be(x)) == x,
{
    assert((((x >> 24) as u8 as u32) << 24) | (((x >> 16) as u8 as u32) << 16) | (((x
        >> 8) as u8 as u32) << 8) | (x as u8 as u32) == x) by (bit_vector);
}

/// Reading back the big-endian bytes of a `u64` yields the value again.
pub proof fn lemma_u64_be_roundtrip(x: u64)
    ensures
        spec_u64_from_be(spec_u64_be(x)) == x,
{
    assert((((x >> 56) as u8 as u64) << 56) | (((x >> 48) as u8 as u64) << 48) | (((x
        >> 40) as u8 as u64) << 40) | (((x >> 32) as u8 as u64) << 32) | (((x
        >> 24) as u8 as u64) << 24) | (((x >> 16) as u8 as u64) << 16) | (((x
        >> 8) as u8 as u64) << 8) | (x as u8 as u64) == x) by (bit_vector);
}

/// Reading back the big-endian bytes of a `u128` yields the value again.
pub proof fn lemma_u128_be_roundtrip(x: u128)
    ensures
        spec_u128_from_be(spec_u128_be(x)) == x,
{
    assert((((x >> 120) as u8 as u128) << 120) | (((x >> 112) as u8 as u128) << 112) | (((x
        >> 104) as u8 as u128) << 104) | (((x >> 96) as u8 as u128) << 96) | (((x
        >> 88) as u8 as u128) << 88) | (((x >> 80) as u8 as u128) << 80) | (((x
        >> 72) as u8 as u128) << 72) | (((x >> 64) as u8 as u128) << 64) | (((x
        >> 56) as u8 as u128) << 56) | (((x >> 48) as u8 as u128) << 48) | (((x
        >> 40) as u8 as u128) << 40) | (((x >> 32) as u8 as u128) << 32) | (((x
        >> 24) as u8 as u128) << 24) | (((x >> 16) as u8 as u128) << 16) | (((x
        >> 8) as u8 as u128) << 8) | (x as u8 as u128) == x) by (bit_vector);
}

/// The models of a sequence of events.
pub open spec fn event_models(events: Seq<Event>) -> Seq<EventModel> {
    events.map_values(|e: Event| e@)
}

/// An event can be encoded faithfully: its name's UTF-8 form fits the
/// four-byte length field.
pub open spec fn event_wf(e: EventModel) -> bool {
    encode_utf8(e.name).len() <= u32::MAX
}

/// The wire bytes of a single record.
pub open spec fn spec_record_bytes(e: EventModel) -> Seq<u8> {
    spec_u64_be(e.id) + spec_u128_be(e.timestamp) + spec_u64_be(e.duration) + spec_u32_be(
        encode_utf8(e.name).len() as u32,
    ) + encode_utf8(e.name)
}

/// The wire bytes of a sequence of records: a plain concatenation.
pub open spec fn spec_encode(events: Seq<EventModel>) -> Seq<u8>
    decreases events.len(),
{
    if events.len() == 0 {
        Seq::empty()
    } else {
        spec_record_bytes(events.first()) + spec_encode(events.drop_first())
    }
}

/// Why a byte string failed to decode.
#[derive(Debug, Clone, Copy, PartialEq, Eq, Structural)]
pub enum DecodeError {
    /// The input ended before a field (or the name payload) was complete.
    Truncated,
    /// A name payload was not valid UTF-8.
    InvalidName,
}

/// The meaning of a byte string under strict sequential parsing: records are
/// read from offset zero until the input is exhausted, and any shortfall or
/// invalid name fails the whole input.
pub open spec fn spec_decode(data: Seq<u8>) -> Result<Seq<EventModel>, DecodeError>
    decreases data.len(),
{
    if data.len() == 0 {
        Ok(Seq::empty())
    } else if data.len() < RECORD_HEAD_BYTES {
        Err(DecodeError::Truncated)
    } else {
        let name_len = spec_u32_from_be(data.subrange(32, 36)) as int;
        if data.len() < RECORD_HEAD_BYTES + name_len {
            Err(DecodeError::Truncated)
        } else {
            let name_bytes = data.subrange(36, 36 + name_len);
            if !valid_utf8(name_bytes) {
                Err(DecodeError::InvalidName)
            } else {
                match spec_decode(data.skip(36 + name_len)) {
                    Ok(rest) => Ok(
                        seq![
                            EventModel {
                                id: spec_u64_from_be(data.subrange(0, 8)),
                                timestamp: spec_u128_from_be(data.subrange(8, 24)),
                                duration: spec_u64_from_be(data.subrange(24, 32)),
                                name: decode_utf8(name_bytes),
                            },
                        ] + rest,
                    ),
                    Err(e) => Err(e),
                }
            }
        }
    }
}

/// Appending one event extends the encoding by that event's record.
pub proof fn lemma_spec_encode_push(events: Seq<EventModel>, e: EventModel)
    ensures
        spec_encode(events.push(e)) == spec_encode(events) + spec_record_bytes(e),
    decreases events.len(),
{
    if events.len() == 0 {
        assert(events.push(e).first() == e);
        assert(events.push(e).drop_first() =~= Seq::<EventModel>::empty());
        assert(spec_encode(Seq::<EventModel>::empty()) == Seq::<u8>::empty());
        assert(spec_encode(events.push(e)) =~= spec_record_bytes(e));
        assert(spec_encode(events) + spec_record_bytes(e) =~= spec_record_bytes(e));
    } else {
        assert(events.push(e).drop_first() =~= events.drop_first().push(e));
        lemma_spec_encode_push(events.drop_first(), e);
        assert(spec_encode(events.push(e)) =~= spec_encode(events) + spec_record_bytes(e));
    }
}

fn push_u32_be(out: &mut Vec<u8>, x: u32)
    ensures
        final(out)@ == old(out)@ + spec_u32_be(x),
{
    out.push((x >> 24) as u8);
    out.push((x >> 16) as u8);
    out.push((x >> 8) as u8);
    out.push(x as u8);
    assert(out@ =~= old(out)@ + spec_u32_be(x));
}

fn push_u64_be(out: &mut Vec<u8>, x: u64)
    ensures
        final(out)@ == old(out)@ + spec_u64_be(x),
{
    out.push((x >> 56) as u8);
    out.push((x >> 48) as u8);
    out.push((x >> 40) as u8);
    out.push((x >> 32) as u8);
    out.push((x >> 24) as u8);
    out.push((x >> 16) as u8);
    out.push((x >> 8) as u8);
    out.push(x as u8);
    assert(out@ =~= old(out)@ + spec_u64_be(x));
}

fn push_u128_be(out: &mut Vec<u8>, x: u128)
    ensures
        final(out)@ == old(out)@ + spec_u128_be(x),
{
    out.push((x >> 120) as u8);
    out.push((x >> 112) as u8);
    out.push((x >> 104) as u8);
    out.push((x >> 96) as u8);
    out.push((x >> 88) as u8);
    out.push((x >> 80) as u8);
    out.push((x >> 72) as u8);
    out.push((x >> 64) as u8);
    out.push((x >> 56) as u8);
    out.push((x >> 48) as u8);
    out.push((x >> 40) as u8);
    out.push((x >> 32) as u8);
    out.push((x >> 24) as u8);
    out.push((x >> 16) as u8);
    out.push((x >> 8) as u8);
    out.push(x as u8);
    assert(out@ =~= old(out)@ + spec_u128_be(x));
}

/// Whether an event's name fits the record format's four-byte length field.
pub fn event_fits(e: &Event) -> (r: bool)
    ensures
        r == event_wf(e@),
{
    let bytes: &[u8] = e.name.as_str().as_bytes();
    bytes.len() <= u32::MAX as usize
}

/// Encode a sequence of events into the wire format, record by record, in
/// the exact field order and widths of the format.
pub fn serialize_events(events: &[Event]) -> (out: Vec<u8>)
    requires
        forall|i: int| 0 <= i < events@.len() ==> event_wf(#[trigger] events@[i]@),
    ensures
        out@ == spec_encode(event_models(events@)),
{
    let mut out: Vec<u8> = Vec::new();
    let ghost models = event_models(events@);
    assert(spec_encode(models.take(0)) =~= Seq::empty());
    let mut i: usize = 0;
    while i < events.len()
        invariant
            0 <= i <= events@.len(),
            models == event_models(events@),
            models.len() == events@.len(),
            forall|j: int| 0 <= j < events@.len() ==> event_wf(#[trigger] events@[j]@),
            out@ == spec_encode(models.take(i as int)),
        decreases events@.len() - i,
    {
        let e = &events[i];
        assert(models[i as int] == e@);
        push_u64_be(&mut out, e.id);
        push_u128_be(&mut out, e.timestamp);
        push_u64_be(&mut out, e.duration);
        let name_bytes: &[u8] = e.name.as_str().as_bytes();
        push_u32_be(&mut out, name_bytes.len() as u32);
        out.extend_from_slice(name_bytes);
        proof {
            lemma_spec_encode_push(models.take(i as int), models[i as int]);
            assert(models.take(i as int).push(models[i as int]) =~= models.take(i + 1));
            assert(out@ =~= spec_encode(models.take(i as int)) + spec_record_bytes(
                models[i as int],
            ));
        }
        i = i + 1;
    }
    assert(models.take(models.len() as int) =~= models);
    out
}

/// Relies on `core::str::from_utf8`: it succeeds exactly on valid UTF-8
/// input, and the resulting string holds the characters those bytes encode.
#[verifier::external_body]
fn utf8_to_string(bytes: &[u8]) -> (r: Option<String>)
    ensures
        r is Some <==> valid_utf8(bytes@),
        r matches Some(s) ==> s@ == decode_utf8(bytes@),
{
    match core::str::from_utf8(bytes) {
        Ok(s) => Some(s.to_owned()),
        Err(_) => None,
    }
}

fn read_u32_be(data: &[u8], pos: usize) -> (r: u32)
    requires
        pos + 4 <= data@.len(),
    ensures
        r == spec_u32_from_be(data@.subrange(pos as int, pos + 4)),
{
    let r = ((data[pos] as u32) << 24) | ((data[pos + 1] as u32) << 16) | ((data[pos
        + 2] as u32) << 8) | (data[pos + 3] as u32);
    proof {
        let s = data@.subrange(pos as int, pos + 4);
        assert(s[0] == data@[pos as int] && s[1] == data@[pos + 1] && s[2] == data@[pos + 2] && s[3]
            == data@[pos + 3]);
    }
    r
}

fn read_u64_be(data: &[u8], pos: usize) -> (r: u64)
    requires
        pos + 8 <= data@.len(),
    ensures
        r == spec_u64_from_be(data@.subrange(pos as int, pos + 8)),
{
    let r = ((data[pos] as u64) << 56) | ((data[pos + 1] as u64) << 48) | ((data[pos
        + 2] as u64) << 40) | ((data[pos + 3] as u64) << 32) | ((data[pos + 4] as u64) << 24) | ((
    data[pos + 5] as u64) << 16) | ((data[pos + 6] as u64) << 8) | (data[pos + 7] as u64);
    proof {
        let s = data@.subrange(pos as int, pos + 8);
        assert(s[0] == data@[pos as int] && s[1] == data@[pos + 1] && s[2] == data@[pos + 2] && s[3]
            == data@[pos + 3] && s[4] == data@[pos + 4] && s[5] == data@[pos + 5] && s[6]
            == data@[pos + 6] && s[7] == data@[pos + 7]);
    }
    r
}

fn read_u128_be(data: &[u8], pos: usize) -> (r: u128)
    requires
        pos + 16 <= data@.len(),
    ensures
        r == spec_u128_from_be(data@.subrange(pos as int, pos + 16)),
{
    let r = ((data[pos] as u128) << 120) | ((data[pos + 1] as u128) << 112) | ((data[pos
        + 2] as u128) << 104) | ((data[pos + 3] as u128) << 96) | ((data[pos + 4] as u128) << 88)
        | ((data[pos + 5] as u128) << 80) | ((data[pos + 6] as u128) << 72) | ((data[pos
        + 7] as u128) << 64) | ((data[pos + 8] as u128) << 56) | ((data[pos + 9] as u128) << 48) | (
    (data[pos + 10] as u128) << 40) | ((data[pos + 11] as u128) << 32) | ((data[pos
        + 12] as u128) << 24) | ((data[pos + 13] as u128) << 16) | ((data[pos + 14] as u128) << 8)
        | (data[pos + 15] as u128);
    proof {
        let s = data@.subrange(pos as int, pos + 16);
        assert(s[0] == data@[pos as int] && s[1] == data@[pos + 1] && s[2] == data@[pos + 2] && s[3]
            == data@[pos + 3] && s[4] == data@[pos + 4] && s[5] == data@[pos + 5] && s[6]
            == data@[pos + 6] && s[7] == data@[pos + 7] && s[8] == data@[pos + 8] && s[9]
            == data@[pos + 9] && s[10] == data@[pos + 10] && s[11] == data@[pos + 11] && s[12]
            == data@[pos + 12] && s[13] == data@[pos + 13] && s[14] == data@[pos + 14] && s[15]
            == data@[pos + 15]);
    }
    r
}

/// How a decoded prefix and the meaning of the remaining bytes combine to
/// the meaning of the whole input.
pub open spec fn spec_decode_with_prefix(
    prefix: Seq<EventModel>,
    rest: Result<Seq<EventModel>, DecodeError>,
) -> Result<Seq<EventModel>, DecodeError> {
    match rest {
        Ok(tail) => Ok(prefix + tail),
        Err(e) => Err(e),
    }
}

/// Decode a byte string into the event sequence it encodes. Records are read
/// strictly in sequence from offset zero; a zero-length input yields the
/// empty sequence; any short field, short name payload, or non-UTF-8 name
/// fails the whole input with no partial result.
pub fn deserialize_events(data: &[u8]) -> (r: Result<Vec<Event>, DecodeError>)
    ensures
        match r {
            Ok(events) => spec_decode(data@) == Ok::<_, DecodeError>(event_models(events@)),
            Err(e) => spec_decode(data@) == Err::<Seq<EventModel>, _>(e),
        },
{
    let mut events: Vec<Event> = Vec::new();
    let mut pos: usize = 0;
    proof {
        assert(data@.skip(0) =~= data@);
        assert(event_models(events@) =~= Seq::<EventModel>::empty());
        assert(spec_decode_with_prefix(event_models(events@), spec_decode(data@.skip(0)))
            =~~= spec_decode(data@));
    }
    while pos < data.len()
        invariant
            0 <= pos <= data@.len(),
            spec_decode_with_prefix(event_models(events@), spec_decode(data@.skip(pos as int)))
                == spec_decode(data@),
        decreases data@.len() - pos,
    {
        let ghost remaining_bytes = data@.skip(pos as int);
        let remaining = data.len() - pos;
        if remaining < RECORD_HEAD_BYTES {
            assert(spec_decode(remaining_bytes) == Err::<Seq<EventModel>, _>(
                DecodeError::Truncated,
            ));
            return Err(DecodeError::Truncated);
        }
        let id = read_u64_be(data, pos);
        let timestamp = read_u128_be(data, pos + 8);
        let duration = read_u64_be(data, pos + 24);
        let name_len = read_u32_be(data, pos + 32) as usize;
        proof {
            assert(remaining_bytes.subrange(0, 8) =~= data@.subrange(pos as int, pos + 8));
            assert(remaining_bytes.subrange(8, 24) =~= data@.subrange(pos + 8, pos + 24));
            assert(remaining_bytes.subrange(24, 32) =~= data@.subrange(pos + 24, pos + 32));
            assert(remaining_bytes.subrange(32, 36) =~= data@.subrange(pos + 32, pos + 36));
        }
        if remaining - RECORD_HEAD_BYTES < name_len {
            assert(spec_decode(remaining_bytes) == Err::<Seq<EventModel>, _>(
                DecodeError::Truncated,
            ));
            return Err(DecodeError::Truncated);
        }
        let name_slice = slice_subrange(data, pos + 36, pos + 36 + name_len);
        assert(name_slice@ =~= remaining_bytes.subrange(36, 36 + name_len));
        match utf8_to_string(name_slice) {
            None => {
                assert(spec_decode(remaining_bytes) == Err::<Seq<EventModel>, _>(
                    DecodeError::InvalidName,
                ));
                return Err(DecodeError::InvalidName);
            },
            Some(name) => {
                let ghost model = EventModel {
                    id,
                    timestamp,
                    duration,
                    name: decode_utf8(name_slice@),
                };
                let event = Event { id, duration, timestamp, name };
                assert(event@ =~~= model);
                let ghost old_models = event_models(events@);
                events.push(event);
                let next = pos + RECORD_HEAD_BYTES + name_len;
                proof {
                    assert(event_models(events@) =~= old_models.push(model));
                    assert(data@.skip(next as int) =~= remaining_bytes.skip(36 + name_len));
                    match spec_decode(remaining_bytes.skip(36 + name_len)) {
                        Ok(tail) => {
                            assert(spec_decode(remaining_bytes) == Ok::<_, DecodeError>(
                                seq![model] + tail,
                            ));
                            assert(old_models + (seq![model] + tail) =~= old_models.push(model)
                                + tail);
                        },
                        Err(e) => {
                            assert(spec_decode(remaining_bytes) == Err::<Seq<EventModel>, _>(e));
                        },
                    }
                }
                pos = next;
            },
        }
    }
    proof {
        assert(data@.skip(pos as int) =~= Seq::<u8>::empty());
        assert(spec_decode(data@.skip(pos as int)) == Ok::<_, DecodeError>(
            Seq::<EventModel>::empty(),
        ));
        assert(event_models(events@) + Seq::<EventModel>::empty() =~= event_models(events@));
    }
    Ok(events)
}

/// Round trip: decoding an encoded event sequence yields the sequence again,
/// field for field, for every finite sequence of encodable events —
/// zero-length and multi-byte UTF-8 names included.
#[verifier::rlimit(60)]
pub proof fn lemma_decode_encode(events: Seq<EventModel>)
    requires
        forall|i: int| 0 <= i < events.len() ==> event_wf(#[trigger] events[i]),
    ensures
        spec_decode(spec_encode(events)) == Ok::<Seq<EventModel>, DecodeError>(events),
    decreases events.len(),
{
    broadcast use vstd::utf8::encode_utf8_valid_utf8;
    broadcast use vstd::utf8::encode_utf8_decode_utf8;

    if events.len() == 0 {
        assert(events =~= Seq::<EventModel>::empty());
        assert(spec_encode(events) == Seq::<u8>::empty());
    } else {
        let e = events.first();
        assert(event_wf(events[0]));
        let nb = encode_utf8(e.name);
        let rest = events.drop_first();
        let data = spec_encode(events);
        assert(data == spec_record_bytes(e) + spec_encode(rest));
        assert(spec_record_bytes(e).len() == 36 + nb.len());
        assert(data.subrange(32, 36) =~= spec_u32_be(nb.len() as u32));
        lemma_u32_be_roundtrip(nb.len() as u32);
        let name_len = spec_u32_from_be(data.subrange(32, 36)) as int;
        assert(name_len == nb.len());
        assert(data.len() >= 36 + name_len);
        assert(data.subrange(0, 8) =~= spec_u64_be(e.id));
        lemma_u64_be_roundtrip(e.id);
        assert(data.subrange(8, 24) =~= spec_u128_be(e.timestamp));
        lemma_u128_be_roundtrip(e.timestamp);
        assert(data.subrange(24, 32) =~= spec_u64_be(e.duration));
        lemma_u64_be_roundtrip(e.duration);
        assert(data.subrange(36, 36 + name_len) =~= nb);
        assert(valid_utf8(nb));
        assert(decode_utf8(nb) == e.name);
        assert(data.skip(36 + name_len) =~= spec_encode(rest));
        assert(forall|i: int| 0 <= i < rest.len() ==> event_wf(#[trigger] rest[i])) by {
            assert(forall|i: int| 0 <= i < rest.len() ==> rest[i] == events[i + 1]);
        }
        lemma_decode_encode(rest);
        let decoded = EventModel {
            id: spec_u64_from_be(data.subrange(0, 8)),
            timestamp: spec_u128_from_be(data.subrange(8, 24)),
            duration: spec_u64_from_be(data.subrange(24, 32)),
            name: decode_utf8(data.subrange(36, 36 + name_len)),
        };
        assert(decoded == e);
        assert(spec_decode(data.skip(36 + name_len)) == Ok::<Seq<EventModel>, DecodeError>(rest));
        assert(spec_decode(data) == Ok::<Seq<EventModel>, DecodeError>(seq![decoded] + rest));
        assert(seq![e] + rest =~= events);
        assert(spec_decode(data) == Ok::<Seq<EventModel>, DecodeError>(events));
    }
}

/// A valid encoding with its last byte cut off never decodes: the final
/// record's last field comes up short, so the whole input is rejected.
#[verifier::rlimit(60)]
pub proof fn lemma_truncated_encoding_rejected(events: Seq<EventModel>)
    requires
        forall|i: int| 0 <= i < events.len() ==> event_wf(#[trigger] events[i]),
        events.len() > 0,
    ensures
        spec_decode(spec_encode(events).drop_last()) == Err::<Seq<EventModel>, DecodeError>(
            DecodeError::Truncated,
        ),
    decreases events.len(),
{
    broadcast use vstd::utf8::encode_utf8_valid_utf8;

    let e = events.first();
    assert(event_wf(events[0]));
    let nb = encode_utf8(e.name);
    let record_len = 36 + nb.len() as int;
    let rest = events.drop_first();
    let data = spec_encode(events);
    let t = data.drop_last();
    assert(data == spec_record_bytes(e) + spec_encode(rest));
    assert(spec_record_bytes(e).len() == record_len);
    if events.len() == 1 {
        assert(rest =~= Seq::<EventModel>::empty());
        assert(spec_encode(rest) == Seq::<u8>::empty());
        assert(data =~= spec_record_bytes(e));
        assert(t.len() == record_len - 1);
        if nb.len() == 0 {
            assert(t.len() == 35);
        } else {
            assert(t.len() >= 36);
            assert(t.subrange(32, 36) =~= spec_u32_be(nb.len() as u32));
            lemma_u32_be_roundtrip(nb.len() as u32);
            assert(spec_u32_from_be(t.subrange(32, 36)) as int == nb.len());
            assert(t.len() < 36 + nb.len());
        }
    } else {
        assert(rest.len() > 0);
        assert(spec_encode(rest) == spec_record_bytes(rest.first()) + spec_encode(
            rest.drop_first(),
        ));
        assert(spec_encode(rest).len() >= 36);
        assert(data.len() == record_len + spec_encode(rest).len());
        assert(t.len() >= record_len + 35);
        assert(t.subrange(32, 36) =~= spec_u32_be(nb.len() as u32));
        lemma_u32_be_roundtrip(nb.len() as u32);
        assert(spec_u32_from_be(t.subrange(32, 36)) as int == nb.len());
        assert(t.len() >= 36 + nb.len());
        assert(t.subrange(36, record_len) =~= nb);
        assert(valid_utf8(nb));
        assert(t.skip(record_len) =~= spec_encode(rest).drop_last());
        assert(forall|i: int| 0 <= i < rest.len() ==> event_wf(#[trigger] rest[i])) by {
            assert(forall|i: int| 0 <= i < rest.len() ==> rest[i] == events[i + 1]);
        }
        lemma_truncated_encoding_rejected(rest);
    }
}

} // verus!
