//! Ready-made demonstration data.

use vstd::prelude::*;

verus! {

use vstd::string::StringExecFns;
use crate::capture::epoch_nanos_now;
use crate::codec::Event;
use crate::event::{
    Events,
    EventsBuilder,
    convert_models,
    min_timestamp,
    max_rel_end,
    span_ids,
    spans_end_in_range,
    spans_of_thread,
    span_end,
    span_order,
    has_id,
    assign_depths,
    convert_model,
    lemma_filter_all,
    lemma_span_order_total,
    lemma_min_timestamp_le,
    lemma_min_timestamp_ge,
    lemma_max_rel_end_ge,
    lemma_max_rel_end_le,
};

/// A demonstration log: fifteen consecutive scopes of one process, anchored
/// at the current time. The longest-running scope ends six seconds after the
/// first one starts, so the log's extent is exactly six billion nanoseconds.
pub fn example() -> (log: Events)
    ensures
        log.threads@.dom() == set![12345u64],
        log.threads@[12345u64]@.spans.len() == 15,
        log.total_duration == 6_000_000_000u64,
{
    let process_id: u64 = 12345;
    let now = epoch_nanos_now();
    // keep the offset arithmetic below the u128 ceiling whatever the clock
    // returned
    let base_timestamp: u128 = if now > u128::MAX - 10_000_000_000 {
        0
    } else {
        now
    };
    let names: [&str; 15] = ["database_query", "user_authentication", "file_processing", "api_request", "image_compression", "cache_lookup", "network_request", "json_parsing", "video_transcoding", "memory_allocation", "encryption", "template_rendering", "validation", "data_synchronization", "logging"];
    let offsets: [u64; 15] = [0, 200_000_000, 500_000_000, 800_000_000, 1_000_000_000, 1_300_000_000, 1_500_000_000, 2_000_000_000, 2_200_000_000, 2_500_000_000, 3_000_000_000, 3_500_000_000, 4_000_000_000, 4_200_000_000, 5_000_000_000];
    let durations: [u64; 15] = [150_000_000, 45_000_000, 2_500_000_000, 75_000_000, 1_200_000_000, 25_000_000, 500_000_000, 90_000_000, 3_000_000_000, 15_000_000, 800_000_000, 120_000_000, 65_000_000, 1_800_000_000, 35_000_000];
    let mut builder = EventsBuilder::new();
    let mut i: usize = 0;
    while i < 15
        invariant
            0 <= i <= 15,
            builder@.len() == i,
            forall|k: int|
                0 <= k < i ==> {
                    &&& (#[trigger] builder@[k]).id == 12345u64
                    &&& builder@[k].timestamp == base_timestamp + offsets@[k]
                    &&& builder@[k].duration == durations@[k]
                },
            process_id == 12345u64,
            base_timestamp <= u128::MAX - 10_000_000_000,
            forall|k: int| 0 <= k < 15 ==> (#[trigger] offsets@[k]) <= 5_000_000_000,
            forall|k: int|
                0 <= k < 15 ==> (#[trigger] offsets@[k]) + durations@[k] <= 6_000_000_000,
            offsets@[13] + durations@[13] == 6_000_000_000,
        decreases 15 - i,
    {
        proof {
            assert(offsets@[i as int] <= 5_000_000_000);
        }
        let event = Event {
            id: process_id,
            duration: durations[i],
            timestamp: base_timestamp + (offsets[i] as u128),
            name: String::from_str(names[i]),
        };
        let ghost m = event@;
        let ghost prev = builder@;
        builder.add(event);
        proof {
            assert(builder@ == prev.push(m));
            assert(prev.len() == i);
            assert forall|k: int|
                0 <= k < i + 1 implies (#[trigger] builder@[k]).id == 12345u64 && builder@[k].timestamp
                == base_timestamp + offsets@[k] && builder@[k].duration == durations@[k] by {
                if k < i {
                    assert(builder@[k] == prev[k]);
                    assert(prev[k].id == 12345u64);
                    assert(prev[k].timestamp == base_timestamp + offsets@[k]);
                    assert(prev[k].duration == durations@[k]);
                } else {
                    assert(builder@[k] == m);
                    assert(m.id == 12345u64);
                    assert(m.timestamp == base_timestamp + offsets@[i as int]);
                    assert(m.duration == durations@[i as int]);
                }
                assert(builder@[k].id == 12345u64);
                assert(builder@[k].timestamp == base_timestamp + offsets@[k]);
                assert(builder@[k].duration == durations@[k]);
            }
        }
        i = i + 1;
    }
    let ghost models = builder@;
    proof {
        assert(models.len() == 15);
        assert forall|k: int| 0 <= k < 15 implies base_timestamp <= (#[trigger] models[k]).timestamp by {
            assert(models[k].timestamp == base_timestamp + offsets@[k]);
        }
        lemma_min_timestamp_le(models, 0);
        lemma_min_timestamp_ge(models, base_timestamp);
        assert(models[0].timestamp == base_timestamp);
        assert(min_timestamp(models) == base_timestamp);
        let converted = convert_models(models, base_timestamp);
        assert forall|k: int|
            0 <= k < 15 implies (#[trigger] converted[k]) == convert_model(
            models[k],
            base_timestamp,
        ) && converted[k].timestamp == offsets@[k] && converted[k].duration == durations@[k]
            && converted[k].id == 12345u64 by {
            assert(models[k].timestamp - base_timestamp == offsets@[k]);
        }
        assert(spans_end_in_range(converted)) by {
            assert forall|k: int|
                0 <= k < converted.len() implies (#[trigger] converted[k]).timestamp
                + converted[k].duration <= u64::MAX by {
                assert(offsets@[k] + durations@[k] <= 6_000_000_000);
            }
        }
    }
    let log = builder.build();
    proof {
        let converted = convert_models(models, base_timestamp);
        assert forall|id: u64| #[trigger]
            span_ids(converted).contains(id) <==> set![12345u64].contains(id) by {
            if span_ids(converted).contains(id) {
                let k = choose|k: int|
                    0 <= k < converted.len() && (#[trigger] converted[k]).id == id;
                assert(id == 12345u64);
            } else {
                if id == 12345u64 {
                    assert(converted[0].id == id);
                }
            }
        }
        assert(log.threads@.dom() =~= set![12345u64]);
        assert forall|k: int|
            0 <= k < converted.len() implies span_end(#[trigger] converted[k])
            <= 6_000_000_000u64 by {
            assert(offsets@[k] + durations@[k] <= 6_000_000_000);
        }
        lemma_max_rel_end_le(converted, 6_000_000_000u64);
        lemma_max_rel_end_ge(converted, 13);
        assert(span_end(converted[13]) == 6_000_000_000u64);
        // the one thread holds all fifteen spans
        assert(log.threads@.dom().contains(12345u64));
        assert(log.threads@[12345u64]@.spans == assign_depths(
            spans_of_thread(converted, 12345u64).sort_by(span_order()),
        ));
        assert forall|k: int|
            0 <= k < converted.len() implies has_id(12345u64)(#[trigger] converted[k]) by {
            assert(converted[k].id == 12345u64);
        }
        lemma_filter_all(converted, has_id(12345u64));
        assert(spans_of_thread(converted, 12345u64) == converted);
        lemma_span_order_total();
        broadcast use vstd::seq_lib::group_to_multiset_ensures;

        converted.lemma_sort_by_ensures(span_order());
        assert(converted.sort_by(span_order()).to_multiset().len() == converted.to_multiset().len());
        assert(converted.sort_by(span_order()).len() == 15);
    }
    log
}

} // verus!
