//! The reconstruction engine.
//!
//! A flat, arbitrarily ordered set of raw events is normalized against the
//! global minimum timestamp, partitioned by thread id, sorted by an explicit
//! total order, and annotated with nesting depths by a stack sweep — turning
//! flat (start, duration) intervals into a flame-graph-ready structure.

use vstd::prelude::*;

verus! {

use vstd::relations::{sorted_by, total_ordering};
use vstd::string::StrSliceExecFns;
use crate::codec::{Event, EventModel};
use std::collections::HashMap;

/// One normalized span: `timestamp` is the start offset in nanoseconds
/// relative to the global minimum timestamp, `depth` the number of still-open
/// enclosing spans on the same thread at that start.
#[derive(Debug, Clone, PartialEq, Eq)]
pub struct EventSpan {
    pub id: u64,
    pub duration: u64,
    pub timestamp: u64,
    pub depth: u64,
    pub name: String,
}

/// The mathematical content of an [`EventSpan`].
#[verifier::ext_equal]
pub struct SpanModel {
    pub id: u64,
    pub duration: u64,
    pub timestamp: u64,
    pub depth: u64,
    pub name: Seq<char>,
}

impl View for EventSpan {
    type V = SpanModel;

    open spec fn view(&self) -> SpanModel {
        SpanModel {
            id: self.id,
            duration: self.duration,
            timestamp: self.timestamp,
            depth: self.depth,
            name: self.name@,
        }
    }
}

/// The models of a sequence of spans.
pub open spec fn span_models(spans: Seq<EventSpan>) -> Seq<SpanModel> {
    spans.map_values(|s: EventSpan| s@)
}

/// Lexicographic order on character sequences, by code point; a prefix sorts
/// before its extensions.
pub open spec fn lex_le(a: Seq<char>, b: Seq<char>) -> bool
    decreases a.len(),
{
    if a.len() == 0 {
        true
    } else if b.len() == 0 {
        false
    } else if a.first() == b.first() {
        lex_le(a.drop_first(), b.drop_first())
    } else {
        (a.first() as u32) < (b.first() as u32)
    }
}

/// The total order spans are sorted by, with this exact precedence:
/// ascending start offset; then descending duration, so a longer, enclosing
/// span sorts before a shorter one starting at the same instant; then
/// ascending id; then ascending depth; then lexicographic name.
pub open spec fn span_le(a: SpanModel, b: SpanModel) -> bool {
    if a.timestamp != b.timestamp {
        a.timestamp < b.timestamp
    } else if a.duration != b.duration {
        a.duration > b.duration
    } else if a.id != b.id {
        a.id < b.id
    } else if a.depth != b.depth {
        a.depth < b.depth
    } else {
        lex_le(a.name, b.name)
    }
}

/// [`span_le`] as a first-class relation, for use with ordering lemmas.
pub open spec fn span_order() -> spec_fn(SpanModel, SpanModel) -> bool {
    |a: SpanModel, b: SpanModel| span_le(a, b)
}

proof fn lemma_lex_le_connected(a: Seq<char>, b: Seq<char>)
    ensures
        lex_le(a, b) || lex_le(b, a),
    decreases a.len(),
{
    if a.len() == 0 || b.len() == 0 {
    } else if a.first() == b.first() {
        lemma_lex_le_connected(a.drop_first(), b.drop_first());
    } else {
        let ua = a.first() as u32;
        let ub = b.first() as u32;
        vstd::utf8::char_u32_cast(a.first(), ua);
        vstd::utf8::char_u32_cast(b.first(), ub);
        assert(ua != ub);
    }
}

proof fn lemma_lex_le_antisymmetric(a: Seq<char>, b: Seq<char>)
    requires
        lex_le(a, b),
        lex_le(b, a),
    ensures
        a == b,
    decreases a.len(),
{
    if a.len() == 0 {
        assert(b.len() == 0);
        assert(a =~= b);
    } else {
        assert(b.len() > 0);
        assert(a.first() == b.first());
        lemma_lex_le_antisymmetric(a.drop_first(), b.drop_first());
        assert(a.len() == b.len());
        assert forall|i: int| 0 <= i < a.len() implies a[i] == b[i] by {
            if i >= 1 {
                assert(a[i] == a.drop_first()[i - 1]);
                assert(b[i] == b.drop_first()[i - 1]);
            }
        }
        assert(a =~= b);
    }
}

proof fn lemma_lex_le_transitive(a: Seq<char>, b: Seq<char>, c: Seq<char>)
    requires
        lex_le(a, b),
        lex_le(b, c),
    ensures
        lex_le(a, c),
    decreases a.len(),
{
    if a.len() == 0 || b.len() == 0 || c.len() == 0 {
    } else if a.first() == b.first() && b.first() == c.first() {
        lemma_lex_le_transitive(a.drop_first(), b.drop_first(), c.drop_first());
    }
}

/// Any two spans compare in at least one direction.
proof fn lemma_span_le_connected(a: SpanModel, b: SpanModel)
    ensures
        span_le(a, b) || span_le(b, a),
{
    lemma_lex_le_connected(a.name, b.name);
}

/// The span order is transitive.
proof fn lemma_span_le_transitive(a: SpanModel, b: SpanModel, c: SpanModel)
    requires
        span_le(a, b),
        span_le(b, c),
    ensures
        span_le(a, c),
{
    if a.timestamp == c.timestamp && a.duration == c.duration && a.id == c.id && a.depth
        == c.depth {
        lemma_lex_le_transitive(a.name, b.name, c.name);
    }
}

/// The span order is a total order: reflexive, antisymmetric, transitive and
/// strongly connected. Spans that compare equal both ways are equal in every
/// field, which is what makes the sorted order — and with it the whole
/// reconstruction — deterministic for identical input.
pub proof fn lemma_span_order_total()
    ensures
        total_ordering(span_order()),
{
    let r = span_order();
    assert forall|a: SpanModel| #[trigger] r(a, a) by {
        lemma_lex_le_connected(a.name, a.name);
    }
    assert forall|a: SpanModel, b: SpanModel| #[trigger] r(a, b) && #[trigger] r(b, a) implies a
        == b by {
        lemma_lex_le_antisymmetric(a.name, b.name);
        assert(a =~= b);
    }
    assert forall|a: SpanModel, b: SpanModel, c: SpanModel| #[trigger] r(a, b) && #[trigger] r(
        b,
        c,
    ) implies r(a, c) by {
        if a.timestamp == c.timestamp && a.duration == c.duration && a.id == c.id && a.depth
            == c.depth {
            lemma_lex_le_transitive(a.name, b.name, c.name);
        }
    }
    assert forall|a: SpanModel, b: SpanModel| !(#[trigger] r(a, b)) implies r(b, a) by {
        lemma_lex_le_connected(a.name, b.name);
    }
}

/// Lexicographic comparison of two names, matching [`lex_le`].
fn name_le(a: &str, b: &str) -> (r: bool)
    ensures
        r == lex_le(a@, b@),
{
    let a_len = a.unicode_len();
    let b_len = b.unicode_len();
    let mut i: usize = 0;
    proof {
        assert(a@.skip(0) =~= a@);
        assert(b@.skip(0) =~= b@);
    }
    while i < a_len && i < b_len
        invariant
            0 <= i <= a_len,
            0 <= i <= b_len,
            a_len == a@.len(),
            b_len == b@.len(),
            lex_le(a@, b@) == lex_le(a@.skip(i as int), b@.skip(i as int)),
            lex_le(b@, a@) == lex_le(b@.skip(i as int), a@.skip(i as int)),
        decreases a_len - i,
    {
        let ca = a.get_char(i);
        let cb = b.get_char(i);
        proof {
            assert(a@.skip(i as int).len() > 0 && b@.skip(i as int).len() > 0);
            assert(a@.skip(i as int).first() == a@[i as int]);
            assert(b@.skip(i as int).first() == b@[i as int]);
            assert(a@.skip(i as int).drop_first() =~= a@.skip(i + 1));
            assert(b@.skip(i as int).drop_first() =~= b@.skip(i + 1));
        }
        if ca != cb {
            return (ca as u32) < (cb as u32);
        }
        i = i + 1;
    }
    proof {
        if a_len <= b_len {
            assert(a@.skip(i as int).len() == 0);
        } else {
            assert(b@.skip(i as int).len() == 0 && a@.skip(i as int).len() > 0);
        }
    }
    a_len <= b_len
}

impl EventSpan {
    /// Whether `self` sorts no later than `other` under the span order.
    pub fn le(&self, other: &EventSpan) -> (r: bool)
        ensures
            r == span_le(self@, other@),
    {
        if self.timestamp != other.timestamp {
            self.timestamp < other.timestamp
        } else if self.duration != other.duration {
            self.duration > other.duration
        } else if self.id != other.id {
            self.id < other.id
        } else if self.depth != other.depth {
            self.depth < other.depth
        } else {
            name_le(self.name.as_str(), other.name.as_str())
        }
    }
}

/// Sort spans into the span order by insertion, so that depth assignment is
/// deterministic and reproducible for identical input.
#[verifier::rlimit(100)]
#[verifier::spinoff_prover]
fn sort_spans(spans: &mut Vec<EventSpan>)
    ensures
        span_models(final(spans)@) == span_models(old(spans)@).sort_by(span_order()),
{
    proof {
        lemma_span_order_total();
    }
    let ghost orig = span_models(old(spans)@);
    if spans.len() > 1 {
        let mut i: usize = 1;
        proof {
            assert(sorted_by(span_models(spans@).take(1), span_order()));
        }
        while i < spans.len()
            invariant
                1 <= i <= spans@.len(),
                spans@.len() == orig.len(),
                total_ordering(span_order()),
                sorted_by(span_models(spans@).take(i as int), span_order()),
                span_models(spans@).to_multiset() == orig.to_multiset(),
            decreases spans@.len() - i,
        {
            let ghost vb = spans@;
            let ghost before = span_models(vb);
            proof {
                assert forall|p: int, q: int| 0 <= p < q < i implies span_le(
                    before[p],
                    before[q],
                ) by {
                    assert(before.take(i as int)[p] == before[p]);
                    assert(before.take(i as int)[q] == before[q]);
                    assert(span_order()(before.take(i as int)[p], before.take(i as int)[q]));
                }
            }
            let mut j: usize = 0;
            while j < i && spans[j].le(&spans[i])
                invariant
                    0 <= j <= i < spans@.len(),
                    spans@ == vb,
                    before == span_models(spans@),
                    forall|k: int| 0 <= k < j ==> span_le(#[trigger] before[k], before[i as int]),
                decreases i - j,
            {
                j = j + 1;
            }
            let ghost xm = before[i as int];
            if j < i {
                let x = spans.remove(i);
                spans.insert(j, x);
                proof {
                    broadcast use vstd::seq_lib::group_to_multiset_ensures;
                    broadcast use vstd::seq_lib::to_multiset_insert;
                    broadcast use vstd::multiset::group_multiset_axioms;

                    let after = span_models(spans@);
                    assert(spans@ == vb.remove(i as int).insert(j as int, vb[i as int]));
                    vb.remove_ensures(i as int);
                    vb.remove(i as int).insert_ensures(j as int, vb[i as int]);
                    before.remove_ensures(i as int);
                    before.remove(i as int).insert_ensures(j as int, xm);
                    assert forall|k: int|
                        0 <= k < after.len() implies after[k] == before.remove(i as int).insert(
                        j as int,
                        xm,
                    )[k] by {
                        assert(after[k] == spans@[k]@);
                    }
                    assert(after =~= before.remove(i as int).insert(j as int, xm));
                    // the multiset is preserved: one occurrence moved
                    assert(before.to_multiset().contains(xm));
                    assert(before.remove(i as int).to_multiset() =~= before.to_multiset().remove(
                        xm,
                    ));
                    assert(after.to_multiset() =~= before.to_multiset().remove(xm).insert(xm));
                    assert(after.to_multiset() =~= before.to_multiset());
                    // the sorted prefix grew by one
                    assert(!span_le(before[j as int], xm));
                    assert(span_le(xm, before[j as int])) by {
                        lemma_span_le_connected(before[j as int], xm);
                    }
                    assert forall|p: int, q: int| 0 <= p < q < i + 1 implies span_le(
                        after[p],
                        after[q],
                    ) by {
                        if q < j {
                            assert(after[p] == before[p] && after[q] == before[q]);
                        } else if q == j {
                            assert(after[p] == before[p] && after[q] == xm);
                        } else {
                            assert(after[q] == before[q - 1]);
                            if p < j {
                                assert(after[p] == before[p]);
                                assert(span_le(before[p], before[q - 1]));
                            } else if p == j {
                                assert(after[p] == xm);
                                if j as int == q - 1 {
                                } else {
                                    assert(span_le(before[j as int], before[q - 1]));
                                    lemma_span_le_transitive(
                                        xm,
                                        before[j as int],
                                        before[q - 1],
                                    );
                                }
                            } else {
                                assert(after[p] == before[p - 1]);
                                assert(span_le(before[p - 1], before[q - 1]));
                            }
                        }
                    }
                    assert forall|p: int, q: int|
                        0 <= p < q < i + 1 implies span_order()(
                        #[trigger] after.take(i + 1)[p],
                        #[trigger] after.take(i + 1)[q],
                    ) by {
                        assert(after.take(i + 1)[p] == after[p]);
                        assert(after.take(i + 1)[q] == after[q]);
                    }
                    assert(sorted_by(after.take(i + 1), span_order()));
                }
            } else {
                proof {
                    let after = span_models(spans@);
                    assert forall|p: int, q: int|
                        0 <= p < q < i + 1 implies span_order()(
                        #[trigger] after.take(i + 1)[p],
                        #[trigger] after.take(i + 1)[q],
                    ) by {
                        assert(after.take(i + 1)[p] == before[p]);
                        assert(after.take(i + 1)[q] == before[q]);
                        if q == i {
                            assert(span_le(before[p], before[i as int]));
                        }
                    }
                    assert(sorted_by(after.take(i + 1), span_order()));
                }
            }
            i = i + 1;
        }
    }
    proof {
        let final_models = span_models(spans@);
        assert(final_models.take(final_models.len() as int) =~= final_models);
        assert(sorted_by(final_models, span_order()));
        orig.lemma_sort_by_ensures(span_order());
        vstd::seq_lib::lemma_sorted_unique(
            final_models,
            orig.sort_by(span_order()),
            span_order(),
        );
        assert(final_models =~= orig.sort_by(span_order()));
    }
}

/// Accumulates raw events and reconstructs them into an [`Events`] value.
pub struct EventsBuilder {
    events: Vec<Event>,
}

impl View for EventsBuilder {
    type V = Seq<EventModel>;

    closed spec fn view(&self) -> Seq<EventModel> {
        crate::codec::event_models(self.events@)
    }
}

/// One thread's reconstructed spans, in sorted, depth-annotated order.
#[derive(Debug, Clone)]
pub struct Thread {
    pub id: u64,
    pub spans: Vec<EventSpan>,
}

/// The mathematical content of a [`Thread`].
#[verifier::ext_equal]
pub struct ThreadModel {
    pub id: u64,
    pub spans: Seq<SpanModel>,
}

impl View for Thread {
    type V = ThreadModel;

    open spec fn view(&self) -> ThreadModel {
        ThreadModel { id: self.id, spans: span_models(self.spans@) }
    }
}

impl Thread {
    /// A thread record with no spans yet.
    pub fn new(id: u64) -> (t: Thread)
        ensures
            t@.id == id,
            t@.spans == Seq::<SpanModel>::empty(),
    {
        let t = Thread { id, spans: Vec::new() };
        proof {
            assert(span_models(t.spans@) =~= Seq::<SpanModel>::empty());
        }
        t
    }

    /// Whether this thread holds no spans.
    pub fn is_empty(&self) -> (r: bool)
        ensures
            r == (self@.spans.len() == 0),
    {
        self.spans.is_empty()
    }
}

/// A span's end offset as the sweep computes it: start plus duration,
/// truncated to 64 bits.
pub open spec fn span_end(s: SpanModel) -> u64 {
    (s.timestamp + s.duration) as u64
}

/// The pending-end stack after popping every entry at or before `t`: those
/// ancestors have closed by the time a span starting at `t` opens.
pub open spec fn pop_closed(stack: Seq<u64>, t: u64) -> Seq<u64>
    decreases stack.len(),
{
    if stack.len() > 0 && stack.last() <= t {
        pop_closed(stack.drop_last(), t)
    } else {
        stack
    }
}

/// The pending-end stack after sweeping all of `spans` in order, starting
/// from the empty stack.
pub open spec fn sweep_stack(spans: Seq<SpanModel>) -> Seq<u64>
    decreases spans.len(),
{
    if spans.len() == 0 {
        Seq::empty()
    } else {
        pop_closed(sweep_stack(spans.drop_last()), spans.last().timestamp).push(
            span_end(spans.last()),
        )
    }
}

/// The depth the sweep assigns to the span at position `i`: the number of
/// still-open enclosing spans when it starts.
pub open spec fn spec_depth(spans: Seq<SpanModel>, i: int) -> u64
    recommends
        0 <= i < spans.len(),
{
    pop_closed(sweep_stack(spans.take(i)), spans[i].timestamp).len() as u64
}

/// All spans with the depths the stack sweep assigns; every other field is
/// left as it is.
pub open spec fn assign_depths(spans: Seq<SpanModel>) -> Seq<SpanModel> {
    Seq::new(
        spans.len(),
        |i: int|
            SpanModel {
                id: spans[i].id,
                duration: spans[i].duration,
                timestamp: spans[i].timestamp,
                depth: spec_depth(spans, i),
                name: spans[i].name,
            },
    )
}

/// No span's end offset overflows: what the stack sweep pushes fits in
/// 64 bits.
pub open spec fn spans_end_in_range(spans: Seq<SpanModel>) -> bool {
    forall|k: int|
        0 <= k < spans.len() ==> (#[trigger] spans[k]).timestamp + spans[k].duration <= u64::MAX
}

impl EventsBuilder {
    /// Sort the spans, then assign each its nesting depth with the stack
    /// sweep: pop every pending end offset at or before the span's start,
    /// record the remaining stack size as the depth, and push the span's own
    /// end offset.
    #[verifier::rlimit(100)]
    #[verifier::spinoff_prover]
    fn update_depth(spans: &mut Vec<EventSpan>)
        requires
            spans_end_in_range(span_models(old(spans)@)),
        ensures
            span_models(final(spans)@) == assign_depths(
                span_models(old(spans)@).sort_by(span_order()),
            ),
    {
        sort_spans(spans);
        let ghost sorted = span_models(spans@);
        proof {
            lemma_span_order_total();
            span_models(old(spans)@).lemma_sort_by_ensures(span_order());
            assert forall|k: int|
                0 <= k < sorted.len() implies (#[trigger] sorted[k]).timestamp + sorted[k].duration
                <= u64::MAX by {
                assert(sorted.contains(sorted[k]));
                let orig = span_models(old(spans)@);
                assert(orig.contains(sorted[k]));
                let t = choose|t: int| 0 <= t < orig.len() && orig[t] == sorted[k];
                assert(orig[t].timestamp + orig[t].duration <= u64::MAX);
            }
        }
        let mut stack: Vec<u64> = Vec::new();
        let mut i: usize = 0;
        proof {
            assert(sorted.take(0) =~= Seq::<SpanModel>::empty());
        }
        while i < spans.len()
            invariant
                0 <= i <= spans@.len(),
                spans@.len() == sorted.len(),
                stack@ == sweep_stack(sorted.take(i as int)),
                forall|k: int| 0 <= k < i ==> #[trigger] spans@[k]@ == assign_depths(sorted)[k],
                forall|k: int| i <= k < spans@.len() ==> #[trigger] spans@[k]@ == sorted[k],
                spans_end_in_range(sorted),
            decreases spans@.len() - i,
        {
            let ts = spans[i].timestamp;
            let dur = spans[i].duration;
            proof {
                assert(spans@[i as int]@ == sorted[i as int]);
                assert(ts == sorted[i as int].timestamp && dur == sorted[i as int].duration);
            }
            let ghost stack0 = stack@;
            while stack.len() > 0 && stack[stack.len() - 1] <= ts
                invariant
                    pop_closed(stack0, ts) == pop_closed(stack@, ts),
                decreases stack@.len(),
            {
                stack.pop();
            }
            assert(stack@ == pop_closed(stack0, ts));
            let depth = stack.len() as u64;
            assert(depth == spec_depth(sorted, i as int));
            spans[i].depth = depth;
            assert(ts + dur <= u64::MAX) by {
                assert(sorted[i as int].timestamp + sorted[i as int].duration <= u64::MAX);
            }
            stack.push(ts + dur);
            proof {
                assert(sorted.take(i + 1).drop_last() =~= sorted.take(i as int));
                assert(sorted.take(i + 1).last() == sorted[i as int]);
                assert(stack@ == sweep_stack(sorted.take(i + 1)));
                assert(spans@[i as int]@ == assign_depths(sorted)[i as int]);
            }
            i = i + 1;
        }
        proof {
            assert(span_models(spans@) =~= assign_depths(sorted));
        }
    }
}

/// The thread ids occurring among the spans.
pub open spec fn span_ids(spans: Seq<SpanModel>) -> Set<u64> {
    Set::new(|id: u64| exists|k: int| 0 <= k < spans.len() && (#[trigger] spans[k]).id == id)
}

/// Whether a span belongs to the thread with the given id.
pub open spec fn has_id(id: u64) -> spec_fn(SpanModel) -> bool {
    |m: SpanModel| m.id == id
}

/// The spans belonging to one thread, in their arrival order.
pub open spec fn spans_of_thread(spans: Seq<SpanModel>, id: u64) -> Seq<SpanModel> {
    spans.filter(has_id(id))
}

/// One raw event normalized against the global minimum timestamp: the start
/// offset becomes relative (cast to 64 bits), depth starts at zero, and id,
/// duration and name carry over unchanged.
pub open spec fn convert_model(e: EventModel, min: u128) -> SpanModel {
    SpanModel {
        id: e.id,
        duration: e.duration,
        timestamp: ((e.timestamp - min) as u64),
        depth: 0,
        name: e.name,
    }
}

/// All raw events normalized against the global minimum timestamp.
pub open spec fn convert_models(events: Seq<EventModel>, min: u128) -> Seq<SpanModel> {
    events.map_values(|e: EventModel| convert_model(e, min))
}

/// The minimum timestamp across the events; zero for an empty input.
pub open spec fn min_timestamp(models: Seq<EventModel>) -> u128
    decreases models.len(),
{
    if models.len() == 0 {
        0
    } else if models.len() == 1 {
        models[0].timestamp
    } else {
        let rest = min_timestamp(models.drop_last());
        if models.last().timestamp < rest {
            models.last().timestamp
        } else {
            rest
        }
    }
}

/// The maximum relative end offset across the spans; zero for an empty input.
pub open spec fn max_rel_end(spans: Seq<SpanModel>) -> u64
    decreases spans.len(),
{
    if spans.len() == 0 {
        0
    } else {
        let rest = max_rel_end(spans.drop_last());
        if span_end(spans.last()) > rest {
            span_end(spans.last())
        } else {
            rest
        }
    }
}

/// The minimum timestamp is no larger than any event's timestamp.
pub proof fn lemma_min_timestamp_le(models: Seq<EventModel>, k: int)
    requires
        0 <= k < models.len(),
    ensures
        min_timestamp(models) <= models[k].timestamp,
    decreases models.len(),
{
    if models.len() > 1 && k < models.len() - 1 {
        lemma_min_timestamp_le(models.drop_last(), k);
    }
}

/// Filtering keeps a sequence whole when every element satisfies the
/// predicate.
pub proof fn lemma_filter_all<A>(s: Seq<A>, pred: spec_fn(A) -> bool)
    requires
        forall|k: int| 0 <= k < s.len() ==> pred(#[trigger] s[k]),
    ensures
        s.filter(pred) == s,
    decreases s.len(),
{
    reveal(Seq::filter);
    if s.len() > 0 {
        assert(forall|k: int| 0 <= k < s.drop_last().len() ==> pred(#[trigger] s.drop_last()[k]));
        lemma_filter_all(s.drop_last(), pred);
        assert(s.drop_last().push(s.last()) =~= s);
    }
}

/// The minimum timestamp is at least any common lower bound of the events'
/// timestamps.
pub proof fn lemma_min_timestamp_ge(models: Seq<EventModel>, bound: u128)
    requires
        models.len() > 0,
        forall|k: int| 0 <= k < models.len() ==> bound <= (#[trigger] models[k]).timestamp,
    ensures
        bound <= min_timestamp(models),
    decreases models.len(),
{
    if models.len() > 1 {
        lemma_min_timestamp_ge(models.drop_last(), bound);
    }
}

/// The recorded extent dominates every span's end offset.
pub proof fn lemma_max_rel_end_ge(spans: Seq<SpanModel>, k: int)
    requires
        0 <= k < spans.len(),
    ensures
        span_end(spans[k]) <= max_rel_end(spans),
    decreases spans.len(),
{
    if k < spans.len() - 1 {
        lemma_max_rel_end_ge(spans.drop_last(), k);
    }
}

/// The recorded extent is at most any common upper bound of the spans' end
/// offsets.
pub proof fn lemma_max_rel_end_le(spans: Seq<SpanModel>, bound: u64)
    requires
        forall|k: int| 0 <= k < spans.len() ==> span_end(#[trigger] spans[k]) <= bound,
    ensures
        max_rel_end(spans) <= bound,
    decreases spans.len(),
{
    if spans.len() > 0 {
        lemma_max_rel_end_le(spans.drop_last(), bound);
    }
}

impl EventsBuilder {
    /// An empty builder.
    pub fn new() -> (b: Self)
        ensures
            b@ == Seq::<EventModel>::empty(),
    {
        let b = EventsBuilder { events: Vec::new() };
        proof {
            assert(b@ =~= Seq::<EventModel>::empty());
        }
        b
    }

    /// Append one raw event.
    pub fn add(&mut self, event: Event)
        ensures
            final(self)@ == old(self)@.push(event@),
    {
        let ghost e = event@;
        self.events.push(event);
        proof {
            assert(self@ =~= old(self)@.push(e));
        }
    }

    /// Append a batch of raw events, in their given order.
    pub fn add_vec(&mut self, mut events: Vec<Event>)
        ensures
            final(self)@ == old(self)@ + crate::codec::event_models(events@),
    {
        let ghost given = crate::codec::event_models(events@);
        self.events.append(&mut events);
        proof {
            assert(self@ =~= old(self)@ + given);
        }
    }

    /// Normalize raw events into spans relative to `min_timestamp`.
    fn convert(raw_events: Vec<Event>, min_timestamp: u128) -> (spans: Vec<EventSpan>)
        requires
            forall|k: int|
                0 <= k < raw_events@.len() ==> min_timestamp <= (#[trigger] raw_events@[k])@.timestamp,
        ensures
            span_models(spans@) == convert_models(crate::codec::event_models(raw_events@), min_timestamp),
    {
        let ghost all = crate::codec::event_models(raw_events@);
        let mut raw_events = raw_events;
        let mut spans: Vec<EventSpan> = Vec::new();
        let ghost mut done: int = 0;
        proof {
            assert(crate::codec::event_models(raw_events@) =~= all.skip(0));
            assert(span_models(spans@) =~= convert_models(all.take(0), min_timestamp));
        }
        while raw_events.len() > 0
            invariant
                0 <= done <= all.len(),
                raw_events@.len() == all.len() - done,
                crate::codec::event_models(raw_events@) == all.skip(done),
                span_models(spans@) == convert_models(all.take(done), min_timestamp),
                forall|k: int| 0 <= k < all.len() ==> min_timestamp <= (#[trigger] all[k]).timestamp,
            decreases raw_events@.len(),
        {
            let ghost before = raw_events@;
            let e = raw_events.remove(0);
            proof {
                assert(e@ == crate::codec::event_models(before)[0]);
                assert(e@ == all[done]);
                before.remove_ensures(0);
                assert forall|k: int|
                    0 <= k < crate::codec::event_models(raw_events@).len() implies crate::codec::event_models(
                    raw_events@,
                )[k] == all.skip(done + 1)[k] by {
                    assert(raw_events@[k] == before[k + 1]);
                    assert(crate::codec::event_models(before)[k + 1] == all.skip(done)[k + 1]);
                }
                assert(crate::codec::event_models(raw_events@) =~= all.skip(done + 1));
                assert(min_timestamp <= e@.timestamp);
            }
            let span = EventSpan {
                id: e.id,
                duration: e.duration,
                timestamp: (e.timestamp - min_timestamp) as u64,
                depth: 0,
                name: e.name,
            };
            proof {
                assert(span@ == convert_model(all[done], min_timestamp));
            }
            let ghost prev_vec = spans@;
            let ghost sm = span@;
            proof {
                assert(span_models(prev_vec).len() == prev_vec.len());
                assert(convert_models(all.take(done), min_timestamp).len() == done);
                assert(prev_vec.len() == done);
            }
            spans.push(span);
            proof {
                assert(spans@ == prev_vec.push(span));
                assert(spans@.len() == done + 1);
                assert forall|k: int|
                    0 <= k < span_models(spans@).len() implies span_models(spans@)[k]
                    == convert_models(all.take(done + 1), min_timestamp)[k] by {
                    assert(span_models(spans@)[k] == spans@[k]@);
                    if k < done {
                        assert(spans@[k] == prev_vec[k]);
                        assert(span_models(prev_vec)[k] == convert_models(
                            all.take(done),
                            min_timestamp,
                        )[k]);
                        assert(all.take(done)[k] == all[k] && all.take(done + 1)[k] == all[k]);
                    } else {
                        assert(spans@[k] == prev_vec.push(span)[prev_vec.len() as int]);
                        assert(spans@[k]@ == sm);
                        assert(all.take(done + 1)[k] == all[done]);
                    }
                }
                assert(span_models(spans@) =~= convert_models(all.take(done + 1), min_timestamp));
                done = done + 1;
            }
        }
        proof {
            assert(all.take(done) =~= all);
        }
        spans
    }

    /// Group spans by thread id. A thread record is created lazily when the
    /// first span for its id is seen; group membership preserves arrival
    /// order.
    fn partition(events: Vec<EventSpan>) -> (result: HashMap<u64, Thread>)
        ensures
            result@.dom() == span_ids(span_models(events@)),
            forall|id: u64| #[trigger]
                result@.dom().contains(id) ==> result@[id]@.id == id && result@[id]@.spans
                    == spans_of_thread(span_models(events@), id),
    {
        broadcast use vstd::std_specs::hash::group_hash_axioms;

        let ghost all = span_models(events@);
        let mut events = events;
        let mut result: HashMap<u64, Thread> = HashMap::new();
        let ghost mut done: int = 0;
        proof {
            assert(span_models(events@) =~= all.skip(0));
            assert(result@.dom() =~= span_ids(all.take(0)));
        }
        while events.len() > 0
            invariant
                0 <= done <= all.len(),
                events@.len() == all.len() - done,
                span_models(events@) == all.skip(done),
                result@.dom() == span_ids(all.take(done)),
                forall|id: u64| #[trigger]
                    result@.dom().contains(id) ==> result@[id]@.id == id && result@[id]@.spans
                        == spans_of_thread(all.take(done), id),
            decreases events@.len(),
        {
            let ghost before = events@;
            let span = events.remove(0);
            let ghost m = span@;
            let id = span.id;
            proof {
                assert(m == span_models(before)[0]);
                assert(m == all[done]);
                before.remove_ensures(0);
                assert forall|k: int|
                    0 <= k < span_models(events@).len() implies span_models(events@)[k] == all.skip(
                    done + 1,
                )[k] by {
                    assert(events@[k] == before[k + 1]);
                    assert(span_models(before)[k + 1] == all.skip(done)[k + 1]);
                }
                assert(span_models(events@) =~= all.skip(done + 1));
            }
            let ghost old_map = result@;
            if result.contains_key(&id) {
                let mut t = match result.remove(&id) {
                    Some(t) => t,
                    None => vstd::pervasive::unreached(),
                };
                let ghost old_spans = t@.spans;
                t.spans.push(span);
                proof {
                    assert(t@.spans =~= old_spans.push(m));
                }
                result.insert(id, t);
                proof {
                    assert(result@ =~= old_map.insert(id, t));
                }
            } else {
                let mut t = Thread::new(id);
                t.spans.push(span);
                proof {
                    assert(t@.spans =~= Seq::<SpanModel>::empty().push(m));
                }
                result.insert(id, t);
                proof {
                    assert(result@ =~= old_map.insert(id, t));
                }
            }
            proof {
                assert(all.take(done + 1).drop_last() =~= all.take(done));
                assert(all.take(done + 1).last() == m);
                assert forall|id2: u64| #[trigger]
                    span_ids(all.take(done + 1)).contains(id2) <==> span_ids(all.take(done)).contains(id2)
                        || id2 == id by {
                    if span_ids(all.take(done + 1)).contains(id2) {
                        let k = choose|k: int|
                            0 <= k < all.take(done + 1).len() && (#[trigger] all.take(
                                done + 1,
                            )[k]).id == id2;
                        if k < done {
                            assert(all.take(done)[k].id == id2);
                        }
                    } else {
                        if span_ids(all.take(done)).contains(id2) {
                            let k = choose|k: int|
                                0 <= k < all.take(done).len() && (#[trigger] all.take(done)[k]).id
                                    == id2;
                            assert(all.take(done + 1)[k].id == id2);
                        }
                        if id2 == id {
                            assert(all.take(done + 1)[done].id == id2);
                        }
                    }
                }
                assert(result@.dom() =~= span_ids(all.take(done + 1)));
                assert(all.take(done + 1) =~= all.take(done).push(m));
                assert forall|id2: u64| #[trigger] result@.dom().contains(id2) implies result@[id2]@.id
                    == id2 && result@[id2]@.spans == spans_of_thread(all.take(done + 1), id2) by {
                    all.take(done).lemma_filter_push(m, has_id(id2));
                    assert(spans_of_thread(all.take(done + 1), id2) == all.take(done).push(
                        m,
                    ).filter(has_id(id2)));
                    if id2 != id {
                        assert(result@[id2] == old_map[id2]);
                        assert(spans_of_thread(all.take(done + 1), id2) == spans_of_thread(
                            all.take(done),
                            id2,
                        ));
                    } else {
                        if old_map.dom().contains(id) {
                            assert(spans_of_thread(all.take(done + 1), id) == spans_of_thread(
                                all.take(done),
                                id,
                            ).push(m));
                        } else {
                            assert(!span_ids(all.take(done)).contains(id));
                            assert(spans_of_thread(all.take(done), id) =~= Seq::<
                                SpanModel,
                            >::empty()) by {
                                broadcast use vstd::seq_lib::group_filter_ensures;

                                if spans_of_thread(all.take(done), id).len() > 0 {
                                    assert((all.take(done).filter(has_id(id)))[0].id == id);
                                    let pred = has_id(id);
                                    let f = all.take(done).filter(pred);
                                    assert(f.contains(f[0]));
                                    assert(all.take(done).contains(f[0])) by {
                                        all.take(done).lemma_filter_contains_rev(pred, f[0]);
                                    }
                                    let k = choose|k: int|
                                        0 <= k < all.take(done).len() && all.take(done)[k] == f[0];
                                    assert(span_ids(all.take(done)).contains(id));
                                }
                            }
                        }
                    }
                }
                done = done + 1;
            }
        }
        proof {
            assert(all.take(done) =~= all);
        }
        result
    }
}

/// A span's exact end offset: start plus duration, without truncation.
pub open spec fn end_int(s: SpanModel) -> int {
    s.timestamp + s.duration
}

/// Two spans either do not overlap, or one's interval contains the other's.
pub open spec fn nested_or_disjoint(a: SpanModel, b: SpanModel) -> bool {
    ||| end_int(a) <= b.timestamp
    ||| end_int(b) <= a.timestamp
    ||| a.timestamp <= b.timestamp && end_int(b) <= end_int(a)
    ||| b.timestamp <= a.timestamp && end_int(a) <= end_int(b)
}

/// Spans are pairwise nested or disjoint — no crossing intervals. This is the
/// assumption under which the stack sweep reconstructs meaningful nesting.
pub open spec fn well_nested(spans: Seq<SpanModel>) -> bool {
    forall|p: int, q: int|
        0 <= p < spans.len() && 0 <= q < spans.len() ==> nested_or_disjoint(
            #[trigger] spans[p],
            #[trigger] spans[q],
        )
}

/// `a`'s interval contains `b`'s, and is still open when `b` starts.
pub open spec fn encloses(a: SpanModel, b: SpanModel) -> bool {
    a.timestamp <= b.timestamp && end_int(b) <= end_int(a) && b.timestamp < end_int(a)
}

/// The end offsets of the spans before position `m` whose intervals are still
/// open past time `t`, in position order.
pub open spec fn open_ends(spans: Seq<SpanModel>, m: int, t: int) -> Seq<u64>
    decreases m,
{
    if m <= 0 {
        Seq::empty()
    } else if end_int(spans[m - 1]) > t {
        open_ends(spans, m - 1, t).push(span_end(spans[m - 1]))
    } else {
        open_ends(spans, m - 1, t)
    }
}

proof fn lemma_open_ends_len_le(spans: Seq<SpanModel>, m: int, t: int)
    ensures
        open_ends(spans, m, t).len() <= if m <= 0 {
            0int
        } else {
            m
        },
    decreases m,
{
    if m > 0 {
        lemma_open_ends_len_le(spans, m - 1, t);
    }
}

proof fn lemma_sorted_pair(spans: Seq<SpanModel>, p: int, q: int)
    requires
        sorted_by(spans, span_order()),
        0 <= p < q < spans.len(),
    ensures
        spans[p].timestamp <= spans[q].timestamp,
        spans[p].timestamp == spans[q].timestamp ==> end_int(spans[p]) >= end_int(spans[q]),
{
    assert(span_order()(spans[p], spans[q]));
}

/// Thresholds that cut the same intervals leave the same stack.
proof fn lemma_open_ends_same(spans: Seq<SpanModel>, m: int, t1: int, t2: int)
    requires
        forall|j: int| 0 <= j < m ==> ((end_int(#[trigger] spans[j]) > t1) <==> (end_int(spans[j])
            > t2)),
    ensures
        open_ends(spans, m, t1) == open_ends(spans, m, t2),
    decreases m,
{
    if m > 0 {
        lemma_open_ends_same(spans, m - 1, t1, t2);
    }
}

/// Positions that contribute nothing can be skipped.
proof fn lemma_open_ends_skip(spans: Seq<SpanModel>, lo: int, m: int, t: int)
    requires
        0 <= lo <= m,
        forall|j: int| lo <= j < m ==> end_int(#[trigger] spans[j]) <= t,
    ensures
        open_ends(spans, m, t) == open_ends(spans, lo, t),
    decreases m - lo,
{
    if lo < m {
        lemma_open_ends_skip(spans, lo, m - 1, t);
    }
}

/// Among spans open past a common time, an earlier span in sorted order ends
/// no sooner than a later one: still-open spans form a chain of enclosures.
proof fn lemma_open_mono(spans: Seq<SpanModel>, j1: int, j2: int, t: int)
    requires
        sorted_by(spans, span_order()),
        well_nested(spans),
        0 <= j1 < j2 < spans.len(),
        spans[j1].timestamp <= t,
        spans[j2].timestamp <= t,
        end_int(spans[j1]) > t,
        end_int(spans[j2]) > t,
    ensures
        end_int(spans[j1]) >= end_int(spans[j2]),
{
    lemma_sorted_pair(spans, j1, j2);
    assert(nested_or_disjoint(spans[j1], spans[j2]));
}

/// The shape of the sweep's stack just before the span at position `i` is
/// pushed: exactly the end offsets of the earlier spans still open at `i`'s
/// start, outermost first.
proof fn lemma_pre_stack(spans: Seq<SpanModel>, i: int)
    requires
        sorted_by(spans, span_order()),
        well_nested(spans),
        spans_end_in_range(spans),
        0 <= i < spans.len(),
    ensures
        pop_closed(sweep_stack(spans.take(i)), spans[i].timestamp) == open_ends(
            spans,
            i,
            spans[i].timestamp as int,
        ),
    decreases i,
{
    let t_i = spans[i].timestamp as int;
    if i == 0 {
        assert(spans.take(0) =~= Seq::<SpanModel>::empty());
        assert(sweep_stack(spans.take(0)) == Seq::<u64>::empty());
    } else {
        let prev = spans[i - 1];
        let t_p = prev.timestamp as int;
        lemma_sorted_pair(spans, i - 1, i);
        lemma_pre_stack(spans, i - 1);
        assert(spans.take(i).drop_last() =~= spans.take(i - 1));
        assert(spans.take(i).last() == prev);
        assert(sweep_stack(spans.take(i)) == pop_closed(
            sweep_stack(spans.take(i - 1)),
            prev.timestamp,
        ).push(span_end(prev)));
        let x = open_ends(spans, i - 1, t_p);
        assert(sweep_stack(spans.take(i)) == x.push(span_end(prev)));
        assert(spans[i - 1].timestamp + spans[i - 1].duration <= u64::MAX);
        assert(span_end(prev) == end_int(prev));
        assert forall|j: int| 0 <= j < i - 1 implies (#[trigger] spans[j]).timestamp <= t_p by {
            lemma_sorted_pair(spans, j, i - 1);
        }
        if end_int(prev) <= t_i {
            assert(x.push(span_end(prev)).drop_last() =~= x);
            assert(x.push(span_end(prev)).last() == span_end(prev));
            assert(span_end(prev) <= spans[i].timestamp);
            assert(pop_closed(x.push(span_end(prev)), spans[i].timestamp) == pop_closed(
                x,
                spans[i].timestamp,
            ));
            // pop the rest with the inner lemma on thresholds
            lemma_pop_open_ends(spans, i - 1, t_p, spans[i].timestamp);
            assert(open_ends(spans, i, t_i) == open_ends(spans, i - 1, t_i));
        } else {
            // the previous span is still open: nothing pops, and everything
            // below it is at least as wide
            assert forall|j: int|
                0 <= j < i - 1 implies ((end_int(#[trigger] spans[j]) > t_p) <==> (end_int(
                spans[j],
            ) > t_i)) by {
                if end_int(spans[j]) > t_p {
                    lemma_sorted_pair(spans, j, i - 1);
                    lemma_open_mono(spans, j, i - 1, t_p);
                }
            }
            lemma_open_ends_same(spans, i - 1, t_p, t_i);
            assert(open_ends(spans, i, t_i) == open_ends(spans, i - 1, t_i).push(span_end(prev)));
            assert(x.push(span_end(prev)).last() == span_end(prev));
            assert(!(span_end(prev) <= spans[i].timestamp));
            assert(pop_closed(x.push(span_end(prev)), spans[i].timestamp) == x.push(
                span_end(prev),
            ));
        }
    }
}

/// Popping a stack of open ends at a later time leaves the ends open past
/// that time.
proof fn lemma_pop_open_ends(spans: Seq<SpanModel>, m: int, t1: int, t2: u64)
    requires
        sorted_by(spans, span_order()),
        well_nested(spans),
        spans_end_in_range(spans),
        0 <= m <= spans.len(),
        t1 <= t2 as int,
        forall|j: int| 0 <= j < m ==> (#[trigger] spans[j]).timestamp <= t1,
    ensures
        pop_closed(open_ends(spans, m, t1), t2) == open_ends(spans, m, t2 as int),
    decreases m,
{
    if m > 0 {
        let last = spans[m - 1];
        assert(last.timestamp + last.duration <= u64::MAX);
        assert(span_end(last) == end_int(last));
        if end_int(last) <= t1 {
            lemma_pop_open_ends(spans, m - 1, t1, t2);
            assert(open_ends(spans, m, t1) == open_ends(spans, m - 1, t1));
            assert(open_ends(spans, m, t2 as int) == open_ends(spans, m - 1, t2 as int));
        } else if end_int(last) <= t2 as int {
            lemma_pop_open_ends(spans, m - 1, t1, t2);
            let x = open_ends(spans, m - 1, t1);
            assert(open_ends(spans, m, t1) == x.push(span_end(last)));
            assert(x.push(span_end(last)).drop_last() =~= x);
            assert(x.push(span_end(last)).last() == span_end(last));
            assert(span_end(last) <= t2);
            assert(pop_closed(x.push(span_end(last)), t2) == pop_closed(x, t2));
            assert(open_ends(spans, m, t2 as int) == open_ends(spans, m - 1, t2 as int));
        } else {
            // the top stays, so everything deeper stays too
            assert forall|j: int|
                0 <= j < m - 1 implies ((end_int(#[trigger] spans[j]) > t1) <==> (end_int(
                spans[j],
            ) > t2 as int)) by {
                if end_int(spans[j]) > t1 {
                    lemma_open_mono(spans, j, m - 1, t1);
                }
            }
            lemma_open_ends_same(spans, m - 1, t1, t2 as int);
            let x = open_ends(spans, m - 1, t1);
            assert(open_ends(spans, m, t1) == x.push(span_end(last)));
            assert(x.push(span_end(last)).last() == span_end(last));
            assert(!(span_end(last) <= t2));
            assert(pop_closed(x.push(span_end(last)), t2) == x.push(span_end(last)));
            assert(open_ends(spans, m, t2 as int) == open_ends(spans, m - 1, t2 as int).push(
                span_end(last),
            ));
        }
    }
}

/// What the sweep assigns at position `i` is the number of earlier spans
/// still open at `i`'s start.
proof fn lemma_depth_count(spans: Seq<SpanModel>, i: int)
    requires
        sorted_by(spans, span_order()),
        well_nested(spans),
        spans_end_in_range(spans),
        spans.len() <= u64::MAX,
        0 <= i < spans.len(),
    ensures
        assign_depths(spans)[i].depth == open_ends(spans, i, spans[i].timestamp as int).len(),
{
    lemma_pre_stack(spans, i);
    lemma_open_ends_len_le(spans, i, spans[i].timestamp as int);
}

/// Depth correctness on well-nested input: if span `b`'s interval is
/// contained in span `a`'s, and no other span encloses `b` more tightly than
/// `a` does, the sweep assigns `b` exactly one more level of depth than `a`.
/// This applies to each thread's spans exactly as [`EventsBuilder::build`]
/// produces them: sorted by the span order, then depth-annotated by
/// [`assign_depths`].
pub proof fn lemma_nesting_depth(spans: Seq<SpanModel>, a: int, b: int)
    requires
        sorted_by(spans, span_order()),
        well_nested(spans),
        spans_end_in_range(spans),
        spans.len() <= u64::MAX,
        0 <= a < b < spans.len(),
        encloses(spans[a], spans[b]),
        forall|k: int|
            0 <= k < spans.len() && k != a && k != b && encloses(#[trigger] spans[k], spans[b])
                ==> encloses(spans[k], spans[a]) && (spans[k].timestamp < spans[a].timestamp
                || end_int(spans[a]) < end_int(spans[k])),
    ensures
        assign_depths(spans)[b].depth == assign_depths(spans)[a].depth + 1,
{
    let sa = spans[a].timestamp as int;
    let sb = spans[b].timestamp as int;
    lemma_depth_count(spans, a);
    lemma_depth_count(spans, b);
    lemma_sorted_pair(spans, a, b);
    // between a and b no span is still open at b's start
    assert forall|j: int| a < j < b implies end_int(#[trigger] spans[j]) <= sb by {
        if end_int(spans[j]) > sb {
            lemma_sorted_pair(spans, j, b);
            lemma_sorted_pair(spans, a, j);
            assert(nested_or_disjoint(spans[j], spans[b]));
            assert(encloses(spans[j], spans[b])) by {
                if end_int(spans[b]) <= spans[j].timestamp {
                    // degenerate: b would be a point at j's start
                    assert(spans[j].timestamp == sb && end_int(spans[b]) == sb);
                } else if spans[b].timestamp <= spans[j].timestamp && end_int(spans[j]) <= end_int(
                    spans[b],
                ) {
                    // j inside b, sharing b's start: the sort puts the longer
                    // first, so the intervals coincide
                    assert(spans[j].timestamp == sb);
                    assert(end_int(spans[j]) >= end_int(spans[b]));
                }
            }
            assert(encloses(spans[j], spans[a]) && (spans[j].timestamp < spans[a].timestamp
                || end_int(spans[a]) < end_int(spans[j])));
            assert(spans[j].timestamp >= spans[a].timestamp);
            assert(end_int(spans[a]) < end_int(spans[j]));
            assert(spans[j].timestamp == spans[a].timestamp);
            assert(end_int(spans[a]) >= end_int(spans[j]));
            assert(false);
        }
    }
    lemma_open_ends_skip(spans, a + 1, b, sb);
    assert(end_int(spans[a]) > sb);
    assert(open_ends(spans, a + 1, sb) == open_ends(spans, a, sb).push(span_end(spans[a])));
    // before a, being open at a's start and being open at b's start coincide
    assert forall|j: int|
        0 <= j < a implies ((end_int(#[trigger] spans[j]) > sa) <==> (end_int(spans[j]) > sb)) by {
        if end_int(spans[j]) > sa {
            lemma_sorted_pair(spans, j, a);
            assert(nested_or_disjoint(spans[j], spans[a]));
            // j contains a (or coincides with it); coinciding would make j a
            // tighter encloser of b than a, which the premise rules out
            if end_int(spans[j]) < end_int(spans[a]) {
                assert(spans[j].timestamp == spans[a].timestamp);
                assert(end_int(spans[j]) >= end_int(spans[a]));
                assert(false);
            }
            if end_int(spans[j]) == end_int(spans[a]) && spans[j].timestamp == spans[a].timestamp {
                assert(encloses(spans[j], spans[b]));
                assert(spans[j].timestamp < spans[a].timestamp || end_int(spans[a]) < end_int(
                    spans[j],
                ));
                assert(false);
            }
            assert(end_int(spans[j]) >= end_int(spans[a]));
            assert(end_int(spans[j]) > sb);
        }
    }
    lemma_open_ends_same(spans, a, sa, sb);
    assert(open_ends(spans, b, sb).len() == open_ends(spans, a, sa).len() + 1);
}

/// Whether a vector of ids contains the given id.
fn contains_id(ids: &Vec<u64>, id: u64) -> (r: bool)
    ensures
        r == ids@.contains(id),
{
    let mut k: usize = 0;
    while k < ids.len()
        invariant
            0 <= k <= ids@.len(),
            forall|j: int| 0 <= j < k ==> ids@[j] != id,
        decreases ids@.len() - k,
    {
        if ids[k] == id {
            return true;
        }
        k = k + 1;
    }
    false
}

impl EventsBuilder {
    /// Reconstruct the accumulated events into an event log: normalize every
    /// timestamp against the global minimum, partition by thread id, sort
    /// each thread's spans by the span order, assign nesting depths with the
    /// stack sweep, and record the global extent. An empty input yields an
    /// empty log with `start_time` and `total_duration` both zero.
    pub fn build(self) -> (log: Events)
        requires
            spans_end_in_range(convert_models(self@, min_timestamp(self@))),
        ensures
            log.start_time == min_timestamp(self@),
            log.total_duration == max_rel_end(convert_models(self@, min_timestamp(self@))),
            log.threads@.dom() == span_ids(convert_models(self@, min_timestamp(self@))),
            forall|id: u64| #[trigger]
                log.threads@.dom().contains(id) ==> log.threads@[id]@.id == id
                    && log.threads@[id]@.spans == assign_depths(
                    spans_of_thread(convert_models(self@, min_timestamp(self@)), id).sort_by(
                        span_order(),
                    ),
                ),
    {
        broadcast use vstd::std_specs::hash::group_hash_axioms;

        let ghost models = self@;
        let ghost min = min_timestamp(models);
        let ghost converted = convert_models(models, min);
        let events = self.events;
        if events.len() == 0 {
            let log = Events { start_time: 0, total_duration: 0, threads: HashMap::new() };
            proof {
                assert(converted.len() == 0);
                assert(log.threads@.dom() =~= span_ids(converted));
            }
            return log;
        }
        // the global minimum timestamp
        let mut min_ts: u128 = events[0].timestamp;
        proof {
            assert(models.take(1).len() == 1);
            assert(min_ts == min_timestamp(models.take(1)));
        }
        let mut k: usize = 1;
        while k < events.len()
            invariant
                1 <= k <= events@.len(),
                models == crate::codec::event_models(events@),
                min_ts == min_timestamp(models.take(k as int)),
            decreases events@.len() - k,
        {
            let ts = events[k].timestamp;
            proof {
                assert(models.take(k + 1).drop_last() =~= models.take(k as int));
                assert(models.take(k + 1).last() == models[k as int]);
                assert(ts == models[k as int].timestamp);
            }
            if ts < min_ts {
                min_ts = ts;
            }
            k = k + 1;
        }
        proof {
            assert(models.take(models.len() as int) =~= models);
            assert(min_ts == min);
            assert forall|j: int|
                0 <= j < events@.len() implies min_ts <= (#[trigger] events@[j])@.timestamp by {
                lemma_min_timestamp_le(models, j);
            }
        }
        let spans = Self::convert(events, min_ts);
        let ghost spanms = span_models(spans@);
        proof {
            assert(spanms == converted);
        }
        // the global extent: the largest relative end offset
        let mut total: u64 = 0;
        proof {
            assert(total == max_rel_end(spanms.take(0)));
        }
        let mut j: usize = 0;
        while j < spans.len()
            invariant
                0 <= j <= spans@.len(),
                spanms == span_models(spans@),
                spans_end_in_range(spanms),
                total == max_rel_end(spanms.take(j as int)),
            decreases spans@.len() - j,
        {
            proof {
                assert(spans@[j as int]@ == spanms[j as int]);
                assert(spanms[j as int].timestamp + spanms[j as int].duration <= u64::MAX);
                assert(spanms.take(j + 1).drop_last() =~= spanms.take(j as int));
                assert(spanms.take(j + 1).last() == spanms[j as int]);
            }
            let end = spans[j].timestamp + spans[j].duration;
            if end > total {
                total = end;
            }
            j = j + 1;
        }
        proof {
            assert(spanms.take(spanms.len() as int) =~= spanms);
        }
        // every id, first-seen order, no duplicates
        let mut ids: Vec<u64> = Vec::new();
        proof {
            assert(ids@.to_set() =~= span_ids(spanms.take(0)));
        }
        let mut i: usize = 0;
        while i < spans.len()
            invariant
                0 <= i <= spans@.len(),
                spanms == span_models(spans@),
                ids@.no_duplicates(),
                ids@.to_set() == span_ids(spanms.take(i as int)),
            decreases spans@.len() - i,
        {
            let id = spans[i].id;
            proof {
                assert(spans@[i as int]@ == spanms[i as int]);
                assert(id == spanms[i as int].id);
            }
            let ghost old_ids = ids@;
            if !contains_id(&ids, id) {
                ids.push(id);
            }
            proof {
                assert forall|id2: u64| #[trigger]
                    ids@.to_set().contains(id2) <==> span_ids(spanms.take(i + 1)).contains(
                    id2,
                ) by {
                    if ids@.to_set().contains(id2) {
                        if old_ids.contains(id2) {
                            assert(old_ids.to_set().contains(id2));
                            assert(span_ids(spanms.take(i as int)).contains(id2));
                            let t = choose|t: int|
                                0 <= t < spanms.take(i as int).len() && (#[trigger] spanms.take(
                                    i as int,
                                )[t]).id == id2;
                            assert(0 <= t < i);
                            assert(spanms.take(i as int)[t] == spanms[t]);
                            assert(spanms.take(i + 1)[t] == spanms[t]);
                            assert(spanms.take(i + 1)[t].id == id2);
                        } else {
                            assert(ids@.contains(id2));
                            assert(id2 == id);
                            assert(spanms.take(i + 1)[i as int].id == id2);
                        }
                    } else {
                        if span_ids(spanms.take(i + 1)).contains(id2) {
                            let t = choose|t: int|
                                0 <= t < spanms.take(i + 1).len() && (#[trigger] spanms.take(
                                    i + 1,
                                )[t]).id == id2;
                            if t < i {
                                assert(spanms.take(i + 1)[t] == spanms[t]);
                                assert(spanms.take(i as int)[t] == spanms[t]);
                                assert(spanms.take(i as int)[t].id == id2);
                                assert(span_ids(spanms.take(i as int)).contains(id2));
                                assert(old_ids.to_set().contains(id2));
                                assert(old_ids.contains(id2));
                                if old_ids == ids@ {
                                } else {
                                    assert(ids@ == old_ids.push(id));
                                    let w = choose|w: int| 0 <= w < old_ids.len() && old_ids[w] == id2;
                                    assert(ids@[w] == id2);
                                }
                            } else {
                                assert(id2 == id);
                                assert(old_ids.contains(id) || ids@ == old_ids.push(id));
                                if ids@ == old_ids.push(id) {
                                    assert(ids@[old_ids.len() as int] == id);
                                }
                            }
                            assert(ids@.contains(id2));
                        }
                    }
                }
                assert(ids@.to_set() =~= span_ids(spanms.take(i + 1)));
            }
            i = i + 1;
        }
        proof {
            assert(spanms.take(spanms.len() as int) =~= spanms);
        }
        let mut threads = Self::partition(spans);
        proof {
            assert forall|kk: int|
                0 <= kk < ids@.len() implies threads@[ids@[kk]]@.spans == spans_of_thread(
                spanms,
                ids@[kk],
            ) by {
                assert(ids@.contains(ids@[kk]));
                assert(ids@.to_set().contains(ids@[kk]));
                assert(threads@.dom().contains(ids@[kk]));
            }
        }
        // sort and annotate each thread's spans
        let mut t_i: usize = 0;
        while t_i < ids.len()
            invariant
                0 <= t_i <= ids@.len(),
                ids@.no_duplicates(),
                ids@.to_set() == span_ids(spanms),
                threads@.dom() == span_ids(spanms),
                forall|id: u64| #[trigger]
                    threads@.dom().contains(id) ==> threads@[id]@.id == id,
                forall|kk: int|
                    0 <= kk < t_i ==> threads@[ids@[kk]]@.spans == assign_depths(
                        spans_of_thread(spanms, ids@[kk]).sort_by(span_order()),
                    ),
                forall|kk: int|
                    t_i <= kk < ids@.len() ==> threads@[ids@[kk]]@.spans == spans_of_thread(
                        spanms,
                        ids@[kk],
                    ),
                spans_end_in_range(spanms),
            decreases ids@.len() - t_i,
        {
            let id = ids[t_i];
            proof {
                assert(ids@.contains(ids@[t_i as int]));
                assert(threads@.dom().contains(id));
            }
            let ghost old_threads = threads@;
            let mut t = match threads.remove(&id) {
                Some(t) => t,
                None => vstd::pervasive::unreached(),
            };
            proof {
                assert(t == old_threads[id]);
                assert(span_models(t.spans@) == spans_of_thread(spanms, id));
                broadcast use vstd::seq_lib::group_filter_ensures;

                assert forall|kk: int|
                    0 <= kk < span_models(t.spans@).len() implies (#[trigger] span_models(
                    t.spans@,
                )[kk]).timestamp + span_models(t.spans@)[kk].duration <= u64::MAX by {
                    let f = spans_of_thread(spanms, id);
                    assert(f.contains(f[kk]));
                    spanms.lemma_filter_contains_rev(has_id(id), f[kk]);
                    let w = choose|w: int| 0 <= w < spanms.len() && spanms[w] == f[kk];
                    assert(spanms[w].timestamp + spanms[w].duration <= u64::MAX);
                }
            }
            Self::update_depth(&mut t.spans);
            threads.insert(id, t);
            proof {
                assert(threads@ =~= old_threads.insert(id, t));
                assert(threads@.dom() =~= span_ids(spanms));
                assert forall|kk: int|
                    0 <= kk < t_i + 1 implies threads@[ids@[kk]]@.spans == assign_depths(
                    spans_of_thread(spanms, ids@[kk]).sort_by(span_order()),
                ) by {
                    if kk < t_i {
                        assert(ids@[kk] != id);
                    }
                }
                assert forall|kk: int|
                    t_i + 1 <= kk < ids@.len() implies threads@[ids@[kk]]@.spans
                    == spans_of_thread(spanms, ids@[kk]) by {
                    assert(ids@[kk] != id);
                }
            }
            t_i = t_i + 1;
        }
        let log = Events { start_time: min_ts, total_duration: total, threads };
        proof {
            assert forall|id: u64| #[trigger]
                log.threads@.dom().contains(id) implies log.threads@[id]@.id == id
                && log.threads@[id]@.spans == assign_depths(
                spans_of_thread(converted, id).sort_by(span_order()),
            ) by {
                assert(ids@.to_set().contains(id));
                let kk = choose|kk: int| 0 <= kk < ids@.len() && ids@[kk] == id;
                assert(threads@[ids@[kk]]@.spans == assign_depths(
                    spans_of_thread(spanms, ids@[kk]).sort_by(span_order()),
                ));
            }
        }
        log
    }
}

/// The reconstructed, immutable event log: the artifact handed to a renderer
/// or exporter.
#[derive(Debug, Clone)]
pub struct Events {
    pub start_time: u128,
    pub total_duration: u64,
    pub threads: HashMap<u64, Thread>,
}

impl Events {
    /// Drop every thread; the recorded extent is left untouched.
    pub fn clear(&mut self)
        ensures
            final(self).threads@ == Map::<u64, Thread>::empty(),
            final(self).start_time == old(self).start_time,
            final(self).total_duration == old(self).total_duration,
    {
        broadcast use vstd::std_specs::hash::group_hash_axioms;

        self.threads.clear();
    }

    /// The ids of all threads in the log, each exactly once, in no promised
    /// order.
    pub fn thread_ids(&self) -> (ids: Vec<u64>)
        ensures
            ids@.to_set() == self.threads@.dom(),
            ids@.no_duplicates(),
    {
        broadcast use vstd::std_specs::hash::group_hash_axioms;

        let ghost ki = vstd::std_specs::hash::spec_keys_iter(&self.threads);
        let ghost expected = vstd::std_specs::iter::IteratorSpec::remaining(&ki);
        let mut ids: Vec<u64> = Vec::new();
        for k in it: self.threads.keys()
            invariant
                ids@.len() == it.index(),
                it.seq() == expected,
                forall|j: int| 0 <= j < ids@.len() ==> ids@[j] == *(#[trigger] expected[j]),
        {
            ids.push(*k);
        }
        proof {
            assert(ids@.len() == expected.len());
            assert(expected.unref().to_set() =~= self.threads@.dom());
            assert(ids@ =~= expected.unref());
            assert forall|p: int, q: int| 0 <= p < q < ids@.len() implies ids@[p] != ids@[q] by {
                assert(expected.no_duplicates());
                assert(expected[p] != expected[q]);
                assert(expected.len() == self.threads@.dom().len());
            }
        }
        ids
    }

    /// Whether the log holds no threads at all.
    pub fn is_empty(&self) -> (r: bool)
        ensures
            r == self.threads@.dom().is_empty(),
    {
        broadcast use vstd::std_specs::hash::group_hash_axioms;

        self.threads.is_empty()
    }
}

} // verus!
