//! The capture layer.
//!
//! Each OS thread owns one [`CaptureBuffer`]; completed scopes are recorded
//! into it and the buffer spills its encoded contents once it grows past
//! [`SPILL_CONSTANT`] entries, bounding per-thread memory. A [`ScopedProfiler`]
//! stands for one open scope and produces the [`Event`] when it closes. The
//! [`InitLatch`] makes initialization idempotent: the process-exit flush is
//! registered exactly once however often initialization runs.
//!
//! Writing spilled bytes to the sink, the per-thread registry and the actual
//! exit hook are the embedding program's concern; this module holds every
//! decision those parts act on.

use vstd::prelude::*;

verus! {

use crate::codec::{Event, EventModel, event_models, event_wf, spec_encode, serialize_events};

/// How many buffered events a thread keeps before it spills to the sink.
pub const SPILL_CONSTANT: usize = 100;

/// Relies on `std::time::SystemTime::now`: the current time, converted to
/// nanoseconds since the Unix epoch (zero if the clock reads earlier than the
/// epoch). Nothing is promised of the value: the clock is not a function of
/// the program's state.
#[verifier::external_body]
pub(crate) fn epoch_nanos_now() -> u128 {
    match std::time::SystemTime::now().duration_since(std::time::SystemTime::UNIX_EPOCH) {
        Ok(since) => since.as_nanos(),
        Err(_) => 0,
    }
}

/// Every buffered event can be encoded faithfully.
pub open spec fn buffer_wf(models: Seq<EventModel>) -> bool {
    forall|k: int| 0 <= k < models.len() ==> event_wf(#[trigger] models[k])
}

/// One thread's in-memory event buffer.
pub struct CaptureBuffer {
    events: Vec<Event>,
}

impl View for CaptureBuffer {
    type V = Seq<EventModel>;

    closed spec fn view(&self) -> Seq<EventModel> {
        event_models(self.events@)
    }
}

impl CaptureBuffer {
    /// The buffer is in its steady state: encodable contents, at or below the
    /// spill threshold.
    pub open spec fn wf(&self) -> bool {
        buffer_wf(self@) && self@.len() <= SPILL_CONSTANT
    }

    /// An empty buffer with the spill capacity reserved up front.
    pub fn new() -> (b: Self)
        ensures
            b@ == Seq::<EventModel>::empty(),
            b.wf(),
    {
        let b = CaptureBuffer { events: Vec::with_capacity(SPILL_CONSTANT) };
        proof {
            assert(b@ =~= Seq::<EventModel>::empty());
        }
        b
    }

    /// Append one event. If the buffer then exceeds the spill threshold, it
    /// is drained: the encoded bytes of everything buffered — the new event
    /// included — are handed back for one contiguous append to the sink, and
    /// the buffer is cleared.
    ///
    /// The clearing is unconditional by policy: if the caller's append to
    /// the sink later fails, the drained events are lost. Bounded memory is
    /// preferred over retry — a failed sink must not make the instrumented
    /// program's buffers grow without limit.
    pub fn record_event(&mut self, event: Event) -> (spill: Option<Vec<u8>>)
        requires
            old(self).wf(),
            event_wf(event@),
        ensures
            final(self).wf(),
            match spill {
                Some(bytes) => {
                    &&& old(self)@.len() + 1 > SPILL_CONSTANT
                    &&& bytes@ == spec_encode(old(self)@.push(event@))
                    &&& final(self)@ == Seq::<EventModel>::empty()
                },
                None => {
                    &&& old(self)@.len() + 1 <= SPILL_CONSTANT
                    &&& final(self)@ == old(self)@.push(event@)
                },
            },
    {
        let ghost e = event@;
        self.events.push(event);
        proof {
            assert(self@ =~= old(self)@.push(e));
        }
        if self.events.len() > SPILL_CONSTANT {
            Some(self.dump_current())
        } else {
            None
        }
    }

    /// Drain the buffer: encode everything it holds and clear it. This is
    /// the spill path; the caller appends the bytes to the sink as one
    /// contiguous write.
    pub fn dump_current(&mut self) -> (bytes: Vec<u8>)
        requires
            buffer_wf(old(self)@),
        ensures
            bytes@ == spec_encode(old(self)@),
            final(self)@ == Seq::<EventModel>::empty(),
            final(self).wf(),
    {
        proof {
            assert forall|i: int|
                0 <= i < self.events@.len() implies event_wf(#[trigger] self.events@[i]@) by {
                assert(self@[i] == self.events@[i]@);
            }
        }
        let bytes = serialize_events(self.events.as_slice());
        self.events.clear();
        proof {
            assert(self@ =~= Seq::<EventModel>::empty());
        }
        bytes
    }

    /// Encode everything the buffer holds without clearing it. This is the
    /// process-exit flush path, which drains no buffer: it may run while the
    /// owning thread is gone, and it must never lose what a spill already
    /// wrote.
    pub fn dump_completion(&self) -> (bytes: Vec<u8>)
        requires
            buffer_wf(self@),
        ensures
            bytes@ == spec_encode(self@),
    {
        proof {
            assert forall|i: int|
                0 <= i < self.events@.len() implies event_wf(#[trigger] self.events@[i]@) by {
                assert(self@[i] == self.events@[i]@);
            }
        }
        serialize_events(self.events.as_slice())
    }
}

/// One open scope: created when the scope begins, closed on every exit path
/// by the embedding program, yielding the scope's [`Event`].
pub struct ScopedProfiler {
    id: u64,
    start_nanos: u128,
    name: String,
}

impl ScopedProfiler {
    /// The reporting thread's id.
    pub closed spec fn spec_id(&self) -> u64 {
        self.id
    }

    /// The instant the scope began, in epoch nanoseconds.
    pub closed spec fn spec_start(&self) -> u128 {
        self.start_nanos
    }

    /// The scope's name.
    pub closed spec fn spec_name(&self) -> Seq<char> {
        self.name@
    }

    /// Open a scope now, for the thread with the given id.
    pub fn new(name: String, id: u64) -> (p: Self)
        ensures
            p.spec_id() == id,
            p.spec_name() == name@,
    {
        let start_nanos = epoch_nanos_now();
        ScopedProfiler { id, start_nanos, name }
    }

    /// Close the scope at the given instant: the event carries the end time
    /// as its timestamp and the elapsed nanoseconds as its duration,
    /// truncated to 64 bits. A clock that ran backwards yields duration zero.
    pub fn close_at(self, end_nanos: u128) -> (event: Event)
        ensures
            event@.id == self.spec_id(),
            event@.name == self.spec_name(),
            event@.timestamp == end_nanos,
            event@.duration == if end_nanos >= self.spec_start() {
                ((end_nanos - self.spec_start()) as u64)
            } else {
                0u64
            },
    {
        let duration: u64 = if end_nanos >= self.start_nanos {
            (end_nanos - self.start_nanos) as u64
        } else {
            0
        };
        Event { id: self.id, duration, timestamp: end_nanos, name: self.name }
    }

    /// Close the scope now. What the clock returns decides the timestamp and
    /// duration; [`Self::close_at`] pins down the event for every reading.
    pub fn finish(self) -> (event: Event)
        ensures
            event@.id == self.spec_id(),
            event@.name == self.spec_name(),
    {
        let end_nanos = epoch_nanos_now();
        self.close_at(end_nanos)
    }
}

/// The process-wide "already initialized" state: initialization must register
/// the process-exit flush exactly once, however many times it is called.
pub struct InitLatch {
    registered: bool,
}

impl InitLatch {
    /// Whether the exit flush has been registered.
    pub closed spec fn spec_registered(&self) -> bool {
        self.registered
    }

    /// A fresh latch: nothing registered yet.
    pub fn new() -> (g: Self)
        ensures
            !g.spec_registered(),
    {
        InitLatch { registered: false }
    }

    /// A single initialization step. The result says if the exit flush still
    /// needs registering; afterwards the latch is set.
    pub fn try_register(&mut self) -> (register_now: bool)
        ensures
            register_now == !old(self).spec_registered(),
            final(self).spec_registered(),
    {
        let register_now = !self.registered;
        self.registered = true;
        register_now
    }
}

/// How many of `calls` successive initialization steps register the exit
/// flush, starting from a latch in state `registered`. A step registers when
/// the latch is unset, and sets it.
pub open spec fn init_registrations(registered: bool, calls: nat) -> nat
    decreases calls,
{
    if calls == 0 {
        0
    } else {
        (if !registered {
            1nat
        } else {
            0nat
        }) + init_registrations(true, (calls - 1) as nat)
    }
}

/// Initialization is idempotent: of any positive number of calls on a fresh
/// latch, the first registers and the rest do not; on a set latch no call
/// registers at all.
pub proof fn lemma_init_idempotent(calls: nat)
    requires
        calls >= 1,
    ensures
        init_registrations(false, calls) == 1,
        init_registrations(true, calls) == 0,
    decreases calls,
{
    if calls == 1 {
        assert(init_registrations(true, 0) == 0);
        assert(init_registrations(false, 1) == 1 + init_registrations(true, 0));
        assert(init_registrations(true, 1) == 0 + init_registrations(true, 0));
    } else {
        lemma_init_idempotent((calls - 1) as nat);
        assert(init_registrations(false, calls) == 1 + init_registrations(true, (calls - 1) as nat));
        assert(init_registrations(true, calls) == 0 + init_registrations(true, (calls - 1) as nat));
    }
}

} // verus!
