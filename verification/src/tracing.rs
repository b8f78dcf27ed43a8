//! The process-wide subscriber: allocates span ids, filters events with its
//! own, shorter denylist, and keeps its own bounded ring of recent events.

use crate::events::EventBuffer;
use crate::events::EventModel;
use crate::events::Level;
use crate::events::StoredEvent;
use crate::events::StoredRecord;
use crate::events::models_of;
use crate::events::recent_of;
use crate::serialization::contains_seq;
use crate::serialization::str_contains;
use vstd::prelude::*;

verus! {

/// Bound on how many events the subscriber retains.
pub const MAX_PENDING_EVENTS: usize = 250;

/// Sources the subscriber drops: the rendering backend and the transport
/// layer's own logging.
pub open spec fn pending_target_denied(target: Seq<char>) -> bool {
    ||| contains_seq(target, "wgpu"@)
    ||| contains_seq(target, "warp"@)
    ||| contains_seq(target, "hyper"@)
}

/// Whether the subscriber filters an event out: a denylisted source, or the
/// most verbose severity.
pub open spec fn pending_event_denied(target: Seq<char>, level: Level) -> bool {
    pending_target_denied(target) || level is Trace
}

/// The structured-logging backend registered once, process-wide: every span
/// gets a fresh id, and every surviving event lands in the pending ring.
pub struct TracingSubscriber {
    next_id: u64,
    buffer: EventBuffer,
}

impl TracingSubscriber {
    /// The id the next span will receive.
    pub closed spec fn next_span_id(self) -> int {
        self.next_id as int
    }

    /// Every event that survived the filter, in arrival order.
    pub closed spec fn pending(self) -> Seq<EventModel> {
        self.buffer.inserted()
    }

    /// What a snapshot of the ring returns.
    pub closed spec fn recent(self) -> Seq<EventModel> {
        self.buffer.recent()
    }

    pub closed spec fn wf(self) -> bool {
        &&& self.buffer.wf()
        &&& self.buffer.cap() == MAX_PENDING_EVENTS
        &&& self.next_id >= 1
        &&& forall|i: int|
            0 <= i < self.pending().len() ==> !pending_target_denied(
                (#[trigger] self.pending()[i]).target,
            )
    }

    /// The retained window is the newest slice of what was accepted: the
    /// ring never holds more than the fixed bound of events.
    pub proof fn lemma_recent_is_window(self)
        requires
            self.wf(),
        ensures
            self.recent() == recent_of(self.pending(), MAX_PENDING_EVENTS as int),
            self.recent().len() <= MAX_PENDING_EVENTS,
    {
    }

    /// A fresh subscriber: span ids start at one, the ring is empty.
    pub fn new() -> (subscriber: Self)
        ensures
            subscriber.wf(),
            subscriber.next_span_id() == 1,
            subscriber.pending().len() == 0,
    {
        TracingSubscriber { next_id: 1, buffer: EventBuffer::with_capacity(MAX_PENDING_EVENTS) }
    }

    /// Allocate the id for a newly created span: ids are handed out in
    /// strictly increasing order, starting at one, so no two spans share one.
    pub fn new_span(&mut self) -> (id: u64)
        requires
            old(self).wf(),
            old(self).next_span_id() < u64::MAX,
        ensures
            final(self).wf(),
            id == old(self).next_span_id(),
            final(self).next_span_id() == old(self).next_span_id() + 1,
            final(self).pending() == old(self).pending(),
    {
        let id = self.next_id;
        self.next_id = self.next_id + 1;
        proof {
            assert(self.buffer == old(self).buffer);
            assert(self.buffer.wf());
            assert(self.pending() == old(self).pending());
            assert forall|i: int|
                0 <= i < self.pending().len() implies !pending_target_denied(
                (#[trigger] self.pending()[i]).target,
            ) by {
                assert(self.pending()[i] == old(self).pending()[i]);
            }
        }
        id
    }

    /// Observe one emitted event: denylisted or most-verbose events are
    /// dropped, everything else becomes the newest pending event.
    pub fn event(&mut self, target: String, level: Level, time_millis: i64, record: StoredRecord)
        requires
            old(self).wf(),
        ensures
            final(self).wf(),
            final(self).next_span_id() == old(self).next_span_id(),
            pending_event_denied(target@, level) ==> final(self).pending() == old(self).pending(),
            !pending_event_denied(target@, level) ==> final(self).pending() == old(
                self,
            ).pending().push(
                EventModel { target: target@, time_millis: time_millis as int, record: record@ },
            ),
    {
        if str_contains(target.as_str(), "wgpu") || str_contains(target.as_str(), "warp")
            || str_contains(target.as_str(), "hyper") || level == Level::Trace {
            return ;
        }
        self.buffer.insert(StoredEvent { target, time_millis, record });
        proof {
            assert forall|i: int|
                0 <= i < self.pending().len() implies !pending_target_denied(
                (#[trigger] self.pending()[i]).target,
            ) by {
                if i < old(self).pending().len() {
                    assert(self.pending()[i] == old(self).pending()[i]);
                }
            }
        }
    }

    /// Every subscriber callback is enabled: filtering happens per event.
    pub fn enabled(&self) -> (enabled: bool)
        ensures
            enabled,
    {
        true
    }

    /// A snapshot of the retained events, newest first.
    pub fn pending_events(&self) -> (events: Vec<StoredEvent>)
        requires
            self.wf(),
        ensures
            models_of(events@) == self.recent(),
    {
        self.buffer.snapshot()
    }
}

} // verus!
