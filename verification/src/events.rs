//! The event sink: every structured event emitted in the process passes a
//! denylist filter, and the survivors are kept in a bounded ring buffer that
//! always holds the most recent events, most-recent-first.

use crate::serialization::contains_seq;
use crate::serialization::str_contains;
use crate::serialization::str_eq;
use std::collections::VecDeque;
use vstd::prelude::*;

verus! {

/// Severity of an emitted event.
#[derive(Clone, Copy, PartialEq, Eq, Structural, Debug)]
pub enum Level {
    Error,
    Warn,
    Info,
    Debug,
    Trace,
}

/// The mathematical content of a record: field names paired with rendered
/// values, in the order the fields were first recorded.
pub ghost struct RecordModel {
    pub fields: Seq<(Seq<char>, Seq<char>)>,
}

/// Whether position `i` of `fields` holds the field named `f`.
pub open spec fn field_at(fields: Seq<(Seq<char>, Seq<char>)>, f: Seq<char>, i: int) -> bool {
    0 <= i < fields.len() && fields[i].0 == f
}

/// Whether `fields` holds a field named `f`.
pub open spec fn has_field(fields: Seq<(Seq<char>, Seq<char>)>, f: Seq<char>) -> bool {
    exists|i: int| field_at(fields, f, i)
}

/// The structured fields of one event, each rendered to text, with field
/// names unique.
pub struct StoredRecord {
    properties: Vec<(String, String)>,
}

impl View for StoredRecord {
    type V = RecordModel;

    closed spec fn view(&self) -> RecordModel {
        RecordModel { fields: self.properties@.map_values(|p: (String, String)| (p.0@, p.1@)) }
    }
}

impl StoredRecord {
    /// Field names never repeat.
    pub open spec fn wf(self) -> bool {
        forall|i: int, j: int|
            0 <= i < j < self@.fields.len() ==> (#[trigger] self@.fields[i]).0 != (
            #[trigger] self@.fields[j]).0
    }

    /// A record with no fields.
    pub fn new() -> (record: Self)
        ensures
            record.wf(),
            record@.fields.len() == 0,
    {
        let record = StoredRecord { properties: Vec::new() };
        proof {
            assert(record@.fields =~= Seq::<(Seq<char>, Seq<char>)>::empty());
        }
        record
    }

    /// Record `value` under the field name `field`: a new name is appended,
    /// a repeated name replaces the value recorded before.
    pub fn record_str(&mut self, field: String, value: String)
        requires
            old(self).wf(),
        ensures
            final(self).wf(),
            !has_field(old(self)@.fields, field@) ==> final(self)@.fields == old(
                self,
            )@.fields.push((field@, value@)),
            forall|i: int|
                field_at(old(self)@.fields, field@, i) ==> final(self)@.fields == old(
                    self,
                )@.fields.update(i, (field@, value@)),
    {
        let mut i: usize = 0;
        let n = self.properties.len();
        while i < n
            invariant
                0 <= i <= n,
                *self == *old(self),
                old(self).wf(),
                n == self@.fields.len(),
                forall|k: int| 0 <= k < i ==> !field_at(self@.fields, field@, k),
            decreases n - i,
        {
            proof {
                assert(self@.fields[i as int] == (self.properties@[i as int].0@, self.properties@[
                    i as int
                ].1@));
            }
            if str_eq(self.properties[i].0.as_str(), field.as_str()) {
                proof {
                    assert(field_at(self@.fields, field@, i as int));
                }
                let _old_pair = self.properties.remove(i);
                self.properties.insert(i, (field, value));
                proof {
                    assert forall|k: int|
                        0 <= k < self@.fields.len() implies #[trigger] self@.fields[k] == old(
                        self,
                    )@.fields.update(i as int, (field@, value@))[k] by {
                        assert(self@.fields[k] == (self.properties@[k].0@, self.properties@[k].1@));
                        if k != i as int {
                            assert(self.properties@[k] == old(self).properties@[k]);
                            assert(old(self)@.fields[k] == (old(self).properties@[k].0@, old(
                                self,
                            ).properties@[k].1@));
                        }
                    }
                    assert(self@.fields =~= old(self)@.fields.update(i as int, (field@, value@)));
                    assert forall|k: int|
                        field_at(old(self)@.fields, field@, k) implies self@.fields == old(
                        self,
                    )@.fields.update(k, (field@, value@)) by {
                        if k != i as int {
                            assert(old(self)@.fields[k].0 == old(self)@.fields[i as int].0);
                            assert(false);
                        }
                    }
                    assert forall|a: int, b: int|
                        0 <= a < b < self@.fields.len() implies (#[trigger] self@.fields[a]).0 != (
                    #[trigger] self@.fields[b]).0 by {
                        assert(old(self)@.fields[i as int].0 == field@);
                        assert(self@.fields[a].0 == old(self)@.fields[a].0);
                        assert(self@.fields[b].0 == old(self)@.fields[b].0);
                    }
                }
                return ;
            }
            i += 1;
        }
        proof {
            assert(!has_field(self@.fields, field@));
        }
        self.properties.push((field, value));
        proof {
            assert(self@.fields =~= old(self)@.fields.push((field@, value@)));
            assert forall|a: int, b: int|
                0 <= a < b < self@.fields.len() implies (#[trigger] self@.fields[a]).0 != (
            #[trigger] self@.fields[b]).0 by {
                assert(self@.fields[a] == old(self)@.fields.push((field@, value@))[a]);
                assert(self@.fields[b] == old(self)@.fields.push((field@, value@))[b]);
                if b == self@.fields.len() - 1 {
                    assert(!field_at(old(self)@.fields, field@, a));
                }
            }
        }
    }

    /// Look a field up by name.
    pub fn get(&self, field: &str) -> (found: Option<&String>)
        requires
            self.wf(),
        ensures
            found is Some <==> has_field(self@.fields, field@),
            forall|i: int|
                field_at(self@.fields, field@, i) ==> found is Some && found->0@
                    == self@.fields[i].1,
    {
        let mut i: usize = 0;
        let n = self.properties.len();
        while i < n
            invariant
                0 <= i <= n,
                self.wf(),
                n == self@.fields.len(),
                forall|k: int| 0 <= k < i ==> !field_at(self@.fields, field@, k),
            decreases n - i,
        {
            proof {
                assert(self@.fields[i as int] == (self.properties@[i as int].0@, self.properties@[
                    i as int
                ].1@));
            }
            if str_eq(self.properties[i].0.as_str(), field) {
                proof {
                    assert(field_at(self@.fields, field@, i as int));
                    assert forall|k: int| field_at(self@.fields, field@, k) implies self@.fields[
                        i as int
                    ].1 == self@.fields[k].1 by {
                        if k != i as int {
                            assert(self@.fields[k].0 == self@.fields[i as int].0);
                            assert(false);
                        }
                    }
                }
                return Some(&self.properties[i].1);
            }
            i += 1;
        }
        proof {
            assert(!has_field(self@.fields, field@));
        }
        None
    }

    /// The number of recorded fields.
    pub fn len(&self) -> (n: usize)
        ensures
            n == self@.fields.len(),
    {
        self.properties.len()
    }

    /// The field name and value at position `i`.
    pub fn pair_at(&self, i: usize) -> (pair: (&String, &String))
        requires
            i < self@.fields.len(),
        ensures
            pair.0@ == self@.fields[i as int].0,
            pair.1@ == self@.fields[i as int].1,
    {
        proof {
            assert(self@.fields[i as int] == (self.properties@[i as int].0@, self.properties@[
                i as int
            ].1@));
        }
        (&self.properties[i].0, &self.properties[i].1)
    }

    /// A copy of this record, field by field.
    pub fn duplicate(&self) -> (copy: Self)
        ensures
            copy@ == self@,
    {
        let mut properties: Vec<(String, String)> = Vec::new();
        let mut i: usize = 0;
        let n = self.properties.len();
        while i < n
            invariant
                0 <= i <= n,
                n == self.properties@.len(),
                properties@.len() == i,
                forall|k: int|
                    0 <= k < i ==> (#[trigger] properties@[k]).0@ == self.properties@[k].0@
                        && properties@[k].1@ == self.properties@[k].1@,
            decreases n - i,
        {
            let pair = (self.properties[i].0.clone(), self.properties[i].1.clone());
            properties.push(pair);
            i += 1;
        }
        let copy = StoredRecord { properties };
        proof {
            assert forall|k: int|
                0 <= k < copy@.fields.len() implies #[trigger] copy@.fields[k]
                == self@.fields[k] by {
                assert(copy@.fields[k] == (copy.properties@[k].0@, copy.properties@[k].1@));
                assert(self@.fields[k] == (self.properties@[k].0@, self.properties@[k].1@));
            }
            assert(copy@.fields =~= self@.fields);
        }
        copy
    }
}

/// The mathematical content of a stored event.
pub ghost struct EventModel {
    pub target: Seq<char>,
    pub time_millis: int,
    pub record: RecordModel,
}

/// One surviving event: its source, the wall-clock time it was recorded, in
/// milliseconds since the Unix epoch, and its rendered fields.
pub struct StoredEvent {
    pub target: String,
    pub time_millis: i64,
    pub record: StoredRecord,
}

impl View for StoredEvent {
    type V = EventModel;

    open spec fn view(&self) -> EventModel {
        EventModel {
            target: self.target@,
            time_millis: self.time_millis as int,
            record: self.record@,
        }
    }
}

impl StoredEvent {
    /// A copy of this event, field by field.
    pub fn duplicate(&self) -> (copy: Self)
        ensures
            copy@ == self@,
    {
        StoredEvent {
            target: self.target.clone(),
            time_millis: self.time_millis,
            record: self.record.duplicate(),
        }
    }
}

/// The newest `cap` entries of `history`, most recent first.
pub open spec fn recent_of(history: Seq<EventModel>, cap: int) -> Seq<EventModel> {
    Seq::new(
        if history.len() < cap {
            history.len()
        } else {
            cap as nat
        },
        |i: int| history[history.len() - 1 - i],
    )
}

/// The models of a sequence of stored events.
pub open spec fn models_of(events: Seq<StoredEvent>) -> Seq<EventModel> {
    events.map_values(|e: StoredEvent| e@)
}

/// A fixed-capacity ring of the most recently inserted events: when full, the
/// oldest entry is evicted to make room, which is the designed steady state
/// and never an error.
pub struct EventBuffer {
    events: VecDeque<StoredEvent>,
    capacity: usize,
    history: Ghost<Seq<EventModel>>,
}

impl EventBuffer {
    /// Every event ever inserted, in insertion order.
    pub closed spec fn inserted(self) -> Seq<EventModel> {
        self.history@
    }

    /// The fixed capacity.
    pub closed spec fn cap(self) -> int {
        self.capacity as int
    }

    /// What the buffer holds now: the newest `cap` insertions, newest first.
    pub open spec fn recent(self) -> Seq<EventModel> {
        recent_of(self.inserted(), self.cap())
    }

    pub closed spec fn wf(self) -> bool {
        &&& self.capacity > 0
        &&& models_of(self.events@) == self.recent()
    }

    /// An empty buffer that will hold at most `capacity` events.
    pub fn with_capacity(capacity: usize) -> (buffer: Self)
        requires
            capacity > 0,
        ensures
            buffer.wf(),
            buffer.inserted().len() == 0,
            buffer.cap() == capacity,
    {
        let buffer = EventBuffer {
            events: VecDeque::with_capacity(capacity),
            capacity,
            history: Ghost(Seq::empty()),
        };
        proof {
            assert(models_of(buffer.events@) =~= buffer.recent());
        }
        buffer
    }

    /// Insert `event` as the newest entry, evicting the oldest entry first
    /// when the buffer is full.
    pub fn insert(&mut self, event: StoredEvent)
        requires
            old(self).wf(),
        ensures
            final(self).wf(),
            final(self).cap() == old(self).cap(),
            final(self).inserted() == old(self).inserted().push(event@),
    {
        let full = self.events.len() == self.capacity;
        if full {
            let _evicted = self.events.pop_back();
        }
        self.events.push_front(event);
        proof {
            self.history@ = self.history@.push(event@);
            assert(models_of(old(self).events@).len() == old(self).recent().len());
            if full {
                assert(old(self).inserted().len() >= self.cap());
                assert(self.events@ =~= seq![event] + old(self).events@.subrange(
                    0,
                    old(self).events@.len() - 1,
                ));
            } else {
                assert(self.events@ =~= seq![event] + old(self).events@);
            }
            assert(models_of(self.events@).len() == self.recent().len());
            assert forall|k: int|
                0 <= k < models_of(self.events@).len() implies #[trigger] models_of(self.events@)[k]
                == self.recent()[k] by {
                assert(models_of(self.events@)[k] == self.events@[k]@);
                if k > 0 {
                    assert(self.events@[k] == old(self).events@[k - 1]);
                    assert(models_of(old(self).events@)[k - 1] == old(self).events@[k - 1]@);
                    assert(models_of(old(self).events@)[k - 1] == old(self).recent()[k - 1]);
                }
            }
            assert(models_of(self.events@) =~= self.recent());
        }
    }

    /// A point-in-time snapshot of the buffer, newest first; iterating the
    /// copy can never race with later insertions.
    pub fn snapshot(&self) -> (events: Vec<StoredEvent>)
        requires
            self.wf(),
        ensures
            models_of(events@) == self.recent(),
    {
        let mut events: Vec<StoredEvent> = Vec::new();
        let mut i: usize = 0;
        let n = self.events.len();
        while i < n
            invariant
                0 <= i <= n,
                n == self.events@.len(),
                self.wf(),
                events@.len() == i,
                forall|k: int| 0 <= k < i ==> (#[trigger] events@[k])@ == self.events@[k]@,
            decreases n - i,
        {
            let copy = self.events[i].duplicate();
            events.push(copy);
            i += 1;
        }
        proof {
            assert forall|k: int|
                0 <= k < models_of(events@).len() implies #[trigger] models_of(events@)[k]
                == models_of(self.events@)[k] by {}
            assert(models_of(events@) =~= models_of(self.events@));
        }
        events
    }
}

/// Bound on how many events the process-wide event layer retains.
pub const MAX_EVENTS: usize = 250;

/// Sources whose chatter is dropped before it can reach the ring buffer:
/// the rendering backend, the transport layer's own logging, and per-frame
/// diagnostics.
pub open spec fn target_denied(target: Seq<char>) -> bool {
    ||| contains_seq(target, "wgpu"@)
    ||| contains_seq(target, "warp"@)
    ||| contains_seq(target, "hyper"@)
    ||| contains_seq(target, "draw_state"@)
    ||| contains_seq(target, "diagnostic"@)
}

/// Whether an event is filtered out: a denylisted source, or the most
/// verbose severity.
pub open spec fn event_denied(target: Seq<char>, level: Level) -> bool {
    target_denied(target) || level is Trace
}

/// The process-wide event sink: filters every emitted event and retains the
/// survivors in a bounded ring buffer.
pub struct EventLayer {
    buffer: EventBuffer,
}

impl EventLayer {
    /// Every event that survived the filter, in arrival order.
    pub closed spec fn accepted(self) -> Seq<EventModel> {
        self.buffer.inserted()
    }

    /// What `poll_recent_events` returns.
    pub closed spec fn recent(self) -> Seq<EventModel> {
        self.buffer.recent()
    }

    /// The capacity of the sink's ring buffer.
    pub closed spec fn cap(self) -> int {
        self.buffer.cap()
    }

    pub closed spec fn wf(self) -> bool {
        &&& self.buffer.wf()
        &&& self.buffer.cap() == MAX_EVENTS
        &&& forall|i: int|
            0 <= i < self.accepted().len() ==> !target_denied(
                (#[trigger] self.accepted()[i]).target,
            )
    }

    /// The retained window is the newest slice of what was accepted.
    pub proof fn lemma_recent_is_window(self)
        ensures
            self.recent() == recent_of(self.accepted(), self.cap()),
    {
    }

    /// A well-formed sink's ring holds at most the fixed bound of events.
    pub proof fn lemma_capacity(self)
        requires
            self.wf(),
        ensures
            self.cap() == MAX_EVENTS,
            self.recent().len() <= MAX_EVENTS,
    {
    }

    /// A fresh sink with an empty buffer.
    pub fn new() -> (layer: Self)
        ensures
            layer.wf(),
            layer.accepted().len() == 0,
            layer.cap() == MAX_EVENTS,
    {
        EventLayer { buffer: EventBuffer::with_capacity(MAX_EVENTS) }
    }

    /// Observe one emitted event: denylisted or most-verbose events are
    /// dropped, everything else becomes the newest stored event.
    pub fn on_event(&mut self, target: String, level: Level, time_millis: i64, record: StoredRecord)
        requires
            old(self).wf(),
        ensures
            final(self).wf(),
            final(self).cap() == old(self).cap(),
            event_denied(target@, level) ==> final(self).accepted() == old(self).accepted(),
            !event_denied(target@, level) ==> final(self).accepted() == old(self).accepted().push(
                EventModel { target: target@, time_millis: time_millis as int, record: record@ },
            ),
    {
        if str_contains(target.as_str(), "wgpu") || str_contains(target.as_str(), "warp")
            || str_contains(target.as_str(), "hyper") || str_contains(target.as_str(), "draw_state")
            || str_contains(target.as_str(), "diagnostic") || level == Level::Trace {
            return ;
        }
        self.buffer.insert(StoredEvent { target, time_millis, record });
        proof {
            assert forall|i: int|
                0 <= i < self.accepted().len() implies !target_denied(
                (#[trigger] self.accepted()[i]).target,
            ) by {
                if i < old(self).accepted().len() {
                    assert(self.accepted()[i] == old(self).accepted()[i]);
                }
            }
        }
    }

    /// A snapshot of the retained events, newest first.
    pub fn poll_recent_events(&self) -> (events: Vec<StoredEvent>)
        requires
            self.wf(),
        ensures
            models_of(events@) == self.recent(),
    {
        self.buffer.snapshot()
    }
}

/// The ring buffer window: once more than `cap` events have been accepted,
/// exactly the `cap` most recently accepted are retained, most recent first;
/// fewer accepted events are all retained; the window never exceeds `cap`.
pub proof fn lemma_ring_buffer_window(history: Seq<EventModel>, cap: int)
    requires
        cap > 0,
    ensures
        recent_of(history, cap).len() <= cap,
        history.len() >= cap ==> recent_of(history, cap).len() == cap,
        history.len() < cap ==> recent_of(history, cap).len() == history.len(),
        forall|i: int|
            0 <= i < recent_of(history, cap).len() ==> recent_of(history, cap)[i] == history[
                history.len() - 1 - i
            ],
{
}

/// A denylisted source is never visible in a poll, whatever order events
/// arrived in: everything retained came through the filter.
pub proof fn lemma_denylisted_never_polled(layer: EventLayer, i: int)
    requires
        layer.wf(),
        0 <= i < layer.recent().len(),
    ensures
        !target_denied(layer.recent()[i].target),
{
    assert(layer.recent()[i] == layer.accepted()[layer.accepted().len() - 1 - i]);
}

} // verus!
