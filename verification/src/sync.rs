//! The world task bridge: a multi-producer, single-consumer queue of deferred
//! tasks per drain point, plus a single-use result slot per scheduled task.
//!
//! Producers on any thread enqueue a task bound to a drain point and receive a
//! ticket; the owning thread takes the tasks for a point in FIFO order, runs
//! each one with exclusive world access, and fills the ticket's slot with the
//! result; the producer then consumes the slot at most once.

use vstd::prelude::*;

verus! {

/// A named moment in the owning thread's control flow where all tasks queued
/// for that moment are executed with exclusive world access.
#[derive(Clone, Copy, PartialEq, Eq, Structural, Debug)]
pub enum ExecutionChannel {
    /// Before the first system of a frame runs.
    FrameStart,
    /// After the last system of a frame has run.
    FrameEnd,
    /// Inside the secondary render app's own update.
    RenderApp,
}

/// The lifecycle of one scheduled task's result: the slot starts out pending,
/// is written at most once by the owning thread, and is read at most once by
/// the caller that scheduled the task.
pub enum SlotState<R> {
    /// The task has not produced its result yet.
    Pending,
    /// The task ran and its result waits for the scheduling caller.
    Filled(R),
    /// The scheduling caller has taken the result.
    Consumed,
}

impl<R> SlotState<R> {
    /// The result held by a filled slot.
    pub open spec fn value(self) -> R
        recommends
            self is Filled,
    {
        match self {
            SlotState::Filled(r) => r,
            _ => arbitrary(),
        }
    }
}

/// Each operation of the bridge moves every slot forward along
/// pending -> filled -> consumed, never backwards: this is what makes a result
/// impossible to observe twice.
pub open spec fn slot_order<R>(a: SlotState<R>, b: SlotState<R>) -> bool {
    match a {
        SlotState::Pending => true,
        SlotState::Filled(r) => b == SlotState::Filled(r) || b is Consumed,
        SlotState::Consumed => b is Consumed,
    }
}

/// Whether step `i` of a slot's history is the moment the scheduling caller
/// observes the result: the slot was filled and the step consumed it.
pub open spec fn observed_at<R>(trace: Seq<SlotState<R>>, i: int) -> bool {
    0 <= i < trace.len() - 1 && trace[i] is Filled && trace[i + 1] is Consumed
}

proof fn lemma_consumed_stays<R>(trace: Seq<SlotState<R>>, i: int, j: int)
    requires
        forall|m: int| 0 <= m < trace.len() - 1 ==> slot_order(#[trigger] trace[m], trace[m + 1]),
        0 <= i <= j < trace.len(),
        trace[i] is Consumed,
    ensures
        trace[j] is Consumed,
    decreases j - i,
{
    if i < j {
        lemma_consumed_stays(trace, i + 1, j);
    }
}

/// Exactly-once delivery: along any history of one result slot in which every
/// step respects `slot_order` (as every bridge operation does), there is at
/// most one step at which the result is observed, so a caller that has
/// consumed its result can never observe it again.
pub proof fn lemma_result_observed_at_most_once<R>(trace: Seq<SlotState<R>>, i: int, j: int)
    requires
        forall|m: int| 0 <= m < trace.len() - 1 ==> slot_order(#[trigger] trace[m], trace[m + 1]),
        observed_at(trace, i),
        observed_at(trace, j),
        i <= j,
    ensures
        i == j,
{
    if i < j {
        lemma_consumed_stays(trace, i + 1, j);
        assert(false);
    }
}

/// The task bridge: one FIFO queue of `(ticket, task)` pairs per drain point
/// and one result slot per ticket ever issued.
pub struct TaskBridge<T, R> {
    frame_start: Vec<(usize, T)>,
    frame_end: Vec<(usize, T)>,
    render_app: Vec<(usize, T)>,
    results: Vec<SlotState<R>>,
}

impl<T, R> TaskBridge<T, R> {
    /// The queue of still-pending `(ticket, task)` pairs for one drain point,
    /// oldest first.
    pub closed spec fn queue(self, channel: ExecutionChannel) -> Seq<(usize, T)> {
        match channel {
            ExecutionChannel::FrameStart => self.frame_start@,
            ExecutionChannel::FrameEnd => self.frame_end@,
            ExecutionChannel::RenderApp => self.render_app@,
        }
    }

    /// All result slots, indexed by ticket.
    pub closed spec fn slots(self) -> Seq<SlotState<R>> {
        self.results@
    }

    /// Whether `ticket` occurs in the queue `q`.
    pub open spec fn queued_in(q: Seq<(usize, T)>, ticket: int) -> bool {
        exists|i: int| 0 <= i < q.len() && (#[trigger] q[i]).0 == ticket
    }

    /// Whether `ticket` is still waiting in any drain point's queue.
    pub open spec fn ticket_queued(self, ticket: int) -> bool {
        ||| Self::queued_in(self.queue(ExecutionChannel::FrameStart), ticket)
        ||| Self::queued_in(self.queue(ExecutionChannel::FrameEnd), ticket)
        ||| Self::queued_in(self.queue(ExecutionChannel::RenderApp), ticket)
    }

    /// Well-formedness of one queue: every queued ticket has a pending slot,
    /// and tickets appear in strictly increasing order, so the queue is FIFO
    /// in scheduling order.
    pub open spec fn queue_wf(self, channel: ExecutionChannel) -> bool {
        let q = self.queue(channel);
        &&& forall|i: int| 0 <= i < q.len() ==> (#[trigger] q[i]).0 < self.slots().len()
        &&& forall|i: int| 0 <= i < q.len() ==> self.slots()[(#[trigger] q[i]).0 as int] is Pending
        &&& forall|i: int, j: int|
            0 <= i < j < q.len() ==> (#[trigger] q[i]).0 < (#[trigger] q[j]).0
    }

    /// No ticket waits in two different queues: tasks never cross channels.
    pub open spec fn channels_disjoint(self) -> bool {
        forall|c1: ExecutionChannel, c2: ExecutionChannel, i: int, j: int|
            c1 != c2 && 0 <= i < self.queue(c1).len() && 0 <= j < self.queue(c2).len()
                ==> (#[trigger] self.queue(c1)[i]).0 != (#[trigger] self.queue(c2)[j]).0
    }

    /// The bridge's invariant, established by `new` and preserved by every
    /// operation.
    pub open spec fn wf(self) -> bool {
        &&& self.queue_wf(ExecutionChannel::FrameStart)
        &&& self.queue_wf(ExecutionChannel::FrameEnd)
        &&& self.queue_wf(ExecutionChannel::RenderApp)
        &&& self.channels_disjoint()
    }

    /// A bridge with no queued tasks and no issued tickets.
    pub fn new() -> (bridge: Self)
        ensures
            bridge.wf(),
            bridge.queue(ExecutionChannel::FrameStart).len() == 0,
            bridge.queue(ExecutionChannel::FrameEnd).len() == 0,
            bridge.queue(ExecutionChannel::RenderApp).len() == 0,
            bridge.slots().len() == 0,
    {
        TaskBridge {
            frame_start: Vec::new(),
            frame_end: Vec::new(),
            render_app: Vec::new(),
            results: Vec::new(),
        }
    }

    /// Enqueue `task` to run at `channel`'s next drain, behind every task
    /// already queued there, and issue the ticket under which the result will
    /// be delivered.
    pub fn schedule_on(&mut self, channel: ExecutionChannel, task: T) -> (ticket: usize)
        requires
            old(self).wf(),
        ensures
            final(self).wf(),
            ticket == old(self).slots().len(),
            final(self).slots() == old(self).slots().push(SlotState::<R>::Pending),
            final(self).queue(channel) == old(self).queue(channel).push((ticket, task)),
            forall|c: ExecutionChannel|
                c != channel ==> #[trigger] final(self).queue(c) == old(self).queue(c),
    {
        let ticket = self.results.len();
        self.results.push(SlotState::Pending);
        match channel {
            ExecutionChannel::FrameStart => self.frame_start.push((ticket, task)),
            ExecutionChannel::FrameEnd => self.frame_end.push((ticket, task)),
            ExecutionChannel::RenderApp => self.render_app.push((ticket, task)),
        }
        ticket
    }

    /// Take the oldest task queued for `channel`, if any. Only the owning
    /// thread calls this; after the call the returned ticket is queued
    /// nowhere, so the owner may `complete` it.
    pub fn take_next_task(&mut self, channel: ExecutionChannel) -> (taken: Option<(usize, T)>)
        requires
            old(self).wf(),
        ensures
            final(self).wf(),
            final(self).slots() == old(self).slots(),
            old(self).queue(channel).len() == 0 ==> taken is None && final(self).queue(channel)
                == old(self).queue(channel),
            old(self).queue(channel).len() > 0 ==> taken == Some(old(self).queue(channel)[0])
                && final(self).queue(channel) == old(self).queue(channel).drop_first()
                && !final(self).ticket_queued(old(self).queue(channel)[0].0 as int),
            forall|c: ExecutionChannel|
                c != channel ==> #[trigger] final(self).queue(c) == old(self).queue(c),
    {
        let taken: Option<(usize, T)> = match channel {
            ExecutionChannel::FrameStart => {
                if self.frame_start.len() == 0 {
                    None
                } else {
                    Some(self.frame_start.remove(0))
                }
            },
            ExecutionChannel::FrameEnd => {
                if self.frame_end.len() == 0 {
                    None
                } else {
                    Some(self.frame_end.remove(0))
                }
            },
            ExecutionChannel::RenderApp => {
                if self.render_app.len() == 0 {
                    None
                } else {
                    Some(self.render_app.remove(0))
                }
            },
        };
        proof {
            if old(self).queue(channel).len() > 0 {
                assert(self.queue(channel) =~= old(self).queue(channel).drop_first());
                let t = old(self).queue(channel)[0].0 as int;
                assert forall|i: int| 0 <= i < self.queue(channel).len() implies (#[trigger] self
                    .queue(channel)[i]).0 != t by {
                    assert(self.queue(channel)[i] == old(self).queue(channel)[i + 1]);
                }
            }
        }
        taken
    }

    /// Deliver `result` for `ticket`. Only the owning thread calls this, for a
    /// ticket whose task it has just taken and run; the pending slot becomes
    /// filled and nothing else changes.
    pub fn complete(&mut self, ticket: usize, result: R)
        requires
            old(self).wf(),
            ticket < old(self).slots().len(),
            old(self).slots()[ticket as int] is Pending,
            !old(self).ticket_queued(ticket as int),
        ensures
            final(self).wf(),
            final(self).slots() == old(self).slots().update(
                ticket as int,
                SlotState::Filled(result),
            ),
            forall|c: ExecutionChannel| #[trigger] final(self).queue(c) == old(self).queue(c),
            forall|t: int|
                0 <= t < old(self).slots().len() ==> slot_order(
                    #[trigger] old(self).slots()[t],
                    final(self).slots()[t],
                ),
    {
        let _pending = self.results.remove(ticket);
        self.results.insert(ticket, SlotState::Filled(result));
        proof {
            assert(self.results@ =~= old(self).slots().update(
                ticket as int,
                SlotState::Filled(result),
            ));
        }
    }

    /// Try to consume the result for `ticket`: the rendezvous read side. The
    /// first call after the slot was filled returns the result and empties the
    /// slot for good; any other call returns nothing and changes nothing.
    pub fn try_take(&mut self, ticket: usize) -> (taken: Option<R>)
        requires
            old(self).wf(),
            ticket < old(self).slots().len(),
        ensures
            final(self).wf(),
            forall|c: ExecutionChannel| #[trigger] final(self).queue(c) == old(self).queue(c),
            old(self).slots()[ticket as int] is Filled ==> taken == Some(
                old(self).slots()[ticket as int].value(),
            ) && final(self).slots() == old(self).slots().update(
                ticket as int,
                SlotState::<R>::Consumed,
            ),
            !(old(self).slots()[ticket as int] is Filled) ==> taken is None && final(self).slots()
                == old(self).slots(),
            forall|t: int|
                0 <= t < old(self).slots().len() ==> slot_order(
                    #[trigger] old(self).slots()[t],
                    final(self).slots()[t],
                ),
    {
        let slot = self.results.remove(ticket);
        match slot {
            SlotState::Filled(r) => {
                self.results.insert(ticket, SlotState::Consumed);
                proof {
                    assert(self.results@ =~= old(self).slots().update(
                        ticket as int,
                        SlotState::<R>::Consumed,
                    ));
                }
                Some(r)
            },
            other => {
                self.results.insert(ticket, other);
                proof {
                    assert(self.results@ =~= old(self).slots());
                }
                None
            },
        }
    }

    /// Drain `channel` fully, the way the owning thread does when the loop
    /// reaches that drain point: take every queued task in FIFO order, run
    /// each to completion on the world state left by its predecessor, and
    /// deliver each result into its ticket's slot.
    ///
    /// The returned ghost sequence holds the world states between tasks:
    /// entry `i` is the world the `i`-th queued task observed, so results are
    /// produced in scheduling order and no two tasks overlap or see a stale
    /// world.
    pub fn drain_with<W, F: Fn(W, T) -> (W, R)>(
        &mut self,
        channel: ExecutionChannel,
        world: W,
        run: F,
    ) -> (out: (W, Ghost<Seq<W>>))
        requires
            old(self).wf(),
            forall|w: W, i: int|
                0 <= i < old(self).queue(channel).len() ==> #[trigger] call_requires(
                    run,
                    (w, old(self).queue(channel)[i].1),
                ),
        ensures
            final(self).wf(),
            final(self).queue(channel).len() == 0,
            forall|c: ExecutionChannel|
                c != channel ==> #[trigger] final(self).queue(c) == old(self).queue(c),
            final(self).slots().len() == old(self).slots().len(),
            out.1@.len() == old(self).queue(channel).len() + 1,
            out.1@[0] == world,
            out.0 == out.1@[out.1@.len() - 1],
            forall|i: int|
                0 <= i < old(self).queue(channel).len() ==> {
                    let ticket = (#[trigger] old(self).queue(channel)[i]).0 as int;
                    &&& final(self).slots()[ticket] is Filled
                    &&& call_ensures(
                        run,
                        (out.1@[i], old(self).queue(channel)[i].1),
                        (out.1@[i + 1], final(self).slots()[ticket].value()),
                    )
                },
            forall|t: int|
                0 <= t < old(self).slots().len() && !Self::queued_in(
                    old(self).queue(channel),
                    t,
                ) ==> final(self).slots()[t] == old(self).slots()[t],
            forall|t: int|
                0 <= t < old(self).slots().len() ==> slot_order(
                    #[trigger] old(self).slots()[t],
                    final(self).slots()[t],
                ),
    {
        let ghost q0 = self.queue(channel);
        let ghost s0 = self.slots();
        let ghost qa = self.queue(ExecutionChannel::FrameStart);
        let ghost qb = self.queue(ExecutionChannel::FrameEnd);
        let ghost qc = self.queue(ExecutionChannel::RenderApp);
        let mut cur = world;
        let ghost mut states: Seq<W> = seq![cur];
        let ghost mut k: int = 0;
        loop
            invariant
                self.wf(),
                forall|w: W, i: int|
                    0 <= i < q0.len() ==> #[trigger] call_requires(run, (w, q0[i].1)),
                forall|i: int, j: int| 0 <= i < j < q0.len() ==> q0[i].0 < q0[j].0,
                forall|i: int|
                    0 <= i < q0.len() ==> (#[trigger] q0[i]).0 < s0.len() && s0[q0[i].0 as int]
                        is Pending,
                0 <= k <= q0.len(),
                states.len() == k + 1,
                states[0] == world,
                cur == states[k],
                self.queue(channel) == q0.skip(k),
                channel != ExecutionChannel::FrameStart ==> self.queue(
                    ExecutionChannel::FrameStart,
                ) == qa,
                channel != ExecutionChannel::FrameEnd ==> self.queue(ExecutionChannel::FrameEnd)
                    == qb,
                channel != ExecutionChannel::RenderApp ==> self.queue(ExecutionChannel::RenderApp)
                    == qc,
                self.slots().len() == s0.len(),
                forall|i: int|
                    0 <= i < k ==> {
                        let ticket = (#[trigger] q0[i]).0 as int;
                        &&& self.slots()[ticket] is Filled
                        &&& call_ensures(
                            run,
                            (states[i], q0[i].1),
                            (states[i + 1], self.slots()[ticket].value()),
                        )
                    },
                forall|t: int|
                    0 <= t < s0.len() && !Self::queued_in(q0.take(k), t)
                        ==> #[trigger] self.slots()[t] == s0[t],
            ensures
                k == q0.len(),
                self.wf(),
                states.len() == k + 1,
                states[0] == world,
                cur == states[k],
                self.queue(channel) == q0.skip(k),
                channel != ExecutionChannel::FrameStart ==> self.queue(
                    ExecutionChannel::FrameStart,
                ) == qa,
                channel != ExecutionChannel::FrameEnd ==> self.queue(ExecutionChannel::FrameEnd)
                    == qb,
                channel != ExecutionChannel::RenderApp ==> self.queue(ExecutionChannel::RenderApp)
                    == qc,
                self.slots().len() == s0.len(),
                forall|i: int|
                    0 <= i < k ==> {
                        let ticket = (#[trigger] q0[i]).0 as int;
                        &&& self.slots()[ticket] is Filled
                        &&& call_ensures(
                            run,
                            (states[i], q0[i].1),
                            (states[i + 1], self.slots()[ticket].value()),
                        )
                    },
                forall|t: int|
                    0 <= t < s0.len() && !Self::queued_in(q0.take(k), t)
                        ==> #[trigger] self.slots()[t] == s0[t],
            decreases self.queue(channel).len(),
        {
            let next = self.take_next_task(channel);
            match next {
                None => {
                    proof {
                        assert(q0.skip(k).len() == 0);
                        assert(k == q0.len());
                    }
                    break ;
                },
                Some((ticket, task)) => {
                    proof {
                        assert(q0.skip(k)[0] == q0[k]);
                        assert((ticket, task) == q0[k]);
                        assert(self.queue(channel) =~= q0.skip(k + 1));
                        assert(call_requires(run, (cur, q0[k].1)));
                        assert(!Self::queued_in(q0.take(k), q0[k].0 as int));
                        assert(self.slots()[ticket as int] == s0[ticket as int]);
                    }
                    let (w2, r) = run(cur, task);
                    self.complete(ticket, r);
                    cur = w2;
                    proof {
                        states = states.push(cur);
                        k = k + 1;
                        assert forall|t: int|
                            0 <= t < s0.len() && !Self::queued_in(q0.take(k), t) implies #[trigger] self
                            .slots()[t] == s0[t] by {
                            assert(!Self::queued_in(q0.take(k - 1), t));
                            assert(q0.take(k)[k - 1].0 == ticket);
                            assert(t != ticket as int);
                        }
                        assert forall|i: int| 0 <= i < k implies {
                            let tk = (#[trigger] q0[i]).0 as int;
                            &&& self.slots()[tk] is Filled
                            &&& call_ensures(
                                run,
                                (states[i], q0[i].1),
                                (states[i + 1], self.slots()[tk].value()),
                            )
                        } by {
                            if i < k - 1 {
                                assert(q0[i].0 < q0[k - 1].0);
                            }
                        }
                    }
                },
            }
        }
        proof {
            assert(k == q0.len());
            assert forall|t: int|
                0 <= t < s0.len() && !Self::queued_in(q0, t) implies self.slots()[t] == s0[t] by {
                assert(q0.take(k) =~= q0);
            }
            assert forall|t: int|
                0 <= t < s0.len() implies slot_order(#[trigger] s0[t], self.slots()[t]) by {
                if Self::queued_in(q0, t) {
                    let i = choose|i: int| 0 <= i < q0.len() && (#[trigger] q0[i]).0 == t;
                    assert(self.slots()[t] is Filled);
                    assert(s0[t] is Pending);
                } else {
                    assert(q0.take(k) =~= q0);
                }
            }
        }
        (cur, Ghost(states))
    }

    /// Run at most one queued task of `channel`, the single-shot variant for
    /// drain points with tighter per-visit guarantees: the oldest task, if
    /// any, runs on the world and its result lands in its ticket's slot.
    pub fn run_one_with<W, F: Fn(W, T) -> (W, R)>(
        &mut self,
        channel: ExecutionChannel,
        world: W,
        run: F,
    ) -> (out: W)
        requires
            old(self).wf(),
            forall|w: W, i: int|
                0 <= i < old(self).queue(channel).len() ==> #[trigger] call_requires(
                    run,
                    (w, old(self).queue(channel)[i].1),
                ),
        ensures
            final(self).wf(),
            forall|c: ExecutionChannel|
                c != channel ==> #[trigger] final(self).queue(c) == old(self).queue(c),
            final(self).slots().len() == old(self).slots().len(),
            old(self).queue(channel).len() == 0 ==> out == world && final(self).queue(channel)
                == old(self).queue(channel) && final(self).slots() == old(self).slots(),
            old(self).queue(channel).len() > 0 ==> {
                let (ticket, task) = old(self).queue(channel)[0];
                &&& final(self).queue(channel) == old(self).queue(channel).drop_first()
                &&& final(self).slots()[ticket as int] is Filled
                &&& call_ensures(
                    run,
                    (world, task),
                    (out, final(self).slots()[ticket as int].value()),
                )
                &&& forall|t: int|
                    0 <= t < old(self).slots().len() && t != ticket as int
                        ==> final(self).slots()[t] == old(self).slots()[t]
            },
            forall|t: int|
                0 <= t < old(self).slots().len() ==> slot_order(
                    #[trigger] old(self).slots()[t],
                    final(self).slots()[t],
                ),
    {
        let taken = self.take_next_task(channel);
        match taken {
            None => world,
            Some((ticket, task)) => {
                proof {
                    assert(call_requires(run, (world, old(self).queue(channel)[0].1)));
                }
                let (next_world, result) = run(world, task);
                self.complete(ticket, result);
                next_world
            },
        }
    }
}

} // verus!
