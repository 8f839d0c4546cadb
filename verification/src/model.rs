//! The broker as a state machine over mathematical values.
//!
//! A [`QueueState`] is what the three containers of the broker hold at one
//! moment. Each operation of the engine is a spec function from one state to
//! the next; the executable queue is proved to follow them step by step.

use crate::job::JobView;
use crate::timeout_heap::TimeoutEntry;
use vstd::multiset::{group_multiset_axioms, Multiset};
use vstd::prelude::*;

verus! {

/// How long a worker has to acknowledge a delivery, in nanoseconds.
pub const ACK_TIMEOUT_NANOS: u128 = 30_000_000_000;

/// The pause between two sweeps, in seconds.
pub const SWEEP_PERIOD_SECS: u64 = 30;

/// A delivery made at `sent` has run out of time at `now`.
pub open spec fn expired(sent: u128, now: u128) -> bool {
    now - sent >= ACK_TIMEOUT_NANOS
}

/// Decides whether a delivery made at `sent` has run out of time at `now`.
pub fn is_expired(sent: u128, now: u128) -> (late: bool)
    ensures
        late == expired(sent, now),
{
    now >= sent && now - sent >= ACK_TIMEOUT_NANOS
}

/// The contents of the broker.
pub struct QueueState {
    /// Jobs that wait for delivery, the next one to deliver first.
    pub ready: Seq<JobView>,
    /// Jobs that were delivered and are not acknowledged, by id.
    pub pending: Map<u64, JobView>,
    /// One entry for each delivery that no sweep has looked at yet. An entry
    /// stays when its job is acknowledged, and is then stale.
    pub timeouts: Multiset<TimeoutEntry>,
    /// The id that the next submission receives.
    pub next_id: u64,
}

impl QueueState {
    /// The broker at startup.
    pub open spec fn empty() -> QueueState {
        QueueState {
            ready: Seq::empty(),
            pending: Map::empty(),
            timeouts: Multiset::empty(),
            next_id: 0,
        }
    }

    /// A payload that the broker accepts: at least one byte, and no more than
    /// a length field can announce.
    pub open spec fn payload_ok(payload: Seq<u8>) -> bool {
        0 < payload.len() <= u32::MAX
    }

    /// The timeout entry that belongs to the pending job `id`.
    pub open spec fn entry_of(self, id: u64) -> TimeoutEntry {
        TimeoutEntry { sent: self.pending[id].sent.unwrap(), id }
    }

    /// What has to hold of a job in the ready queue.
    pub open spec fn ready_job_ok(self, job: JobView) -> bool {
        &&& job.id < self.next_id
        &&& job.sent is None
        &&& Self::payload_ok(job.payload)
        &&& !self.pending.contains_key(job.id)
    }

    /// What has to hold of the pending job `id`.
    pub open spec fn pending_job_ok(self, id: u64) -> bool {
        &&& self.pending[id].id == id
        &&& id < self.next_id
        &&& self.pending[id].sent is Some
        &&& Self::payload_ok(self.pending[id].payload)
        &&& self.timeouts.count(self.entry_of(id)) > 0
    }

    /// The invariant of the broker.
    ///
    /// Ids in the ready queue are pairwise distinct and none of them is
    /// pending; every pending job has its timeout entry; no two timeout
    /// entries speak of the same job, and none speaks of a job that is ready;
    /// every id in use was handed out by the counter.
    pub open spec fn valid(self) -> bool {
        &&& forall|i: int| 0 <= i < self.ready.len() ==> self.ready_job_ok(#[trigger] self.ready[i])
        &&& forall|i: int, j: int|
            0 <= i < j < self.ready.len() ==> (#[trigger] self.ready[i]).id != (
            #[trigger] self.ready[j]).id
        &&& forall|id: u64| #[trigger] self.pending.contains_key(id) ==> self.pending_job_ok(id)
        &&& forall|e: TimeoutEntry| #[trigger]
            self.timeouts.count(e) > 0 ==> e.id < self.next_id && self.timeouts.count(e) == 1
        &&& forall|a: TimeoutEntry, b: TimeoutEntry|
            #![trigger self.timeouts.count(a), self.timeouts.count(b)]
            self.timeouts.count(a) > 0 && self.timeouts.count(b) > 0 && a.id == b.id ==> a == b
        &&& forall|i: int, e: TimeoutEntry|
            #![trigger self.ready[i], self.timeouts.count(e)]
            0 <= i < self.ready.len() && self.timeouts.count(e) > 0 ==> self.ready[i].id != e.id
    }

    /// The counter has an id left to hand out.
    pub open spec fn can_submit(self) -> bool {
        self.next_id < u64::MAX
    }

    /// A job with `payload` enters at the back of the ready queue under the
    /// next id.
    pub open spec fn submit(self, payload: Seq<u8>) -> QueueState {
        QueueState {
            ready: self.ready.push(JobView { id: self.next_id, payload, sent: None }),
            pending: self.pending,
            timeouts: self.timeouts,
            next_id: (self.next_id + 1) as u64,
        }
    }

    /// The job that the next delivery hands out, stamped with `now`.
    pub open spec fn delivered(self, now: u128) -> JobView
        recommends
            self.ready.len() > 0,
    {
        JobView { id: self.ready[0].id, payload: self.ready[0].payload, sent: Some(now) }
    }

    /// The front of the ready queue moves to the pending table and gets a
    /// timeout entry. Nothing changes when no job is ready.
    pub open spec fn deliver(self, now: u128) -> QueueState {
        if self.ready.len() == 0 {
            self
        } else {
            QueueState {
                ready: self.ready.drop_first(),
                pending: self.pending.insert(self.ready[0].id, self.delivered(now)),
                timeouts: self.timeouts.insert(TimeoutEntry { sent: now, id: self.ready[0].id }),
                next_id: self.next_id,
            }
        }
    }

    /// The job `id` leaves the pending table. Its timeout entry stays behind
    /// until a sweep meets it.
    pub open spec fn acknowledge(self, id: u64) -> QueueState {
        QueueState {
            ready: self.ready,
            pending: self.pending.remove(id),
            timeouts: self.timeouts,
            next_id: self.next_id,
        }
    }

    /// The job `id` is pending and its delivery has run out of time at `now`.
    pub open spec fn is_overdue(self, id: u64, now: u128) -> bool {
        self.pending.contains_key(id) && expired(self.pending[id].sent.unwrap(), now)
    }

    /// The pending job `id` as it re-enters the ready queue.
    pub open spec fn requeued_job(self, id: u64) -> JobView {
        JobView { id: self.pending[id].id, payload: self.pending[id].payload, sent: None }
    }

    /// `ids` lists the jobs that a sweep at `now` returns to the ready queue,
    /// in the order in which it returns them: every overdue job once, the one
    /// delivered first in front, and among deliveries of one instant the
    /// smaller id in front.
    pub open spec fn requeue_order(self, now: u128, ids: Seq<u64>) -> bool {
        &&& forall|i: int| 0 <= i < ids.len() ==> self.is_overdue(#[trigger] ids[i], now)
        &&& forall|id: u64| #[trigger] self.is_overdue(id, now) ==> ids.contains(id)
        &&& forall|i: int, j: int|
            0 <= i < j < ids.len() ==> (#[trigger] ids[i]) != (#[trigger] ids[j]) && self.entry_of(
                ids[i],
            ).no_later_than(self.entry_of(ids[j]))
    }

    /// The pending jobs `ids` as they re-enter the ready queue, in the order
    /// of `ids`.
    pub open spec fn requeued_jobs(self, ids: Seq<u64>) -> Seq<JobView> {
        Seq::new(ids.len(), |i: int| self.requeued_job(ids[i]))
    }

    /// The ids of the jobs that are overdue at `now`.
    pub open spec fn overdue(self, now: u128) -> Set<u64> {
        Set::new(|id: u64| self.is_overdue(id, now))
    }

    /// The timeout entries that have not run out at `now`.
    pub open spec fn fresh_timeouts(self, now: u128) -> Multiset<TimeoutEntry> {
        self.timeouts.filter(|e: TimeoutEntry| !expired(e.sent, now))
    }

    /// The state after a sweep at `now` that requeued `ids`: the overdue jobs
    /// stand at the back of the ready queue without a delivery time, they are
    /// no longer pending, and every timeout entry that ran out is gone,
    /// whether its job was still pending or not.
    pub open spec fn sweep(self, now: u128, ids: Seq<u64>) -> QueueState {
        QueueState {
            ready: self.ready + self.requeued_jobs(ids),
            pending: self.pending.remove_keys(self.overdue(now)),
            timeouts: self.fresh_timeouts(now),
            next_id: self.next_id,
        }
    }
}

/// One step of the broker.
pub enum Event {
    /// A job with this payload is submitted.
    Submit { payload: Seq<u8> },
    /// The next job is delivered at this reading of the clock.
    Deliver { now: u128 },
    /// The job of this id is acknowledged.
    Acknowledge { id: u64 },
    /// A sweep at this reading of the clock returns these jobs to the ready
    /// queue.
    Sweep { now: u128, requeued: Seq<u64> },
}

impl QueueState {
    /// The step `event` can be taken in this state: a submission needs a free
    /// id and a payload that the broker accepts, and a sweep requeues the jobs
    /// that are overdue, in their order.
    pub open spec fn admits(self, event: Event) -> bool {
        match event {
            Event::Submit { payload } => self.can_submit() && Self::payload_ok(payload),
            Event::Deliver { now } => true,
            Event::Acknowledge { id } => true,
            Event::Sweep { now, requeued } => self.requeue_order(now, requeued),
        }
    }

    /// The state after the step `event`.
    pub open spec fn apply(self, event: Event) -> QueueState {
        match event {
            Event::Submit { payload } => self.submit(payload),
            Event::Deliver { now } => self.deliver(now),
            Event::Acknowledge { id } => self.acknowledge(id),
            Event::Sweep { now, requeued } => self.sweep(now, requeued),
        }
    }

    /// The steps `events` can be taken one after the other, from this state.
    pub open spec fn admits_all(self, events: Seq<Event>) -> bool
        decreases events.len(),
    {
        events.len() == 0 || (self.admits(events[0]) && self.apply(events[0]).admits_all(
            events.drop_first(),
        ))
    }

    /// The state after the steps `events`, taken one after the other.
    pub open spec fn run(self, events: Seq<Event>) -> QueueState
        decreases events.len(),
    {
        if events.len() == 0 {
            self
        } else {
            self.apply(events[0]).run(events.drop_first())
        }
    }
}

/// The empty broker is valid.
pub proof fn lemma_empty_valid()
    ensures
        QueueState::empty().valid(),
{
    broadcast use group_multiset_axioms;
}

/// A submission keeps the broker valid.
pub proof fn lemma_submit_valid(q: QueueState, payload: Seq<u8>)
    requires
        q.valid(),
        q.can_submit(),
        QueueState::payload_ok(payload),
    ensures
        q.submit(payload).valid(),
{
    let after = q.submit(payload);
    assert forall|i: int| 0 <= i < after.ready.len() implies after.ready_job_ok(
        #[trigger] after.ready[i],
    ) by {
        if i < q.ready.len() {
            assert(q.ready_job_ok(q.ready[i]));
        } else {
            if q.pending.contains_key(q.next_id) {
                assert(q.pending_job_ok(q.next_id));
            }
        }
    }
    assert forall|i: int, j: int| 0 <= i < j < after.ready.len() implies (
    #[trigger] after.ready[i]).id != (#[trigger] after.ready[j]).id by {
        assert(q.ready_job_ok(q.ready[i]));
        if j < q.ready.len() {
            assert(q.ready[i].id != q.ready[j].id);
        }
    }
    assert forall|id: u64| #[trigger] after.pending.contains_key(id) implies after.pending_job_ok(
        id,
    ) by {
        assert(q.pending_job_ok(id));
    }
    assert forall|i: int, e: TimeoutEntry|
        #![trigger after.ready[i], after.timeouts.count(e)]
        0 <= i < after.ready.len() && after.timeouts.count(e) > 0 implies after.ready[i].id
        != e.id by {
        if i < q.ready.len() {
            assert(q.ready[i].id != e.id);
        }
    }
}

/// A delivery keeps the broker valid.
pub proof fn lemma_deliver_valid(q: QueueState, now: u128)
    requires
        q.valid(),
    ensures
        q.deliver(now).valid(),
{
    broadcast use group_multiset_axioms;
    if q.ready.len() > 0 {
        let after = q.deliver(now);
        let job = q.ready[0];
        let entry = TimeoutEntry { sent: now, id: job.id };
        assert(q.ready_job_ok(job));
        assert forall|e: TimeoutEntry| q.timeouts.count(e) > 0 implies e.id != job.id by {
            assert(q.ready[0].id != e.id);
        }
        assert forall|i: int| 0 <= i < after.ready.len() implies after.ready_job_ok(
            #[trigger] after.ready[i],
        ) by {
            assert(after.ready[i] == q.ready[i + 1]);
            assert(q.ready_job_ok(q.ready[i + 1]));
            assert(q.ready[0].id != q.ready[i + 1].id);
        }
        assert forall|i: int, j: int| 0 <= i < j < after.ready.len() implies (
        #[trigger] after.ready[i]).id != (#[trigger] after.ready[j]).id by {
            assert(q.ready[i + 1].id != q.ready[j + 1].id);
        }
        assert forall|id: u64| #[trigger] after.pending.contains_key(id) implies after.pending_job_ok(
            id,
        ) by {
            if id != job.id {
                assert(q.pending_job_ok(id));
                assert(after.entry_of(id) == q.entry_of(id));
            } else {
                assert(after.entry_of(id) == entry);
            }
        }
        assert forall|e: TimeoutEntry| #[trigger] after.timeouts.count(e) > 0 implies e.id
            < after.next_id && after.timeouts.count(e) == 1 by {
            if e != entry {
                assert(q.timeouts.count(e) > 0);
            } else {
                assert(q.timeouts.count(e) == 0);
            }
        }
        assert forall|a: TimeoutEntry, b: TimeoutEntry|
            #![trigger after.timeouts.count(a), after.timeouts.count(b)]
            after.timeouts.count(a) > 0 && after.timeouts.count(b) > 0 && a.id == b.id implies a
            == b by {
            if a != entry && b != entry {
                assert(q.timeouts.count(a) > 0 && q.timeouts.count(b) > 0);
            } else if a != entry {
                assert(q.timeouts.count(a) > 0);
            } else if b != entry {
                assert(q.timeouts.count(b) > 0);
            }
        }
        assert forall|i: int, e: TimeoutEntry|
            #![trigger after.ready[i], after.timeouts.count(e)]
            0 <= i < after.ready.len() && after.timeouts.count(e) > 0 implies after.ready[i].id
            != e.id by {
            assert(after.ready[i] == q.ready[i + 1]);
            assert(q.ready[0].id != q.ready[i + 1].id);
            if e != entry {
                assert(q.timeouts.count(e) > 0);
                assert(q.ready[i + 1].id != e.id);
            }
        }
    }
}

/// An acknowledgement keeps the broker valid.
pub proof fn lemma_acknowledge_valid(q: QueueState, id: u64)
    requires
        q.valid(),
    ensures
        q.acknowledge(id).valid(),
{
    let after = q.acknowledge(id);
    assert forall|i: int| 0 <= i < after.ready.len() implies after.ready_job_ok(
        #[trigger] after.ready[i],
    ) by {
        assert(q.ready_job_ok(q.ready[i]));
    }
    assert forall|k: u64| #[trigger] after.pending.contains_key(k) implies after.pending_job_ok(
        k,
    ) by {
        assert(q.pending_job_ok(k));
        assert(after.entry_of(k) == q.entry_of(k));
    }
}

/// A sweep keeps the broker valid.
pub proof fn lemma_sweep_valid(q: QueueState, now: u128, ids: Seq<u64>)
    requires
        q.valid(),
        q.requeue_order(now, ids),
    ensures
        q.sweep(now, ids).valid(),
{
    broadcast use group_multiset_axioms;
    let after = q.sweep(now, ids);
    let old_len = q.ready.len() as int;
    assert forall|e: TimeoutEntry| after.timeouts.count(e) > 0 implies q.timeouts.count(e) > 0
        && !expired(e.sent, now) && after.timeouts.count(e) == q.timeouts.count(e) by {}
    assert forall|i: int| 0 <= i < after.ready.len() implies after.ready_job_ok(
        #[trigger] after.ready[i],
    ) by {
        if i < old_len {
            assert(q.ready_job_ok(q.ready[i]));
        } else {
            let id = ids[i - old_len];
            assert(q.is_overdue(id, now));
            assert(q.pending_job_ok(id));
        }
    }
    assert forall|i: int, j: int| 0 <= i < j < after.ready.len() implies (
    #[trigger] after.ready[i]).id != (#[trigger] after.ready[j]).id by {
        if j < old_len {
            assert(q.ready[i].id != q.ready[j].id);
        } else {
            let jd = ids[j - old_len];
            assert(q.is_overdue(jd, now));
            assert(q.pending_job_ok(jd));
            if i < old_len {
                assert(q.ready_job_ok(q.ready[i]));
            } else {
                let id = ids[i - old_len];
                assert(q.is_overdue(id, now));
                assert(q.pending_job_ok(id));
                assert(id != jd);
            }
        }
    }
    assert forall|id: u64| #[trigger] after.pending.contains_key(id) implies after.pending_job_ok(
        id,
    ) by {
        assert(q.pending_job_ok(id));
        assert(!q.is_overdue(id, now));
        assert(after.entry_of(id) == q.entry_of(id));
    }
    assert forall|e: TimeoutEntry| #[trigger] after.timeouts.count(e) > 0 implies e.id
        < after.next_id && after.timeouts.count(e) == 1 by {
        assert(q.timeouts.count(e) > 0);
    }
    assert forall|a: TimeoutEntry, b: TimeoutEntry|
        #![trigger after.timeouts.count(a), after.timeouts.count(b)]
        after.timeouts.count(a) > 0 && after.timeouts.count(b) > 0 && a.id == b.id implies a
        == b by {
        assert(q.timeouts.count(a) > 0 && q.timeouts.count(b) > 0);
    }
    assert forall|i: int, e: TimeoutEntry|
        #![trigger after.ready[i], after.timeouts.count(e)]
        0 <= i < after.ready.len() && after.timeouts.count(e) > 0 implies after.ready[i].id
        != e.id by {
        assert(q.timeouts.count(e) > 0);
        if i < old_len {
            assert(q.ready[i].id != e.id);
        } else {
            let id = ids[i - old_len];
            assert(q.is_overdue(id, now));
            assert(q.pending_job_ok(id));
            assert(q.timeouts.count(q.entry_of(id)) > 0);
        }
    }
}

/// Any step keeps the broker valid.
pub proof fn lemma_step_valid(q: QueueState, event: Event)
    requires
        q.valid(),
        q.admits(event),
    ensures
        q.apply(event).valid(),
{
    match event {
        Event::Submit { payload } => lemma_submit_valid(q, payload),
        Event::Deliver { now } => lemma_deliver_valid(q, now),
        Event::Acknowledge { id } => lemma_acknowledge_valid(q, id),
        Event::Sweep { now, requeued } => lemma_sweep_valid(q, now, requeued),
    }
}

/// Every state that the broker reaches from a valid state is valid.
pub proof fn lemma_run_valid(q: QueueState, events: Seq<Event>)
    requires
        q.valid(),
        q.admits_all(events),
    ensures
        q.run(events).valid(),
    decreases events.len(),
{
    if events.len() > 0 {
        lemma_step_valid(q, events[0]);
        lemma_run_valid(q.apply(events[0]), events.drop_first());
    }
}

} // verus!
