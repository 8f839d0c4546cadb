//! The queue engine: ready queue, pending table and timeout heap, and the
//! operations that move jobs between them.
//!
//! A [`JobQueue`] is a plain value. Every operation takes it by `&mut` and is
//! one step of the state machine of [`crate::model`]. A server that serves
//! many connections shares the queue behind one lock; a request and a sweep
//! are then atomic, and no job is ever seen on its way from one container to
//! another.

use crate::clock::{clock_origin, elapsed_since, whole_nanos};
use crate::job::{HashMapError, Job, JobData, SubmitError};
use crate::model::{
    expired, is_expired, lemma_acknowledge_valid, lemma_deliver_valid, lemma_submit_valid,
    lemma_sweep_valid, QueueState,
};
use crate::protocol::{
    ack_frame_id, delivery_bytes, encode_delivery, parse_ack, parse_submit, submit_frame_payload,
};
use crate::sweep::{
    after_requeue, lemma_root_has_time_left, lemma_root_of_pending_job, lemma_sweep_begins,
    lemma_sweep_discards, lemma_sweep_ends, lemma_sweep_requeues, sweeping,
};
use crate::timeout_heap::{lemma_order_antisymmetric, TimeoutEntry, TimeoutHeap};
use crate::wire::{lemma_be_value_bound, lemma_radix_pow_values};
use std::collections::HashMap;
use std::collections::VecDeque;
use std::time::Instant;
use vstd::multiset::{group_multiset_axioms, Multiset};
use vstd::prelude::*;

verus! {

/// The broker's state: every job that was submitted and is not yet
/// acknowledged is in exactly one of the ready queue and the pending table.
pub struct JobQueue {
    jobs: VecDeque<Job>,
    next_job_id: u64,
    pending_jobs: HashMap<u64, Job>,
    unacked_jobs: TimeoutHeap,
    started: Instant,
}

impl JobQueue {
    /// What the queue holds.
    pub closed spec fn view(&self) -> QueueState {
        QueueState {
            ready: self.jobs@.map_values(|job: Job| job@),
            pending: self.pending_jobs@.map_values(|job: Job| job@),
            timeouts: self.unacked_jobs@,
            next_id: self.next_job_id,
        }
    }

    /// The timeout heap is laid out as a heap.
    pub closed spec fn intact(&self) -> bool {
        self.unacked_jobs.wf()
    }

    /// The queue is well formed: its parts are intact and what it holds
    /// satisfies the invariant of the broker.
    pub open spec fn wf(&self) -> bool {
        self.intact() && self@.valid()
    }

    /// The response that a delivery request is owed, without its status byte:
    /// the front of the ready queue on the wire, or nothing when no job is
    /// ready.
    pub open spec fn delivery_frame(state: QueueState) -> Seq<u8> {
        if state.ready.len() == 0 {
            Seq::empty()
        } else {
            delivery_bytes(state.ready[0])
        }
    }

    /// A queue that holds nothing and hands out id 0 first.
    pub fn new() -> (queue: JobQueue)
        ensures
            queue.wf(),
            queue@ == QueueState::empty(),
    {
        let queue = JobQueue {
            jobs: VecDeque::new(),
            next_job_id: 0,
            pending_jobs: HashMap::new(),
            unacked_jobs: TimeoutHeap::new(),
            started: clock_origin(),
        };
        proof {
            assert(queue@.ready =~= Seq::<crate::job::JobView>::empty());
            assert(queue@.pending =~= Map::<u64, crate::job::JobView>::empty());
            crate::model::lemma_empty_valid();
        }
        queue
    }

    /// Whether the counter has an id left for another submission.
    pub fn can_submit(&self) -> (free: bool)
        ensures
            free == self@.can_submit(),
    {
        self.next_job_id < u64::MAX
    }

    /// The present reading of the queue's clock, in nanoseconds.
    pub(crate) fn clock_reading(&self) -> (now: u128) {
        let elapsed = elapsed_since(&self.started);
        whole_nanos(&elapsed)
    }

    /// Takes a submission frame, and on success puts a job with the frame's
    /// payload at the back of the ready queue and returns its id. A frame that
    /// is refused changes nothing.
    ///
    /// A frame that is accepted needs an id: the caller sees to it that the
    /// counter has one left (`can_submit`).
    pub fn submit_job(&mut self, tcp_in: Vec<u8>) -> (result: Result<u64, SubmitError>)
        requires
            old(self).wf(),
            submit_frame_payload(tcp_in@) is Ok ==> old(self)@.can_submit(),
        ensures
            final(self).wf(),
            match submit_frame_payload(tcp_in@) {
                Ok(payload) => {
                    &&& result == Ok::<u64, SubmitError>(old(self)@.next_id)
                    &&& final(self)@ == old(self)@.submit(payload)
                },
                Err(reason) => {
                    &&& result == Err::<u64, SubmitError>(reason)
                    &&& final(self)@ == old(self)@
                },
            },
    {
        let data = match parse_submit(tcp_in.as_slice()) {
            Ok(data) => data,
            Err(reason) => {
                return Err(reason);
            },
        };
        proof {
            lemma_be_value_bound(tcp_in@.subrange(1, 5));
            lemma_radix_pow_values();
            lemma_submit_valid(self@, data@);
        }
        let id = self.next_job_id;
        self.next_job_id = id + 1;
        let job = Job { id, data: JobData { data }, sent: None };
        self.add_job(job);
        assert(self@.ready =~= old(self)@.submit(data@).ready);
        Ok(id)
    }

    /// Hands out the job at the front of the ready queue, stamped with the
    /// present reading of the clock: the job's id in eight bytes, the length of
    /// its payload in four, and the payload. Returns no bytes when no job is
    /// ready.
    pub fn return_job(&mut self) -> (bytes: Vec<u8>)
        requires
            old(self).wf(),
        ensures
            final(self).wf(),
            bytes@ == Self::delivery_frame(old(self)@),
            exists|now: u128| final(self)@ == old(self)@.deliver(now),
    {
        let now = self.clock_reading();
        self.return_job_at(now)
    }

    /// Hands out the job at the front of the ready queue as `return_job` does,
    /// with `now` as the reading of the clock.
    pub fn return_job_at(&mut self, now: u128) -> (bytes: Vec<u8>)
        requires
            old(self).wf(),
        ensures
            final(self).wf(),
            bytes@ == Self::delivery_frame(old(self)@),
            final(self)@ == old(self)@.deliver(now),
    {
        let mut job = match self.get_job() {
            Some(job) => job,
            None => {
                return Vec::new();
            },
        };
        job.sent = Some(now);
        let bytes = encode_delivery(&job);
        let entry = TimeoutEntry { sent: now, id: job.id };
        self.pending_jobs.insert(job.id, job);
        self.unacked_jobs.push(entry);
        proof {
            lemma_deliver_valid(old(self)@, now);
            assert(self@.ready =~= old(self)@.deliver(now).ready);
            assert(self@.pending =~= old(self)@.deliver(now).pending);
        }
        bytes
    }

    /// Removes the job `id` from the pending table, for good.
    pub fn acknowledge(&mut self, id: u64) -> (result: Result<(), HashMapError>)
        requires
            old(self).wf(),
        ensures
            final(self).wf(),
            final(self)@ == old(self)@.acknowledge(id),
            result is Ok <==> old(self)@.pending.contains_key(id),
    {
        let removed = self.pending_jobs.remove(&id);
        proof {
            lemma_acknowledge_valid(old(self)@, id);
            assert(self@.pending =~= old(self)@.acknowledge(id).pending);
        }
        match removed {
            Some(_) => Ok(()),
            None => Err(HashMapError::NoJob),
        }
    }

    /// Takes an acknowledgement frame and removes the job that it names from
    /// the pending table. A frame too short to name a job names none.
    pub fn removed_acked_job(&mut self, tcp_in: Vec<u8>) -> (result: Result<(), HashMapError>)
        requires
            old(self).wf(),
        ensures
            final(self).wf(),
            match ack_frame_id(tcp_in@) {
                Some(id) => {
                    &&& final(self)@ == old(self)@.acknowledge(id)
                    &&& result is Ok <==> old(self)@.pending.contains_key(id)
                },
                None => result is Err && final(self)@ == old(self)@,
            },
    {
        match parse_ack(tcp_in.as_slice()) {
            Some(id) => self.acknowledge(id),
            None => Err(HashMapError::NoJob),
        }
    }

    /// The number of jobs that wait for delivery. Jobs that are delivered and
    /// not acknowledged are not counted.
    pub fn get_queue_length(&self) -> (length: usize)
        ensures
            length == self@.ready.len(),
    {
        self.jobs.len()
    }

    /// Puts `job` at the back of the ready queue.
    fn add_job(&mut self, job: Job)
        ensures
            final(self).jobs@ == old(self).jobs@.push(job),
            final(self).next_job_id == old(self).next_job_id,
            final(self).pending_jobs == old(self).pending_jobs,
            final(self).unacked_jobs == old(self).unacked_jobs,
    {
        self.jobs.push_back(job);
    }

    /// Takes the job at the front of the ready queue.
    fn get_job(&mut self) -> (job: Option<Job>)
        ensures
            final(self).next_job_id == old(self).next_job_id,
            final(self).pending_jobs == old(self).pending_jobs,
            final(self).unacked_jobs == old(self).unacked_jobs,
            match job {
                Some(front) => old(self).jobs@.len() > 0 && front == old(self).jobs@[0]
                    && final(self).jobs@ == old(self).jobs@.drop_first(),
                None => old(self).jobs@.len() == 0 && final(self).jobs@ == old(self).jobs@,
            },
    {
        self.jobs.pop_front()
    }
}

/// One sweep, at the present reading of the clock: every pending job whose
/// delivery has run out of time returns to the back of the ready queue, the
/// one delivered first in front. Returns the ids of the jobs that it moved, in
/// that order.
pub fn requeue(job_queue: &mut JobQueue) -> (requeued: Vec<u64>)
    requires
        old(job_queue).wf(),
    ensures
        final(job_queue).wf(),
        exists|now: u128|
            old(job_queue)@.requeue_order(now, requeued@) && final(job_queue)@ == old(
                job_queue,
            )@.sweep(now, requeued@),
{
    let now = job_queue.clock_reading();
    requeue_at(job_queue, now)
}

/// One sweep as `requeue` makes it, with `now` as the reading of the clock.
///
/// The sweep takes entries from the root of the timeout heap for as long as
/// the root has run out of time. An entry whose job is still pending moves the
/// job to the ready queue; an entry whose job was acknowledged in the meantime
/// is dropped.
pub fn requeue_at(job_queue: &mut JobQueue, now: u128) -> (requeued: Vec<u64>)
    requires
        old(job_queue).wf(),
    ensures
        final(job_queue).wf(),
        old(job_queue)@.requeue_order(now, requeued@),
        final(job_queue)@ == old(job_queue)@.sweep(now, requeued@),
{
    let mut requeued: Vec<u64> = Vec::new();
    let ghost start = job_queue@;
    let ghost mut taken: Multiset<TimeoutEntry> = Multiset::empty();
    proof {
        lemma_sweep_begins(start, now);
    }
    loop
        invariant
            job_queue.intact(),
            start.valid(),
            sweeping(start, now, taken, requeued@, job_queue@),
        ensures
            forall|e: TimeoutEntry| #[trigger]
                job_queue@.timeouts.count(e) > 0 ==> !expired(e.sent, now),
        decreases job_queue@.timeouts.len(),
    {
        let root = match job_queue.unacked_jobs.peek() {
            Some(root) => root,
            None => {
                proof {
                    broadcast use group_multiset_axioms;
                }
                break;
            },
        };
        if !is_expired(root.sent, now) {
            proof {
                lemma_root_has_time_left(job_queue@.timeouts, root, now);
            }
            break;
        }
        let ghost here = job_queue@;
        let ghost ids = requeued@;
        let first = job_queue.unacked_jobs.pop();
        proof {
            broadcast use group_multiset_axioms;
            lemma_order_antisymmetric(root, first->Some_0);
        }
        match job_queue.pending_jobs.remove(&root.id) {
            Some(mut job) => {
                job.sent = None;
                requeued.push(root.id);
                job_queue.add_job(job);
                proof {
                    lemma_root_of_pending_job(start, now, taken, ids, here, root);
                    lemma_sweep_requeues(start, now, taken, ids, here, root);
                    assert(job_queue@.ready =~= after_requeue(here, root).ready);
                    assert(job_queue@.pending =~= after_requeue(here, root).pending);
                }
            },
            None => {
                proof {
                    lemma_sweep_discards(start, now, taken, ids, here, root);
                    assert(job_queue@.pending =~= here.pending);
                }
            },
        }
        proof {
            taken = taken.insert(root);
        }
    }
    proof {
        lemma_sweep_ends(start, now, taken, requeued@, job_queue@);
        lemma_sweep_valid(start, now, requeued@);
    }
    requeued
}

} // verus!
