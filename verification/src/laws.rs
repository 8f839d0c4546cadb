//! What holds of the broker over its whole life.
//!
//! Each proof function states one law over the state machine of the model
//! module, which the executable queue follows step by step.

use crate::handler::{respond, respond_ack, respond_deliver, respond_submit};
use crate::job::JobView;
use crate::model::{lemma_run_valid, lemma_step_valid, Event, QueueState};
use crate::protocol::{
    ack_frame_id, ack_request, delivery_response_id, delivery_response_payload,
    submit_frame_payload, submit_request, OP_DELIVER, STATUS_ERROR, STATUS_OK,
};
use crate::sweep::{lemma_sweep_begins, lemma_sweep_completes};
use crate::wire::{be_bytes, lemma_be_bytes_len, lemma_radix_pow_values, lemma_value_of_bytes};
use vstd::multiset::Multiset;
use vstd::prelude::*;

verus! {

/// The counter never runs backwards.
pub proof fn lemma_counter_grows(q: QueueState, events: Seq<Event>)
    requires
        q.admits_all(events),
    ensures
        q.next_id <= q.run(events).next_id,
    decreases events.len(),
{
    if events.len() > 0 {
        lemma_counter_grows(q.apply(events[0]), events.drop_first());
    }
}

/// Ids increase strictly in the order of submission: a submission receives
/// the id `q.next_id`, and whatever happens afterwards, every later submission
/// receives a larger one. So the ids of any number of submissions are pairwise
/// distinct.
pub proof fn lemma_ids_increase(q: QueueState, payload: Seq<u8>, later: Seq<Event>)
    requires
        q.can_submit(),
        q.submit(payload).admits_all(later),
    ensures
        q.next_id < q.submit(payload).run(later).next_id,
{
    lemma_counter_grows(q.submit(payload), later);
}

/// A job that is pending is not in the ready queue, so no delivery hands it
/// out again while it remains pending: after the delivery of a job and any
/// further steps, if that job is still pending then the job that the next
/// delivery hands out is another one.
pub proof fn lemma_pending_job_is_not_delivered_again(
    q: QueueState,
    now: u128,
    later: Seq<Event>,
    again: u128,
)
    requires
        q.valid(),
        q.ready.len() > 0,
        q.deliver(now).admits_all(later),
        q.deliver(now).run(later).pending.contains_key(q.ready[0].id),
        q.deliver(now).run(later).ready.len() > 0,
    ensures
        q.deliver(now).pending.contains_key(q.ready[0].id),
        q.deliver(now).run(later).delivered(again).id != q.ready[0].id,
{
    lemma_step_valid(q, Event::Deliver { now });
    lemma_run_valid(q.deliver(now), later);
    let end = q.deliver(now).run(later);
    assert(end.ready_job_ok(end.ready[0]));
}

/// A sweep returns an overdue job to the ready queue exactly once: after a
/// sweep at `now`, a job that was pending and whose delivery had run out of
/// time is no longer pending, stands at one place of the ready queue and at no
/// other, and has its payload and no delivery time.
pub proof fn lemma_overdue_job_returns_once(q: QueueState, id: u64, now: u128, requeued: Seq<u64>)
    requires
        q.valid(),
        q.is_overdue(id, now),
        q.requeue_order(now, requeued),
    ensures
        !q.sweep(now, requeued).pending.contains_key(id),
        requeued.contains(id),
        q.sweep(now, requeued).ready[q.ready.len() + requeued.index_of(id)] == (JobView {
            id,
            payload: q.pending[id].payload,
            sent: None,
        }),
        forall|i: int|
            0 <= i < q.sweep(now, requeued).ready.len() && i != q.ready.len() + requeued.index_of(id)
                ==> (#[trigger] q.sweep(now, requeued).ready[i]).id != id,
{
    let after = q.sweep(now, requeued);
    let at = requeued.index_of(id);
    assert(requeued.contains(id));
    assert(0 <= at < requeued.len() && requeued[at] == id);
    assert(q.pending_job_ok(id));
    assert forall|i: int| 0 <= i < after.ready.len() && i != q.ready.len() + at implies (
    #[trigger] after.ready[i]).id != id by {
        if i < q.ready.len() {
            assert(q.ready_job_ok(q.ready[i]));
        } else {
            let other = requeued[i - q.ready.len()];
            assert(q.is_overdue(other, now));
            assert(q.pending_job_ok(other));
            if i - q.ready.len() < at {
                assert(requeued[i - q.ready.len()] != requeued[at]);
            } else {
                assert(requeued[at] != requeued[i - q.ready.len()]);
            }
        }
    }
}

/// A sweep leaves alone what is not overdue: a pending job whose delivery has
/// not run out of time stays pending as it was, and the ready queue keeps its
/// jobs in front of those that return.
pub proof fn lemma_sweep_spares_the_rest(q: QueueState, id: u64, now: u128, requeued: Seq<u64>)
    requires
        q.valid(),
        q.pending.contains_key(id),
        !q.is_overdue(id, now),
        q.requeue_order(now, requeued),
    ensures
        q.sweep(now, requeued).pending.contains_key(id),
        q.sweep(now, requeued).pending[id] == q.pending[id],
        q.sweep(now, requeued).ready.subrange(0, q.ready.len() as int) == q.ready,
{
    assert(q.sweep(now, requeued).ready.subrange(0, q.ready.len() as int) =~= q.ready);
}

/// A sweep is possible in every state and at every reading of the clock: the
/// overdue jobs can be listed in the order in which a sweep returns them.
pub proof fn lemma_sweep_is_possible(q: QueueState, now: u128) -> (requeued: Seq<u64>)
    requires
        q.valid(),
    ensures
        q.admits(Event::Sweep { now, requeued }),
{
    lemma_sweep_begins(q, now);
    lemma_sweep_completes(q, now, Multiset::empty(), Seq::empty(), q)
}

/// The jobs that a sweep returns, and their order, are determined by the
/// state and the reading of the clock.
pub proof fn lemma_requeue_order_unique(q: QueueState, now: u128, a: Seq<u64>, b: Seq<u64>)
    requires
        q.requeue_order(now, a),
        q.requeue_order(now, b),
    ensures
        a == b,
{
    if a.len() <= b.len() {
        lemma_same_front(q, now, a, b, a.len() as int);
        lemma_not_longer(q, now, a, b);
    } else {
        lemma_same_front(q, now, b, a, b.len() as int);
        lemma_not_longer(q, now, b, a);
    }
    assert(a =~= b);
}

/// Two listings of the overdue jobs agree on their first `n` places.
proof fn lemma_same_front(q: QueueState, now: u128, a: Seq<u64>, b: Seq<u64>, n: int)
    requires
        q.requeue_order(now, a),
        q.requeue_order(now, b),
        0 <= n <= a.len(),
        n <= b.len(),
    ensures
        forall|i: int| 0 <= i < n ==> a[i] == b[i],
    decreases n,
{
    if n > 0 {
        lemma_same_front(q, now, a, b, n - 1);
        let i = n - 1;
        assert(q.is_overdue(a[i], now));
        assert(q.is_overdue(b[i], now));
        assert(b.contains(a[i]));
        assert(a.contains(b[i]));
        let j = choose|j: int| 0 <= j < b.len() && b[j] == a[i];
        let k = choose|k: int| 0 <= k < a.len() && a[k] == b[i];
        if j < i {
            assert(a[j] == b[j]);
            assert(a[j] != a[i]);
        }
        if k < i {
            assert(a[k] == b[k]);
            assert(b[k] != b[i]);
        }
        if j > i && k > i {
            assert(q.entry_of(b[i]).no_later_than(q.entry_of(b[j])));
            assert(q.entry_of(a[i]).no_later_than(q.entry_of(a[k])));
        }
    }
}

/// Of two listings of the overdue jobs, the second is not longer than the
/// first when the first is not longer than the second.
proof fn lemma_not_longer(q: QueueState, now: u128, a: Seq<u64>, b: Seq<u64>)
    requires
        q.requeue_order(now, a),
        q.requeue_order(now, b),
        a.len() <= b.len(),
        forall|i: int| 0 <= i < a.len() ==> a[i] == b[i],
    ensures
        a.len() == b.len(),
{
    if a.len() < b.len() {
        let extra = b[a.len() as int];
        assert(q.is_overdue(extra, now));
        assert(a.contains(extra));
        let k = choose|k: int| 0 <= k < a.len() && a[k] == extra;
        assert(b[k] == a[k]);
        assert(b[k] != b[a.len() as int]);
    }
}

/// The job `id` is gone: it was handed out by the counter, and it is neither
/// ready nor pending.
pub open spec fn retired(q: QueueState, id: u64) -> bool {
    &&& id < q.next_id
    &&& !q.pending.contains_key(id)
    &&& forall|i: int| 0 <= i < q.ready.len() ==> (#[trigger] q.ready[i]).id != id
}

/// A job that is gone stays gone through any step.
pub proof fn lemma_retired_step(q: QueueState, id: u64, event: Event)
    requires
        q.valid(),
        q.admits(event),
        retired(q, id),
    ensures
        retired(q.apply(event), id),
{
    let after = q.apply(event);
    match event {
        Event::Submit { payload } => {},
        Event::Deliver { now } => {
            if q.ready.len() > 0 {
                assert forall|i: int| 0 <= i < after.ready.len() implies (
                #[trigger] after.ready[i]).id != id by {
                    assert(after.ready[i] == q.ready[i + 1]);
                }
                assert(q.ready[0].id != id);
            }
        },
        Event::Acknowledge { id: other } => {},
        Event::Sweep { now, requeued } => {
            assert forall|i: int| 0 <= i < after.ready.len() implies (
            #[trigger] after.ready[i]).id != id by {
                if i >= q.ready.len() {
                    let back = requeued[i - q.ready.len()];
                    assert(q.is_overdue(back, now));
                    assert(q.pending_job_ok(back));
                }
            }
        },
    }
}

/// A job that is gone stays gone whatever happens.
pub proof fn lemma_retired_run(q: QueueState, id: u64, events: Seq<Event>)
    requires
        q.valid(),
        q.admits_all(events),
        retired(q, id),
    ensures
        retired(q.run(events), id),
    decreases events.len(),
{
    if events.len() > 0 {
        lemma_step_valid(q, events[0]);
        lemma_retired_step(q, id, events[0]);
        lemma_retired_run(q.apply(events[0]), id, events.drop_first());
    }
}

/// An acknowledgement removes a job for good: whatever happens after the
/// pending job `id` is acknowledged, the job is not pending, so that another
/// acknowledgement of it finds no job, and it is not in the ready queue, so
/// that the queue's length does not count it.
pub proof fn lemma_acknowledged_job_is_gone(q: QueueState, id: u64, later: Seq<Event>)
    requires
        q.valid(),
        q.pending.contains_key(id),
        q.acknowledge(id).admits_all(later),
    ensures
        !q.acknowledge(id).run(later).pending.contains_key(id),
        forall|i: int|
            0 <= i < q.acknowledge(id).run(later).ready.len() ==> (#[trigger] q.acknowledge(id).run(
                later,
            ).ready[i]).id != id,
{
    lemma_step_valid(q, Event::Acknowledge { id });
    assert(q.pending_job_ok(id));
    assert forall|i: int| 0 <= i < q.ready.len() implies (#[trigger] q.ready[i]).id != id by {
        assert(q.ready_job_ok(q.ready[i]));
    }
    lemma_retired_run(q.acknowledge(id), id, later);
}

/// The job `id`, wherever it is, carries `payload`.
pub open spec fn carries(q: QueueState, id: u64, payload: Seq<u8>) -> bool {
    &&& q.pending.contains_key(id) ==> q.pending[id].payload == payload
    &&& forall|i: int|
        0 <= i < q.ready.len() && (#[trigger] q.ready[i]).id == id ==> q.ready[i].payload == payload
}

/// No step changes the payload of a job.
pub proof fn lemma_carries_step(q: QueueState, id: u64, payload: Seq<u8>, event: Event)
    requires
        q.valid(),
        q.admits(event),
        id < q.next_id,
        carries(q, id, payload),
    ensures
        carries(q.apply(event), id, payload),
{
    let after = q.apply(event);
    match event {
        Event::Submit { payload: fresh } => {},
        Event::Deliver { now } => {
            if q.ready.len() > 0 {
                assert forall|i: int| 0 <= i < after.ready.len() && (#[trigger] after.ready[i]).id
                    == id implies after.ready[i].payload == payload by {
                    assert(after.ready[i] == q.ready[i + 1]);
                }
                assert(q.ready[0].id == id ==> q.ready[0].payload == payload);
            }
        },
        Event::Acknowledge { id: other } => {},
        Event::Sweep { now, requeued } => {
            assert forall|i: int| 0 <= i < after.ready.len() && (#[trigger] after.ready[i]).id
                == id implies after.ready[i].payload == payload by {
                if i >= q.ready.len() {
                    let back = requeued[i - q.ready.len()];
                    assert(q.is_overdue(back, now));
                    assert(q.pending_job_ok(back));
                } else {
                    assert(after.ready[i] == q.ready[i]);
                }
            }
        },
    }
}

/// No sequence of steps changes the payload of a job.
pub proof fn lemma_carries_run(q: QueueState, id: u64, payload: Seq<u8>, events: Seq<Event>)
    requires
        q.valid(),
        q.admits_all(events),
        id < q.next_id,
        carries(q, id, payload),
    ensures
        carries(q.run(events), id, payload),
    decreases events.len(),
{
    if events.len() > 0 {
        lemma_step_valid(q, events[0]);
        lemma_carries_step(q, id, payload, events[0]);
        lemma_carries_run(q.apply(events[0]), id, payload, events.drop_first());
    }
}

/// A submission frame made from a payload carries that payload.
pub proof fn lemma_submit_request_carries_payload(payload: Seq<u8>)
    requires
        QueueState::payload_ok(payload),
    ensures
        submit_frame_payload(submit_request(payload)) == Ok::<Seq<u8>, crate::job::SubmitError>(
            payload,
        ),
{
    let frame = submit_request(payload);
    let field = be_bytes(payload.len(), 4);
    lemma_be_bytes_len(payload.len(), 4);
    lemma_radix_pow_values();
    lemma_value_of_bytes(payload.len(), 4);
    assert(frame.subrange(1, 5) =~= field);
    assert(frame.subrange(5, 5 + payload.len() as int) =~= payload);
}

/// The response to a delivery request carries the id and the payload of the
/// job at the front of the ready queue.
pub proof fn lemma_delivery_response_carries_job(q: QueueState, now: u128)
    requires
        q.valid(),
        q.ready.len() > 0,
    ensures
        respond_deliver(q, now).1[0] == STATUS_OK,
        delivery_response_id(respond_deliver(q, now).1) == q.ready[0].id,
        delivery_response_payload(respond_deliver(q, now).1) == q.ready[0].payload,
{
    let job = q.ready[0];
    let response = respond_deliver(q, now).1;
    assert(q.ready_job_ok(job));
    lemma_be_bytes_len(job.id as nat, 8);
    lemma_be_bytes_len(job.payload.len(), 4);
    lemma_radix_pow_values();
    lemma_value_of_bytes(job.id as nat, 8);
    lemma_value_of_bytes(job.payload.len(), 4);
    assert(response.subrange(1, 9) =~= be_bytes(job.id as nat, 8));
    assert(response.subrange(9, 13) =~= be_bytes(job.payload.len(), 4));
    assert(response.subrange(13, 13 + job.payload.len() as int) =~= job.payload);
}

/// Payloads survive the round trip: when a client submits `payload` in a frame
/// and the broker accepts it, then whatever happens afterwards, a delivery
/// that hands out the new job answers with bytes that carry `payload`.
pub proof fn lemma_payload_round_trip(
    q: QueueState,
    payload: Seq<u8>,
    later: Seq<Event>,
    now: u128,
)
    requires
        q.valid(),
        q.can_submit(),
        QueueState::payload_ok(payload),
        respond_submit(q, submit_request(payload)).0.admits_all(later),
        respond_submit(q, submit_request(payload)).0.run(later).ready.len() > 0,
        respond_submit(q, submit_request(payload)).0.run(later).ready[0].id == q.next_id,
    ensures
        respond_submit(q, submit_request(payload)).0 == q.submit(payload),
        delivery_response_id(
            respond_deliver(respond_submit(q, submit_request(payload)).0.run(later), now).1,
        ) == q.next_id,
        delivery_response_payload(
            respond_deliver(respond_submit(q, submit_request(payload)).0.run(later), now).1,
        ) == payload,
{
    lemma_submit_request_carries_payload(payload);
    let accepted = q.submit(payload);
    lemma_step_valid(q, Event::Submit { payload });
    assert(carries(accepted, q.next_id, payload)) by {
        if accepted.pending.contains_key(q.next_id) {
            assert(q.pending_job_ok(q.next_id));
        }
        assert forall|i: int| 0 <= i < accepted.ready.len() && (#[trigger] accepted.ready[i]).id
            == q.next_id implies accepted.ready[i].payload == payload by {
            if i < q.ready.len() {
                assert(q.ready_job_ok(q.ready[i]));
            }
        }
    }
    lemma_run_valid(accepted, later);
    lemma_carries_run(accepted, q.next_id, payload, later);
    lemma_delivery_response_carries_job(accepted.run(later), now);
}

/// An acknowledgement frame made from an id names that id.
pub proof fn lemma_ack_request_names_id(id: u64)
    ensures
        ack_frame_id(ack_request(id)) == Some(id),
{
    lemma_be_bytes_len(id as nat, 8);
    lemma_radix_pow_values();
    lemma_value_of_bytes(id as nat, 8);
    assert(ack_request(id).subrange(1, 9) =~= be_bytes(id as nat, 8));
}

/// A worker can acknowledge what it was given: the id that the response to a
/// delivery request carries, sent back in an acknowledgement frame, removes
/// the delivered job from the pending table and is answered with the status
/// byte alone.
pub proof fn lemma_delivered_job_can_be_acknowledged(q: QueueState, now: u128)
    requires
        q.valid(),
        q.ready.len() > 0,
    ensures
        respond_ack(
            respond_deliver(q, now).0,
            ack_request(delivery_response_id(respond_deliver(q, now).1) as u64),
        ) == (q.deliver(now).acknowledge(q.ready[0].id), seq![STATUS_OK]),
{
    lemma_delivery_response_carries_job(q, now);
    lemma_ack_request_names_id(q.ready[0].id);
}

/// A delivery request that finds no job ready is answered with the one error
/// byte, and changes nothing.
pub proof fn lemma_deliver_on_empty(q: QueueState, request: Seq<u8>, now: u128)
    requires
        request.len() > 0,
        request[0] == OP_DELIVER,
        q.ready.len() == 0,
    ensures
        respond(q, request, now) == (q, seq![STATUS_ERROR]),
{
}

} // verus!
