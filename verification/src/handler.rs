//! The protocol handler: one request in, one response out.

use crate::model::QueueState;
use crate::protocol::{
    ack_frame_id, delivery_bytes, submit_frame_payload, OP_ACK, OP_DELIVER, OP_LENGTH, OP_PING,
    OP_SUBMIT, STATUS_BAD_OPCODE, STATUS_EMPTY_REQUEST, STATUS_ERROR, STATUS_OK, STATUS_PONG,
};
use crate::queue::JobQueue;
use crate::wire::{be_bytes, lemma_be_bytes_len, write_be};
use vstd::prelude::*;

verus! {

/// The number of bytes of a machine word, which is the width of the response
/// to a request for the queue's length.
pub open spec fn native_width() -> nat {
    (usize::BITS / 8) as nat
}

/// What a submission does to the broker, and the response it is owed: the
/// status byte and the four low-order bytes of the new id, or the error byte
/// when the frame is refused or the counter has no id left.
pub open spec fn respond_submit(q: QueueState, request: Seq<u8>) -> (QueueState, Seq<u8>) {
    match submit_frame_payload(request) {
        Ok(payload) => if q.can_submit() {
            (q.submit(payload), seq![STATUS_OK] + be_bytes(q.next_id as nat, 4))
        } else {
            (q, seq![STATUS_ERROR])
        },
        Err(_) => (q, seq![STATUS_ERROR]),
    }
}

/// What a delivery request at `now` does to the broker, and the response it
/// is owed: the status byte and the job, or the error byte when no job is
/// ready.
pub open spec fn respond_deliver(q: QueueState, now: u128) -> (QueueState, Seq<u8>) {
    if q.ready.len() == 0 {
        (q, seq![STATUS_ERROR])
    } else {
        (q.deliver(now), seq![STATUS_OK] + delivery_bytes(q.ready[0]))
    }
}

/// What an acknowledgement does to the broker, and the response it is owed:
/// the status byte when the job was pending, the error byte when it was not
/// or the frame names no job.
pub open spec fn respond_ack(q: QueueState, request: Seq<u8>) -> (QueueState, Seq<u8>) {
    match ack_frame_id(request) {
        Some(id) => if q.pending.contains_key(id) {
            (q.acknowledge(id), seq![STATUS_OK])
        } else {
            (q, seq![STATUS_ERROR])
        },
        None => (q, seq![STATUS_ERROR]),
    }
}

/// What a request that arrives at `now` does to the broker, and the response
/// it is owed.
pub open spec fn respond(q: QueueState, request: Seq<u8>, now: u128) -> (QueueState, Seq<u8>) {
    if request.len() == 0 {
        (q, seq![STATUS_EMPTY_REQUEST])
    } else if request[0] == OP_SUBMIT {
        respond_submit(q, request)
    } else if request[0] == OP_DELIVER {
        respond_deliver(q, now)
    } else if request[0] == OP_ACK {
        respond_ack(q, request)
    } else if request[0] == OP_LENGTH {
        (q, be_bytes(q.ready.len(), native_width()))
    } else if request[0] == OP_PING {
        (q, seq![STATUS_PONG])
    } else {
        (q, seq![STATUS_BAD_OPCODE])
    }
}

/// Serves one request, with the present reading of the queue's clock as the
/// time of a delivery.
pub fn handle_request(queue: &mut JobQueue, request: &[u8]) -> (response: Vec<u8>)
    requires
        old(queue).wf(),
    ensures
        final(queue).wf(),
        exists|now: u128| (final(queue)@, response@) == respond(old(queue)@, request@, now),
{
    let now = queue.clock_reading();
    handle_request_at(queue, request, now)
}

/// Serves one request as `handle_request` does, with `now` as the reading of
/// the clock.
pub fn handle_request_at(queue: &mut JobQueue, request: &[u8], now: u128) -> (response: Vec<u8>)
    requires
        old(queue).wf(),
    ensures
        final(queue).wf(),
        (final(queue)@, response@) == respond(old(queue)@, request@, now),
{
    if request.len() == 0 {
        return single(STATUS_EMPTY_REQUEST);
    }
    let opcode = request[0];
    if opcode == OP_SUBMIT {
        if !queue.can_submit() {
            return single(STATUS_ERROR);
        }
        let mut frame: Vec<u8> = Vec::new();
        frame.extend_from_slice(request);
        assert(frame@ =~= request@);
        match queue.submit_job(frame) {
            Ok(id) => {
                let mut response = single(STATUS_OK);
                write_be(&mut response, id, 4);
                response
            },
            Err(_) => single(STATUS_ERROR),
        }
    } else if opcode == OP_DELIVER {
        let job_bytes = queue.return_job_at(now);
        proof {
            if old(queue)@.ready.len() > 0 {
                lemma_be_bytes_len(old(queue)@.ready[0].id as nat, 8);
            }
        }
        if job_bytes.len() == 0 {
            single(STATUS_ERROR)
        } else {
            let mut response = single(STATUS_OK);
            response.extend_from_slice(job_bytes.as_slice());
            assert(response@ =~= seq![STATUS_OK] + job_bytes@);
            response
        }
    } else if opcode == OP_ACK {
        let mut frame: Vec<u8> = Vec::new();
        frame.extend_from_slice(request);
        assert(frame@ =~= request@);
        match queue.removed_acked_job(frame) {
            Ok(()) => single(STATUS_OK),
            Err(_) => {
                assert(queue@ =~= old(queue)@) by {
                    if ack_frame_id(request@) is Some {
                        let id = ack_frame_id(request@)->Some_0;
                        assert(old(queue)@.pending.remove(id) =~= old(queue)@.pending);
                    }
                }
                single(STATUS_ERROR)
            },
        }
    } else if opcode == OP_LENGTH {
        let mut response: Vec<u8> = Vec::new();
        write_be(&mut response, queue.get_queue_length() as u64, (usize::BITS / 8) as usize);
        assert(response@ =~= be_bytes(queue@.ready.len(), native_width()));
        response
    } else if opcode == OP_PING {
        single(STATUS_PONG)
    } else {
        single(STATUS_BAD_OPCODE)
    }
}

/// A response of one byte.
fn single(code: u8) -> (response: Vec<u8>)
    ensures
        response@ == seq![code],
{
    let mut response: Vec<u8> = Vec::new();
    response.push(code);
    assert(response@ =~= seq![code]);
    response
}

} // verus!
