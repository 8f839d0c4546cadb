//! The frames of the binary protocol.
//!
//! A request begins with one opcode byte. What follows depends on the opcode;
//! every multi-byte number is big-endian. The spec functions of this module
//! say what a frame means, and the executable functions are proved to read
//! and write frames accordingly.

use crate::job::{Job, JobView, SubmitError};
use crate::wire::{
    be_bytes, be_value, lemma_be_value_bound, lemma_radix_pow_values, read_be, write_be,
};
use vstd::prelude::*;
use vstd::slice::slice_subrange;

verus! {

/// Opcode of a submission: a length field of four bytes, then the payload.
pub const OP_SUBMIT: u8 = 1;

/// Opcode of a request for the next job.
pub const OP_DELIVER: u8 = 2;

/// Opcode of an acknowledgement: the id of the job, in eight bytes.
pub const OP_ACK: u8 = 3;

/// Opcode of a request for the number of ready jobs.
pub const OP_LENGTH: u8 = 5;

/// Opcode of a ping.
pub const OP_PING: u8 = 6;

/// First byte of a response to a request that succeeded.
pub const STATUS_OK: u8 = 0;

/// The whole response to a request that failed, and to a request for a job
/// when none is ready.
pub const STATUS_ERROR: u8 = 1;

/// The whole response to a request with an opcode that means nothing.
pub const STATUS_BAD_OPCODE: u8 = 2;

/// The whole response to a request of no bytes.
pub const STATUS_EMPTY_REQUEST: u8 = 3;

/// The whole response to a ping.
pub const STATUS_PONG: u8 = 69;

/// Bytes in front of the payload of a submission: opcode and length field.
pub const SUBMIT_HEADER_LEN: usize = 5;

/// Bytes of an acknowledgement that the broker reads: opcode and id.
pub const ACK_FRAME_LEN: usize = 9;

/// The payload that a submission frame carries, or the reason why it carries
/// none. Bytes behind the announced payload are not looked at.
pub open spec fn submit_frame_payload(frame: Seq<u8>) -> Result<Seq<u8>, SubmitError> {
    if frame.len() < 5 {
        Err(SubmitError::InvalidFormat)
    } else if be_value(frame.subrange(1, 5)) == 0 {
        Err(SubmitError::EmptyInput)
    } else if frame.len() < 5 + be_value(frame.subrange(1, 5)) {
        Err(SubmitError::InvalidFormat)
    } else {
        Ok(frame.subrange(5, 5 + be_value(frame.subrange(1, 5)) as int))
    }
}

/// The id that an acknowledgement frame names, if the frame is long enough to
/// name one. Bytes behind the id are not looked at.
pub open spec fn ack_frame_id(frame: Seq<u8>) -> Option<u64> {
    if frame.len() < 9 {
        None
    } else {
        Some(be_value(frame.subrange(1, 9)) as u64)
    }
}

/// A delivered job on the wire: its id in eight bytes, the length of its
/// payload in four, and the payload.
pub open spec fn delivery_bytes(job: JobView) -> Seq<u8> {
    be_bytes(job.id as nat, 8) + be_bytes(job.payload.len(), 4) + job.payload
}

/// The frame by which a client submits `payload`.
pub open spec fn submit_request(payload: Seq<u8>) -> Seq<u8> {
    seq![OP_SUBMIT] + be_bytes(payload.len(), 4) + payload
}

/// The frame by which a worker acknowledges the job `id`.
pub open spec fn ack_request(id: u64) -> Seq<u8> {
    seq![OP_ACK] + be_bytes(id as nat, 8)
}

/// The id that the response to a successful delivery request carries.
pub open spec fn delivery_response_id(response: Seq<u8>) -> nat {
    be_value(response.subrange(1, 9))
}

/// The payload that the response to a successful delivery request carries.
pub open spec fn delivery_response_payload(response: Seq<u8>) -> Seq<u8> {
    response.subrange(13, 13 + be_value(response.subrange(9, 13)) as int)
}

/// Reads a submission frame.
pub fn parse_submit(frame: &[u8]) -> (parsed: Result<Vec<u8>, SubmitError>)
    ensures
        match submit_frame_payload(frame@) {
            Ok(payload) => parsed is Ok && parsed->Ok_0@ == payload,
            Err(reason) => parsed == Err::<Vec<u8>, SubmitError>(reason),
        },
{
    if frame.len() < SUBMIT_HEADER_LEN {
        return Err(SubmitError::InvalidFormat);
    }
    let declared: u64 = read_be(frame, 1, 4);
    proof {
        lemma_be_value_bound(frame@.subrange(1, 5));
        lemma_radix_pow_values();
    }
    if declared == 0 {
        return Err(SubmitError::EmptyInput);
    }
    if ((frame.len() - SUBMIT_HEADER_LEN) as u64) < declared {
        return Err(SubmitError::InvalidFormat);
    }
    let end: usize = SUBMIT_HEADER_LEN + declared as usize;
    let mut payload: Vec<u8> = Vec::new();
    payload.extend_from_slice(slice_subrange(frame, SUBMIT_HEADER_LEN, end));
    assert(payload@ =~= frame@.subrange(5, 5 + be_value(frame@.subrange(1, 5)) as int));
    Ok(payload)
}

/// Reads an acknowledgement frame.
pub fn parse_ack(frame: &[u8]) -> (id: Option<u64>)
    ensures
        id == ack_frame_id(frame@),
{
    if frame.len() < ACK_FRAME_LEN {
        None
    } else {
        Some(read_be(frame, 1, 8))
    }
}

/// Writes a job as a delivery carries it.
pub fn encode_delivery(job: &Job) -> (bytes: Vec<u8>)
    ensures
        bytes@ == delivery_bytes(job@),
{
    let mut bytes: Vec<u8> = Vec::new();
    write_be(&mut bytes, job.id, 8);
    write_be(&mut bytes, job.data.data.len() as u64, 4);
    bytes.extend_from_slice(job.data.data.as_slice());
    assert(bytes@ =~= delivery_bytes(job@));
    bytes
}

} // verus!
