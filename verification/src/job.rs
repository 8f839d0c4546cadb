//! Jobs, and the ways in which a request about a job can fail.

use vstd::prelude::*;

verus! {

/// Why a submission was refused.
#[derive(Clone, Copy, Debug, PartialEq, Eq, Structural)]
pub enum SubmitError {
    /// The frame is cut short: it ends before its length field does, or
    /// before the payload that the length field announces.
    InvalidFormat,
    /// A field that has to be a number is none. No frame of the binary
    /// protocol has such a field, so no submission reports this.
    NotANumber,
    /// The frame announces a payload of no bytes.
    EmptyInput,
    /// The request holds no opcode. A frame without its first byte is cut
    /// short like any other, so no submission reports this.
    NoOpcode,
}

/// Why the pending table refused an acknowledgement.
#[derive(Clone, Copy, Debug, PartialEq, Eq, Structural)]
pub enum HashMapError {
    /// No job of that id is delivered and still unacknowledged.
    NoJob,
}

/// The payload of a job: bytes that mean nothing to the broker.
#[derive(Clone, Debug, PartialEq, Eq)]
pub struct JobData {
    pub data: Vec<u8>,
}

/// A unit of work.
#[derive(Clone, Debug, PartialEq, Eq)]
pub struct Job {
    /// Assigned at submission and never used again for another job.
    pub id: u64,
    /// What the submitter sent.
    pub data: JobData,
    /// Clock reading, in nanoseconds, at the instant the job was handed to a
    /// worker; `None` while the job waits in the ready queue.
    pub sent: Option<u128>,
}

/// A job as the contracts see it.
pub struct JobView {
    pub id: u64,
    pub payload: Seq<u8>,
    pub sent: Option<u128>,
}

impl View for JobData {
    type V = Seq<u8>;

    open spec fn view(&self) -> Seq<u8> {
        self.data@
    }
}

impl View for Job {
    type V = JobView;

    open spec fn view(&self) -> JobView {
        JobView { id: self.id, payload: self.data.data@, sent: self.sent }
    }
}

impl JobData {
    /// Wraps `data` as the payload of a job. The receiver is not read.
    pub fn create_job_data(&self, data: Vec<u8>) -> (job_data: JobData)
        ensures
            job_data@ == data@,
    {
        JobData { data }
    }
}

impl Job {
    /// A job of the given id and payload that has not been delivered. The
    /// receiver is not read.
    pub fn create_job(&self, id: u64, data: JobData) -> (job: Job)
        ensures
            job@ == (JobView { id, payload: data@, sent: None }),
    {
        Job { id, data, sent: None }
    }
}

} // verus!
