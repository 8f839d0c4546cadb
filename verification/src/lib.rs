//! An in-memory job-queue broker: clients submit opaque byte payloads, workers
//! pull them one at a time and acknowledge them, and deliveries that are not
//! acknowledged in time return to the queue.
//!
//! The broker is a state machine ([`model`]) that the executable queue
//! ([`queue`]) follows step by step, with a binary heap ([`timeout_heap`]) to
//! find the deliveries that ran out of time ([`sweep`]). [`handler`] maps the
//! frames of the binary protocol ([`protocol`], [`wire`]) to the steps of the
//! machine, and [`laws`] states what holds of it over its whole life.

pub mod clock;
pub mod handler;
pub mod job;
pub mod laws;
pub mod model;
pub mod protocol;
pub mod queue;
pub mod sweep;
pub mod timeout_heap;
pub mod wire;

pub use crate::handler::{handle_request, handle_request_at};
pub use crate::job::{HashMapError, Job, JobData, SubmitError};
pub use crate::queue::{requeue, requeue_at, JobQueue};
