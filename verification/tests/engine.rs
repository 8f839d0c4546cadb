use job_queue::model::{is_expired, ACK_TIMEOUT_NANOS, SWEEP_PERIOD_SECS};
use job_queue::{requeue, requeue_at, HashMapError, Job, JobData, JobQueue, SubmitError};

const SECOND: u128 = 1_000_000_000;

fn submit_frame(payload: &[u8]) -> Vec<u8> {
    let mut frame = vec![1u8];
    frame.extend_from_slice(&(payload.len() as u32).to_be_bytes());
    frame.extend_from_slice(payload);
    frame
}

fn ack_frame(id: u64) -> Vec<u8> {
    let mut frame = vec![3u8];
    frame.extend_from_slice(&id.to_be_bytes());
    frame
}

fn delivered_id(bytes: &[u8]) -> u64 {
    let mut id = [0u8; 8];
    id.copy_from_slice(&bytes[0..8]);
    u64::from_be_bytes(id)
}

#[test]
fn new_queue_is_empty() {
    let mut queue = JobQueue::new();
    assert_eq!(queue.get_queue_length(), 0);
    assert!(queue.can_submit());
    assert!(queue.return_job_at(0).is_empty());
    assert!(requeue_at(&mut queue, 100 * SECOND).is_empty());
}

#[test]
fn submit_job_hands_out_ids_from_zero() {
    let mut queue = JobQueue::new();
    assert_eq!(queue.submit_job(submit_frame(b"a")), Ok(0));
    assert_eq!(queue.submit_job(submit_frame(b"b")), Ok(1));
    assert_eq!(queue.submit_job(submit_frame(b"c")), Ok(2));
    assert_eq!(queue.get_queue_length(), 3);
}

#[test]
fn refused_submission_uses_no_id() {
    let mut queue = JobQueue::new();
    assert_eq!(queue.submit_job(submit_frame(b"a")), Ok(0));
    assert_eq!(queue.submit_job(vec![1, 0, 0, 0, 0]), Err(SubmitError::EmptyInput));
    assert_eq!(queue.submit_job(vec![1, 0, 0]), Err(SubmitError::InvalidFormat));
    assert_eq!(queue.submit_job(submit_frame(b"b")), Ok(1));
    assert_eq!(queue.get_queue_length(), 2);
}

#[test]
fn submit_job_reports_invalid_format() {
    let mut queue = JobQueue::new();
    assert_eq!(queue.submit_job(vec![]), Err(SubmitError::InvalidFormat));
    assert_eq!(queue.submit_job(vec![1]), Err(SubmitError::InvalidFormat));
    assert_eq!(queue.submit_job(vec![1, 0, 0, 0]), Err(SubmitError::InvalidFormat));
    assert_eq!(queue.submit_job(vec![1, 0, 0, 0, 2, 7]), Err(SubmitError::InvalidFormat));
    assert_eq!(queue.submit_job(vec![1, 255, 255, 255, 255, 7]), Err(SubmitError::InvalidFormat));
    assert_eq!(queue.get_queue_length(), 0);
}

#[test]
fn submit_job_reports_empty_input() {
    let mut queue = JobQueue::new();
    assert_eq!(queue.submit_job(vec![1, 0, 0, 0, 0]), Err(SubmitError::EmptyInput));
    assert_eq!(queue.submit_job(vec![1, 0, 0, 0, 0, 9, 9]), Err(SubmitError::EmptyInput));
}

#[test]
fn submit_job_does_not_look_at_the_opcode() {
    let mut queue = JobQueue::new();
    assert_eq!(queue.submit_job(vec![9, 0, 0, 0, 1, 42]), Ok(0));
    assert_eq!(queue.return_job_at(0), vec![0, 0, 0, 0, 0, 0, 0, 0, 0, 0, 0, 1, 42]);
}

#[test]
fn return_job_writes_id_length_and_payload() {
    let mut queue = JobQueue::new();
    queue.submit_job(submit_frame(b"one")).unwrap();
    queue.submit_job(submit_frame(&[0xAB; 300])).unwrap();
    assert_eq!(queue.return_job_at(7), vec![0, 0, 0, 0, 0, 0, 0, 0, 0, 0, 0, 3, b'o', b'n', b'e']);
    let second = queue.return_job_at(8);
    assert_eq!(&second[0..8], &[0, 0, 0, 0, 0, 0, 0, 1]);
    assert_eq!(&second[8..12], &[0, 0, 1, 44]);
    assert_eq!(&second[12..], &[0xAB; 300][..]);
    assert!(queue.return_job_at(9).is_empty());
}

#[test]
fn return_job_reads_the_clock() {
    let mut queue = JobQueue::new();
    queue.submit_job(submit_frame(b"now")).unwrap();
    let bytes = queue.return_job();
    assert_eq!(delivered_id(&bytes), 0);
    assert_eq!(&bytes[12..], b"now");
    assert!(requeue(&mut queue).is_empty());
    assert_eq!(queue.get_queue_length(), 0);
    assert_eq!(queue.acknowledge(0), Ok(()));
}

#[test]
fn delivered_job_is_not_delivered_again() {
    let mut queue = JobQueue::new();
    queue.submit_job(submit_frame(b"a")).unwrap();
    queue.submit_job(submit_frame(b"b")).unwrap();
    assert_eq!(delivered_id(&queue.return_job_at(1)), 0);
    assert_eq!(delivered_id(&queue.return_job_at(2)), 1);
    assert!(queue.return_job_at(3).is_empty());
    assert_eq!(queue.get_queue_length(), 0);
}

#[test]
fn acknowledge_removes_for_good() {
    let mut queue = JobQueue::new();
    queue.submit_job(submit_frame(b"a")).unwrap();
    queue.return_job_at(0);
    assert_eq!(queue.acknowledge(0), Ok(()));
    assert_eq!(queue.acknowledge(0), Err(HashMapError::NoJob));
    assert!(requeue_at(&mut queue, 1000 * SECOND).is_empty());
    assert_eq!(queue.get_queue_length(), 0);
    assert_eq!(queue.acknowledge(0), Err(HashMapError::NoJob));
    assert!(queue.return_job_at(2000 * SECOND).is_empty());
}

#[test]
fn removed_acked_job_reads_the_id_from_the_frame() {
    let mut queue = JobQueue::new();
    queue.submit_job(submit_frame(b"a")).unwrap();
    queue.submit_job(submit_frame(b"b")).unwrap();
    queue.return_job_at(0);
    queue.return_job_at(0);
    assert_eq!(queue.removed_acked_job(ack_frame(1)), Ok(()));
    assert_eq!(queue.removed_acked_job(ack_frame(1)), Err(HashMapError::NoJob));
    assert_eq!(queue.removed_acked_job(ack_frame(2)), Err(HashMapError::NoJob));
    assert_eq!(queue.removed_acked_job(vec![3, 0, 0]), Err(HashMapError::NoJob));
    assert_eq!(queue.removed_acked_job(vec![]), Err(HashMapError::NoJob));
    let mut long = ack_frame(0);
    long.extend_from_slice(&[1, 2, 3]);
    assert_eq!(queue.removed_acked_job(long), Ok(()));
}

#[test]
fn acknowledge_of_an_id_beyond_four_bytes() {
    let mut queue = JobQueue::new();
    queue.submit_job(submit_frame(b"a")).unwrap();
    queue.return_job_at(0);
    assert_eq!(queue.removed_acked_job(ack_frame(1 << 32)), Err(HashMapError::NoJob));
    assert_eq!(queue.removed_acked_job(ack_frame(u64::MAX)), Err(HashMapError::NoJob));
    assert_eq!(queue.removed_acked_job(ack_frame(0)), Ok(()));
}

#[test]
fn timeout_is_thirty_seconds() {
    assert_eq!(ACK_TIMEOUT_NANOS, 30_000_000_000);
    assert_eq!(SWEEP_PERIOD_SECS, 30);
    assert!(!is_expired(0, 0));
    assert!(!is_expired(0, 30 * SECOND - 1));
    assert!(is_expired(0, 30 * SECOND));
    assert!(is_expired(5, 30 * SECOND + 5));
    assert!(!is_expired(6, 30 * SECOND + 5));
    assert!(!is_expired(100 * SECOND, 0));
    assert!(is_expired(0, u128::MAX));
}

#[test]
fn sweep_returns_a_job_that_ran_out_of_time() {
    let mut queue = JobQueue::new();
    queue.submit_job(submit_frame(b"late")).unwrap();
    queue.return_job_at(10 * SECOND);
    assert!(requeue_at(&mut queue, 40 * SECOND - 1).is_empty());
    assert_eq!(queue.get_queue_length(), 0);
    assert_eq!(requeue_at(&mut queue, 40 * SECOND), vec![0]);
    assert_eq!(queue.get_queue_length(), 1);
    assert_eq!(queue.acknowledge(0), Err(HashMapError::NoJob));
    assert!(requeue_at(&mut queue, 80 * SECOND).is_empty());
    assert_eq!(queue.get_queue_length(), 1);
    let again = queue.return_job_at(81 * SECOND);
    assert_eq!(delivered_id(&again), 0);
    assert_eq!(&again[12..], b"late");
    assert_eq!(queue.acknowledge(0), Ok(()));
}

#[test]
fn sweep_puts_returned_jobs_behind_ready_ones() {
    let mut queue = JobQueue::new();
    queue.submit_job(submit_frame(b"a")).unwrap();
    queue.return_job_at(0);
    queue.submit_job(submit_frame(b"b")).unwrap();
    assert_eq!(requeue_at(&mut queue, 30 * SECOND), vec![0]);
    assert_eq!(queue.get_queue_length(), 2);
    assert_eq!(delivered_id(&queue.return_job_at(31 * SECOND)), 1);
    assert_eq!(delivered_id(&queue.return_job_at(31 * SECOND)), 0);
}

#[test]
fn sweep_returns_jobs_earliest_delivery_first() {
    let mut queue = JobQueue::new();
    for _ in 0..5 {
        queue.submit_job(submit_frame(b"x")).unwrap();
    }
    queue.return_job_at(5 * SECOND);
    queue.return_job_at(3 * SECOND);
    queue.return_job_at(3 * SECOND);
    queue.return_job_at(1 * SECOND);
    queue.return_job_at(50 * SECOND);
    assert_eq!(requeue_at(&mut queue, 36 * SECOND), vec![3, 1, 2, 0]);
    assert_eq!(queue.get_queue_length(), 4);
    assert!(requeue_at(&mut queue, 36 * SECOND).is_empty());
    assert_eq!(requeue_at(&mut queue, 80 * SECOND), vec![4]);
    assert_eq!(delivered_id(&queue.return_job_at(90 * SECOND)), 3);
    assert_eq!(delivered_id(&queue.return_job_at(90 * SECOND)), 1);
    assert_eq!(delivered_id(&queue.return_job_at(90 * SECOND)), 2);
    assert_eq!(delivered_id(&queue.return_job_at(90 * SECOND)), 0);
    assert_eq!(delivered_id(&queue.return_job_at(90 * SECOND)), 4);
}

#[test]
fn sweep_drops_entries_of_acknowledged_jobs() {
    let mut queue = JobQueue::new();
    for _ in 0..3 {
        queue.submit_job(submit_frame(b"x")).unwrap();
    }
    queue.return_job_at(0);
    queue.return_job_at(1);
    queue.return_job_at(2);
    assert_eq!(queue.acknowledge(1), Ok(()));
    assert_eq!(requeue_at(&mut queue, 100 * SECOND), vec![0, 2]);
    assert_eq!(queue.get_queue_length(), 2);
    assert_eq!(queue.acknowledge(1), Err(HashMapError::NoJob));
}

#[test]
fn sweep_stops_at_the_first_entry_that_has_time_left() {
    let mut queue = JobQueue::new();
    for _ in 0..3 {
        queue.submit_job(submit_frame(b"x")).unwrap();
    }
    queue.return_job_at(0);
    queue.return_job_at(20 * SECOND);
    queue.return_job_at(40 * SECOND);
    assert_eq!(requeue_at(&mut queue, 45 * SECOND), vec![0]);
    assert_eq!(requeue_at(&mut queue, 50 * SECOND), vec![1]);
    assert_eq!(queue.acknowledge(2), Ok(()));
    assert!(requeue_at(&mut queue, 500 * SECOND).is_empty());
}

#[test]
fn sweep_with_a_clock_behind_the_delivery_moves_nothing() {
    let mut queue = JobQueue::new();
    queue.submit_job(submit_frame(b"x")).unwrap();
    queue.return_job_at(100 * SECOND);
    assert!(requeue_at(&mut queue, 0).is_empty());
    assert!(requeue_at(&mut queue, 129 * SECOND).is_empty());
    assert_eq!(requeue_at(&mut queue, 130 * SECOND), vec![0]);
}

#[test]
fn job_can_time_out_more_than_once() {
    let mut queue = JobQueue::new();
    queue.submit_job(submit_frame(b"x")).unwrap();
    let mut now = 0;
    for _ in 0..10 {
        assert_eq!(delivered_id(&queue.return_job_at(now)), 0);
        now += 30 * SECOND;
        assert_eq!(requeue_at(&mut queue, now), vec![0]);
        assert_eq!(queue.get_queue_length(), 1);
    }
}

#[test]
fn create_job_data_wraps_the_bytes() {
    let seed = JobData { data: vec![] };
    let data = seed.create_job_data(vec![1, 2, 3]);
    assert_eq!(data.data, vec![1, 2, 3]);
    assert_eq!(data, JobData { data: vec![1, 2, 3] });
}

#[test]
fn create_job_makes_an_undelivered_job() {
    let seed = Job { id: 0, data: JobData { data: vec![] }, sent: Some(4) };
    let job = seed.create_job(9, JobData { data: vec![7] });
    assert_eq!(job.id, 9);
    assert_eq!(job.data.data, vec![7]);
    assert_eq!(job.sent, None);
}
