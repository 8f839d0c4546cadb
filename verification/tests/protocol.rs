use job_queue::{handle_request, handle_request_at, JobQueue};

fn submit_frame(payload: &[u8]) -> Vec<u8> {
    let mut frame = vec![1u8];
    frame.extend_from_slice(&(payload.len() as u32).to_be_bytes());
    frame.extend_from_slice(payload);
    frame
}

fn ack_frame(id: u64) -> Vec<u8> {
    let mut frame = vec![3u8];
    frame.extend_from_slice(&id.to_be_bytes());
    frame
}

#[test]
fn submit_hello_is_answered_with_id_zero() {
    let mut queue = JobQueue::new();
    let request = [1u8, 0, 0, 0, 5, b'h', b'e', b'l', b'l', b'o'];
    assert_eq!(handle_request(&mut queue, &request), vec![0u8, 0, 0, 0, 0]);
    assert_eq!(queue.get_queue_length(), 1);
}

#[test]
fn deliver_answers_with_id_length_and_payload() {
    let mut queue = JobQueue::new();
    handle_request(&mut queue, &submit_frame(b"hello"));
    let response = handle_request(&mut queue, &[2]);
    let mut expected = vec![0u8];
    expected.extend_from_slice(&[0, 0, 0, 0, 0, 0, 0, 0]);
    expected.extend_from_slice(&[0, 0, 0, 5]);
    expected.extend_from_slice(b"hello");
    assert_eq!(response, expected);
    assert_eq!(queue.get_queue_length(), 0);
}

#[test]
fn acknowledge_succeeds_once() {
    let mut queue = JobQueue::new();
    handle_request(&mut queue, &submit_frame(b"hello"));
    handle_request(&mut queue, &[2]);
    let ack = [3u8, 0, 0, 0, 0, 0, 0, 0, 0];
    assert_eq!(handle_request(&mut queue, &ack), vec![0u8]);
    assert_eq!(handle_request(&mut queue, &ack), vec![1u8]);
}

#[test]
fn submit_of_no_bytes_is_refused() {
    let mut queue = JobQueue::new();
    assert_eq!(handle_request(&mut queue, &[1, 0, 0, 0, 0]), vec![1u8]);
    assert_eq!(queue.get_queue_length(), 0);
}

#[test]
fn ping_is_answered_whatever_follows_the_opcode() {
    let mut queue = JobQueue::new();
    assert_eq!(handle_request(&mut queue, &[6]), vec![69u8]);
    assert_eq!(handle_request(&mut queue, &[6, 1, 2, 3, 255]), vec![69u8]);
}

#[test]
fn deliver_on_empty_queue_is_answered_with_one() {
    let mut queue = JobQueue::new();
    assert_eq!(handle_request(&mut queue, &[2]), vec![1u8]);
    assert_eq!(handle_request_at(&mut queue, &[2], 5), vec![1u8]);
}

#[test]
fn unknown_opcodes_are_answered_with_two() {
    let mut queue = JobQueue::new();
    assert_eq!(handle_request(&mut queue, &[0]), vec![2u8]);
    assert_eq!(handle_request(&mut queue, &[4]), vec![2u8]);
    assert_eq!(handle_request(&mut queue, &[7, 1, 2]), vec![2u8]);
    assert_eq!(handle_request(&mut queue, &[255]), vec![2u8]);
}

#[test]
fn empty_request_is_answered_with_three() {
    let mut queue = JobQueue::new();
    assert_eq!(handle_request(&mut queue, &[]), vec![3u8]);
}

#[test]
fn length_is_answered_in_a_machine_word() {
    let mut queue = JobQueue::new();
    assert_eq!(handle_request(&mut queue, &[5]), 0usize.to_be_bytes().to_vec());
    handle_request(&mut queue, &submit_frame(b"a"));
    handle_request(&mut queue, &submit_frame(b"b"));
    handle_request(&mut queue, &submit_frame(b"c"));
    assert_eq!(handle_request(&mut queue, &[5]), 3usize.to_be_bytes().to_vec());
    handle_request(&mut queue, &[2]);
    assert_eq!(handle_request(&mut queue, &[5]), 2usize.to_be_bytes().to_vec());
}

#[test]
fn truncated_submissions_are_refused() {
    let mut queue = JobQueue::new();
    assert_eq!(handle_request(&mut queue, &[1]), vec![1u8]);
    assert_eq!(handle_request(&mut queue, &[1, 0, 0, 0]), vec![1u8]);
    assert_eq!(handle_request(&mut queue, &[1, 0, 0, 0, 3, b'a', b'b']), vec![1u8]);
    assert_eq!(queue.get_queue_length(), 0);
}

#[test]
fn bytes_behind_the_payload_are_ignored() {
    let mut queue = JobQueue::new();
    let request = [1u8, 0, 0, 0, 2, b'o', b'k', b'x', b'y'];
    assert_eq!(handle_request(&mut queue, &request), vec![0u8, 0, 0, 0, 0]);
    let response = handle_request(&mut queue, &[2]);
    assert_eq!(&response[13..], b"ok");
    assert_eq!(&response[9..13], &[0, 0, 0, 2]);
}

#[test]
fn submissions_are_answered_with_increasing_ids() {
    let mut queue = JobQueue::new();
    for expected in 0u32..300 {
        let response = handle_request(&mut queue, &submit_frame(b"job"));
        let mut wanted = vec![0u8];
        wanted.extend_from_slice(&expected.to_be_bytes());
        assert_eq!(response, wanted);
    }
}

#[test]
fn truncated_acknowledgement_is_refused() {
    let mut queue = JobQueue::new();
    handle_request(&mut queue, &submit_frame(b"hello"));
    handle_request(&mut queue, &[2]);
    assert_eq!(handle_request(&mut queue, &[3]), vec![1u8]);
    assert_eq!(handle_request(&mut queue, &[3, 0, 0, 0, 0, 0, 0, 0]), vec![1u8]);
    assert_eq!(handle_request(&mut queue, &ack_frame(0)), vec![0u8]);
}

#[test]
fn acknowledgement_of_a_job_that_was_not_delivered_is_refused() {
    let mut queue = JobQueue::new();
    handle_request(&mut queue, &submit_frame(b"hello"));
    assert_eq!(handle_request(&mut queue, &ack_frame(0)), vec![1u8]);
    assert_eq!(handle_request(&mut queue, &ack_frame(17)), vec![1u8]);
    assert_eq!(queue.get_queue_length(), 1);
}

#[test]
fn jobs_are_delivered_in_the_order_of_submission() {
    let mut queue = JobQueue::new();
    handle_request(&mut queue, &submit_frame(b"first"));
    handle_request(&mut queue, &submit_frame(b"second"));
    let one = handle_request(&mut queue, &[2]);
    let two = handle_request(&mut queue, &[2]);
    assert_eq!(&one[1..9], &0u64.to_be_bytes());
    assert_eq!(&one[13..], b"first");
    assert_eq!(&two[1..9], &1u64.to_be_bytes());
    assert_eq!(&two[13..], b"second");
    assert_eq!(handle_request(&mut queue, &[2]), vec![1u8]);
}

#[test]
fn payload_comes_back_as_it_was_sent() {
    let mut queue = JobQueue::new();
    let payload: Vec<u8> = (0..1000u32).map(|i| (i % 251) as u8).collect();
    let response = handle_request(&mut queue, &submit_frame(&payload));
    assert_eq!(response[0], 0);
    let delivered = handle_request(&mut queue, &[2]);
    assert_eq!(delivered[0], 0);
    let length = u32::from_be_bytes([delivered[9], delivered[10], delivered[11], delivered[12]]);
    assert_eq!(length as usize, payload.len());
    assert_eq!(&delivered[13..13 + length as usize], &payload[..]);
    assert_eq!(delivered.len(), 13 + payload.len());
}

#[test]
fn job_that_timed_out_is_delivered_again_with_its_payload() {
    let mut queue = JobQueue::new();
    handle_request(&mut queue, &submit_frame(b"again"));
    let first = handle_request_at(&mut queue, &[2], 1_000);
    assert_eq!(handle_request_at(&mut queue, &[2], 2_000), vec![1u8]);
    assert_eq!(job_queue::requeue_at(&mut queue, 1_000 + 30_000_000_000), vec![0]);
    let second = handle_request_at(&mut queue, &[2], 40_000_000_000);
    assert_eq!(first, second);
    assert_eq!(&second[13..], b"again");
    assert_eq!(handle_request(&mut queue, &ack_frame(0)), vec![0u8]);
    assert!(job_queue::requeue_at(&mut queue, 100_000_000_000).is_empty());
    assert_eq!(handle_request(&mut queue, &[5]), 0usize.to_be_bytes().to_vec());
}

#[test]
fn acknowledgement_after_the_timeout_finds_no_job() {
    let mut queue = JobQueue::new();
    handle_request(&mut queue, &submit_frame(b"slow"));
    handle_request_at(&mut queue, &[2], 0);
    assert_eq!(job_queue::requeue_at(&mut queue, 30_000_000_000), vec![0]);
    assert_eq!(handle_request(&mut queue, &ack_frame(0)), vec![1u8]);
    assert_eq!(handle_request(&mut queue, &[5]), 1usize.to_be_bytes().to_vec());
}
