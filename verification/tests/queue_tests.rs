use site_server::queue::{classify_and_enqueue, JobQueue, WorkJob, QUEUE_MAX_SIZE};
use site_server::request::Request;
use site_server::store::StoredIp;

fn job(path: &[u8], connection: u64) -> WorkJob {
    WorkJob {
        request: Request {
            method: b"GET".to_vec(),
            path: path.to_vec(),
            version_major: 1,
            version_minor: 1,
            headers: Vec::new(),
            body: Vec::new(),
        },
        socket_address: StoredIp::V4(1),
        connection,
    }
}

#[test]
fn fifo_order() {
    let mut q = JobQueue::new();
    assert!(q.try_push(job(b"/a", 1)));
    assert!(q.try_push(job(b"/b", 2)));
    assert!(q.try_push(job(b"/c", 3)));
    assert_eq!(q.pop().unwrap().connection, 1);
    assert_eq!(q.pop().unwrap().connection, 2);
    assert_eq!(q.pop().unwrap().connection, 3);
    assert!(q.pop().is_none());
}

#[test]
fn full_queue_rejects_and_keeps_contents() {
    let mut q = JobQueue::new();
    for i in 0..QUEUE_MAX_SIZE {
        assert!(q.try_push(job(b"/x", i as u64)));
    }
    assert_eq!(q.len(), QUEUE_MAX_SIZE);
    // The job beyond capacity is rejected and the queue is unchanged.
    assert!(!q.try_push(job(b"/overflow", 999)));
    assert_eq!(q.len(), QUEUE_MAX_SIZE);
    for i in 0..QUEUE_MAX_SIZE {
        assert_eq!(q.pop().unwrap().connection, i as u64);
    }
    assert!(q.pop().is_none());
}

#[test]
fn root_requests_prefer_the_dedicated_queue() {
    let mut index_q = JobQueue::new();
    let mut general_q = JobQueue::new();
    assert!(classify_and_enqueue(job(b"/", 1), &mut index_q, &mut general_q));
    assert!(classify_and_enqueue(job(b"/a", 2), &mut index_q, &mut general_q));
    assert_eq!(index_q.len(), 1);
    assert_eq!(general_q.len(), 1);
    assert_eq!(index_q.pop().unwrap().connection, 1);
    assert_eq!(general_q.pop().unwrap().connection, 2);
}

#[test]
fn root_requests_spill_to_the_general_queue_when_dedicated_is_full() {
    let mut index_q = JobQueue::new();
    let mut general_q = JobQueue::new();
    for i in 0..QUEUE_MAX_SIZE {
        assert!(classify_and_enqueue(job(b"/", i as u64), &mut index_q, &mut general_q));
    }
    assert_eq!(index_q.len(), QUEUE_MAX_SIZE);
    assert_eq!(general_q.len(), 0);
    assert!(classify_and_enqueue(job(b"/", 500), &mut index_q, &mut general_q));
    assert_eq!(index_q.len(), QUEUE_MAX_SIZE);
    assert_eq!(general_q.len(), 1);
}

#[test]
fn both_queues_full_rejects() {
    let mut index_q = JobQueue::new();
    let mut general_q = JobQueue::new();
    for i in 0..QUEUE_MAX_SIZE {
        assert!(classify_and_enqueue(job(b"/", i as u64), &mut index_q, &mut general_q));
        assert!(classify_and_enqueue(job(b"/a", i as u64), &mut index_q, &mut general_q));
    }
    assert!(!classify_and_enqueue(job(b"/", 900), &mut index_q, &mut general_q));
    assert!(!classify_and_enqueue(job(b"/b", 901), &mut index_q, &mut general_q));
    assert_eq!(index_q.len(), QUEUE_MAX_SIZE);
    assert_eq!(general_q.len(), QUEUE_MAX_SIZE);
}
