//! Bounded FIFO job queues with backpressure: an enqueue against a full queue
//! is rejected at once and leaves the queue's contents unchanged — it never
//! blocks and never drops silently. Root-path requests prefer a dedicated
//! queue so bulk asset traffic cannot starve the homepage.
use vstd::prelude::*;
use vstd::string::*;

use std::collections::VecDeque;

use crate::bytes::eq_vec;
use crate::request::Request;
use crate::store::StoredIp;

verus! {

/// Hard capacity of each job queue.
pub const QUEUE_MAX_SIZE: usize = 100;

/// A unit of work: the parsed request, the peer address, and an opaque handle
/// that names the still-open connection to the host that performs I/O.
pub struct WorkJob {
    pub request: Request,
    pub socket_address: StoredIp,
    pub connection: u64,
}

/// A bounded FIFO queue of pending jobs.
pub struct JobQueue {
    pub jobs: VecDeque<WorkJob>,
}

impl View for JobQueue {
    type V = Seq<WorkJob>;

    open spec fn view(&self) -> Seq<WorkJob> {
        self.jobs@
    }
}

impl JobQueue {
    /// The queue never exceeds its capacity.
    pub open spec fn wf(&self) -> bool {
        self@.len() <= QUEUE_MAX_SIZE
    }

    /// An empty queue.
    pub fn new() -> (r: JobQueue)
        ensures
            r@ == Seq::<WorkJob>::empty(),
            r.wf(),
    {
        JobQueue { jobs: VecDeque::new() }
    }

    /// How many jobs are pending.
    pub fn len(&self) -> (r: usize)
        ensures
            r == self@.len(),
    {
        self.jobs.len()
    }

    /// Appends a job unless the queue is full. A rejected job leaves the
    /// queue's contents exactly as they were.
    pub fn try_push(&mut self, job: WorkJob) -> (accepted: bool)
        requires
            old(self).wf(),
        ensures
            final(self).wf(),
            accepted == (old(self)@.len() < QUEUE_MAX_SIZE),
            accepted ==> final(self)@ == old(self)@.push(job),
            !accepted ==> final(self)@ == old(self)@,
    {
        if self.jobs.len() >= QUEUE_MAX_SIZE {
            false
        } else {
            self.jobs.push_back(job);
            true
        }
    }

    /// Takes the oldest job, if any.
    pub fn pop(&mut self) -> (r: Option<WorkJob>)
        requires
            old(self).wf(),
        ensures
            final(self).wf(),
            match r {
                Some(job) => old(self)@.len() > 0 && job == old(self)@[0] && final(self)@ == old(
                    self,
                )@.drop_first(),
                None => old(self)@.len() == 0 && final(self)@ == old(self)@,
            },
    {
        let r = self.jobs.pop_front();
        proof {
            if old(self)@.len() > 0 {
                assert(final(self)@ =~= old(self)@.drop_first());
            }
        }
        r
    }
}

/// Classifies a job and enqueues it: a root-path request goes to the
/// dedicated queue while that queue has room; everything else (and root
/// requests that found it full) goes to the general queue, which rejects the
/// job when it is itself full. A rejected job leaves both queues unchanged
/// (the caller answers 503 and closes the connection).
pub fn classify_and_enqueue(
    job: WorkJob,
    index_queue: &mut JobQueue,
    queue: &mut JobQueue,
) -> (accepted: bool)
    requires
        old(index_queue).wf(),
        old(queue).wf(),
    ensures
        final(index_queue).wf(),
        final(queue).wf(),
        ({
            let to_index = job.request.path@ == "/".spec_bytes() && old(index_queue)@.len()
                < QUEUE_MAX_SIZE;
            if to_index {
                accepted && final(index_queue)@ == old(index_queue)@.push(job) && final(queue)@
                    == old(queue)@
            } else {
                final(index_queue)@ == old(index_queue)@ && accepted == (old(queue)@.len()
                    < QUEUE_MAX_SIZE) && (accepted ==> final(queue)@ == old(queue)@.push(job)) && (
                !accepted ==> final(queue)@ == old(queue)@)
            }
        }),
{
    let root = "/".as_bytes_vec();
    if eq_vec(&job.request.path, &root) && index_queue.len() < QUEUE_MAX_SIZE {
        index_queue.try_push(job)
    } else {
        queue.try_push(job)
    }
}

} // verus!
