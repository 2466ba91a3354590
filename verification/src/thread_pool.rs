use vstd::prelude::*;
use crate::error::Error;

verus! {

/// The worker pool's job queue and lifecycle, the part of the pool that
/// makes decisions.  A job value is opaque to the pool (the runtime hands
/// it closures); the pool only queues jobs in submission order, hands them
/// out first-in-first-out, and refuses new work once the submit endpoint
/// is closed.  The operating-system threads that consume the queue live
/// outside the verified core and drive it through `take_job`.
pub struct ThreadPool<J> {
    /// How many workers consume the queue; fixed at construction.
    workers: usize,
    /// Jobs submitted and not yet taken, oldest first.
    queue: Vec<J>,
    /// True until teardown begins; submission succeeds only while open.
    open: bool,
}

impl<J> ThreadPool<J> {
    /// The number of workers the pool was built with.
    pub closed spec fn spec_workers(&self) -> usize {
        self.workers
    }

    /// The jobs submitted and not yet taken, oldest first.
    pub closed spec fn spec_queue(&self) -> Seq<J> {
        self.queue@
    }

    /// True until teardown begins.
    pub closed spec fn is_open(&self) -> bool {
        self.open
    }

    /// Builds a pool of `num` workers with an empty queue.  A worker count
    /// of zero is rejected.
    pub fn new(num: usize) -> (r: Result<Self, Error>)
        ensures
            num > 0 <==> r is Ok,
            r matches Ok(p) ==> p.spec_workers() == num && p.spec_queue() =~= Seq::<J>::empty()
                && p.is_open(),
            r matches Err(e) ==> e matches Error::OtherError(_),
    {
        if num > 0 {
            Ok(ThreadPool { workers: num, queue: Vec::new(), open: true })
        } else {
            Err(Error::OtherError("thread pool needs at least one worker".to_owned()))
        }
    }

    /// How many workers consume the queue.
    pub fn worker_count(&self) -> (r: usize)
        ensures
            r == self.spec_workers(),
    {
        self.workers
    }

    /// Submits a job: appended to the queue while the pool is open,
    /// refused with a pool-closed error once teardown has begun.
    pub fn execute(&mut self, job: J) -> (r: Result<(), Error>)
        ensures
            old(self).is_open() ==> r is Ok
                && final(self).spec_queue() =~= old(self).spec_queue().push(job),
            !old(self).is_open() ==> (r matches Err(e) && e matches Error::OtherError(_))
                && final(self).spec_queue() =~= old(self).spec_queue(),
            final(self).spec_workers() == old(self).spec_workers(),
            final(self).is_open() == old(self).is_open(),
    {
        if self.open {
            self.queue.push(job);
            Ok(())
        } else {
            Err(Error::OtherError("thread pool is closed".to_owned()))
        }
    }

    /// Hands out the oldest queued job, or nothing when the queue is
    /// empty.  Draining is unaffected by teardown: jobs submitted before
    /// the pool closed are still handed out afterwards.
    pub fn take_job(&mut self) -> (r: Option<J>)
        ensures
            old(self).spec_queue().len() == 0 ==> r is None
                && final(self).spec_queue() =~= old(self).spec_queue(),
            old(self).spec_queue().len() > 0 ==> (r matches Some(j)
                && j == old(self).spec_queue()[0]
                && final(self).spec_queue() =~= old(self).spec_queue().drop_first()),
            final(self).spec_workers() == old(self).spec_workers(),
            final(self).is_open() == old(self).is_open(),
    {
        if self.queue.len() > 0 {
            Some(self.queue.remove(0))
        } else {
            None
        }
    }

    /// Begins teardown: closes the submit endpoint so no further
    /// submission succeeds, while every job already queued stays queued
    /// until a worker drains it.
    pub fn close(&mut self)
        ensures
            !final(self).is_open(),
            final(self).spec_queue() =~= old(self).spec_queue(),
            final(self).spec_workers() == old(self).spec_workers(),
    {
        self.open = false;
    }
}

} // verus!
