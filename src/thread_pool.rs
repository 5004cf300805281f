//! Job accounting of a fixed-size worker pool.
//!
//! The count goes up before a job is enqueued and down once the job has run
//! (or unwound); waiters for an empty pool are woken when it reaches zero.

use vstd::prelude::*;

verus! {

/// Number of jobs submitted and not yet finished.
pub struct ThreadPoolInner {
    job_count: usize,
}

impl ThreadPoolInner {
    /// A pool with no job in flight.
    pub fn new() -> (r: Self)
        ensures
            r.count() == 0,
    {
        ThreadPoolInner { job_count: 0 }
    }

    pub closed spec fn count(&self) -> nat {
        self.job_count as nat
    }

    /// The number of jobs in flight.
    pub fn job_count(&self) -> (r: usize)
        ensures
            r == self.count(),
    {
        self.job_count
    }

    /// Whether no job is in flight, that is whether `join` may return.
    pub fn is_idle(&self) -> (r: bool)
        ensures
            r == (self.count() == 0),
    {
        self.job_count == 0
    }

    /// Records a submitted job.
    pub fn start_job(&mut self)
        requires
            old(self).count() < usize::MAX,
        ensures
            final(self).count() == old(self).count() + 1,
    {
        self.job_count = self.job_count + 1;
    }

    /// Records a finished job; returns whether the pool became idle, in which
    /// case waiters are to be signalled.
    pub fn finish_job(&mut self) -> (r: bool)
        requires
            old(self).count() > 0,
        ensures
            final(self).count() + 1 == old(self).count(),
            r == (final(self).count() == 0),
    {
        self.job_count = self.job_count - 1;
        self.job_count == 0
    }
}

} // verus!
