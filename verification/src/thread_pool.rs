//! The count of jobs that a pool of worker threads has taken on and not yet
//! finished, and what follows from each change of it.

use vstd::prelude::*;

verus! {

/// The number of jobs that were started and are not finished.
#[derive(Debug)]
pub struct ThreadPoolInner {
    job_count: usize,
}

impl ThreadPoolInner {
    /// The number of unfinished jobs.
    pub closed spec fn view(&self) -> nat {
        self.job_count as nat
    }

    /// No job yet.
    pub fn new() -> (inner: Self)
        ensures
            inner@ == 0,
    {
        ThreadPoolInner { job_count: 0 }
    }

    /// The number of unfinished jobs.
    pub fn job_count(&self) -> (count: usize)
        ensures
            count == self@,
    {
        self.job_count
    }

    /// One more job was handed to the pool.
    pub fn start_job(&mut self)
        requires
            old(self)@ < usize::MAX,
        ensures
            final(self)@ == old(self)@ + 1,
    {
        self.job_count = self.job_count + 1;
    }

    /// A worker has finished a job. Tells whether that was the last one, so
    /// that whoever waits for the pool to run empty is to be woken.
    pub fn finish_job(&mut self) -> (last: bool)
        requires
            old(self)@ > 0,
        ensures
            final(self)@ == old(self)@ - 1,
            last == (final(self)@ == 0),
    {
        self.job_count = self.job_count - 1;
        self.job_count == 0
    }

    /// Whether one who waits for the pool to run empty has to go on waiting.
    pub fn wait_empty(&self) -> (waiting: bool)
        ensures
            waiting == (self@ > 0),
    {
        self.job_count > 0
    }
}

impl Default for ThreadPoolInner {
    /// No job yet.
    fn default() -> (inner: Self)
        ensures
            inner@ == 0,
    {
        ThreadPoolInner::new()
    }
}

} // verus!
