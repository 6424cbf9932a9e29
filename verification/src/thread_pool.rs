use crate::error::Error;
use vstd::prelude::*;

verus! {

/// A pool of threads that run jobs handed to it.
pub trait ThreadPool {
    /// A pool of `threads` threads.
    fn new(threads: usize) -> Result<Self, Error> where Self: Sized;

    /// Hands the job to some thread of the pool. The caller is not held up.
    fn spawn<F>(&self, job: F) where F: FnOnce() + Send + 'static;
}

} // verus!
