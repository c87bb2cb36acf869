//! The worker-pool abstraction.  The naive pool runs each submitted job on
//! a worker of its own; the spawning itself is thread plumbing that lives
//! with the program around the library, which hands each worker's job to it
//! as a closure.

use vstd::prelude::*;

use crate::error::KvError;

verus! {

/// The naive worker pool: it carries no state, and building it always
/// succeeds whatever worker count is asked for.
pub struct NaiveThreadPool {}

impl NaiveThreadPool {
    /// Create the pool; `threads` is the requested worker count, which the
    /// naive pool does not itself bound.
    pub fn new(threads: u32) -> (r: Result<NaiveThreadPool, KvError>)
        ensures
            r matches Ok(_),
    {
        let _unused: u32 = threads;
        Ok(NaiveThreadPool {  })
    }
}

} // verus!
