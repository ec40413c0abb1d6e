//! The job-submission interface.
//!
//! A [`Job`] is a side-effect-only unit of work: it owns its inputs and
//! reports its outcome through state it closes over, never through a return
//! value. Tools hand jobs to an executor — a worker pool, or a synchronous
//! stand-in that runs each job on the calling thread — and the executor may
//! run them in any order.

use vstd::prelude::*;

verus! {

/// A runnable unit of work, consumed by running it.
pub trait Job {
    /// Perform the work, consuming the job.
    fn run(self);
}

} // verus!
