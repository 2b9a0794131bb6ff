//! Parallel work division: applies a caller-supplied transformation to an
//! owned sequence of inputs, splitting the work across the machine's
//! processor cores when the input is large enough to make that worthwhile.
//!
//! Two strategies are offered. [`divide_equal_work`] hands each worker one
//! contiguous, near-equal slice of the input; it suits uniform per-element
//! cost. [`divide_work`] lets workers pull elements one at a time from a
//! shared queue; it suits skewed per-element cost. Both return the results
//! in the original input order, and both fall back to an in-order pass on
//! the calling thread for inputs shorter than [`PARALLEL_WORK_THRESHOLD`].

pub mod laws;
pub mod partition;
pub mod queue;
pub mod sequential;

pub use partition::divide_equal_work;
pub use queue::divide_work;

use vstd::prelude::*;

verus! {

/// Inputs shorter than this are transformed on the calling thread; at this
/// length or above, the work is divided among parallel workers.
pub const PARALLEL_WORK_THRESHOLD: usize = 10;

/// The threshold gate: true exactly when an input of length `len` should be
/// divided among parallel workers rather than handled sequentially.
pub fn should_divide(len: usize) -> (r: bool)
    ensures
        r == (len >= PARALLEL_WORK_THRESHOLD),
{
    len >= PARALLEL_WORK_THRESHOLD
}

/// Returned when a worker thread terminated abnormally, that is, when the
/// caller's transformation raised a panic on some element. No partial
/// output is ever returned in that case: the call is all-or-nothing.
#[derive(Clone, Copy, Debug, PartialEq, Eq, Structural)]
pub struct WorkerFailure;

/// Relies on num_cpus::get: the number of logical processors available to
/// this process, documented to always be at least one.
#[verifier::external_body]
pub(crate) fn available_workers() -> (n: usize)
    ensures
        1 <= n,
{
    num_cpus::get()
}

} // verus!
