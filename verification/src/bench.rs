//! Timing state for micro-benchmarks.
//!
//! A `Benchmarker` records how many iterations ran between two nanosecond
//! clock readings. Reading the clock and running the measured closure are
//! outside work; only the bookkeeping and the per-iteration arithmetic live
//! here.

use vstd::prelude::*;

verus! {

/// One benchmark's state: the iteration count of the latest run and the
/// nanosecond clock readings taken around it.
pub struct Benchmarker {
    pub iterations: u64,
    pub ns_start: u64,
    pub ns_end: u64,
}

impl Benchmarker {
    /// A benchmark that has not run yet.
    pub fn new() -> (b: Benchmarker)
        ensures
            b.iterations == 0,
            b.ns_start == 0,
            b.ns_end == 0,
    {
        Benchmarker { iterations: 0, ns_start: 0, ns_end: 0 }
    }

    /// Nanoseconds one iteration of the recorded run took, rounded down.
    /// Asking before any iteration ran, or of a run that ended before it
    /// started, is a caller error.
    pub fn ns_per_iter(&self) -> (r: u64)
        requires
            self.iterations > 0,
            self.ns_start <= self.ns_end,
        ensures
            r == (self.ns_end - self.ns_start) as int / self.iterations as int,
    {
        (self.ns_end - self.ns_start) / self.iterations
    }
}

} // verus!
