//! Data shapes shared by the search algorithms, the benchmark driver and
//! the exporter.

use vstd::prelude::*;

verus! {

/// Outcome of one instrumented search: how the search concluded (`found_at`
/// is the index of a matching element, or `None` when the search exhausted
/// the array), how many element-to-target comparisons it made, and the
/// elapsed wall-clock time in nanoseconds.
///
/// The same shape also carries the arithmetic mean of those quantities over
/// repeated trials of one (algorithm, case) combination; there `found_at` is
/// the conclusion of the last trial.
#[derive(Clone, Copy, Debug)]
pub struct SearchResult {
    pub positions_visited: usize,
    pub execution_time_ns: u128,
    pub found_at: Option<usize>,
}

/// Averaged metrics for one tested array size: one `SearchResult` mean per
/// (algorithm, case) combination.
#[derive(Clone, Copy, Debug)]
pub struct BenchmarkResults {
    pub size: usize,
    pub sequential_avg_case: SearchResult,
    pub sequential_worst_case: SearchResult,
    pub binary_avg_case: SearchResult,
    pub binary_worst_case: SearchResult,
}

} // verus!
