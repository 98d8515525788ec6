//! The benchmark driver: builds the sorted test array for a size, picks the
//! average-case and worst-case targets, repeats each (algorithm, case)
//! measurement a fixed number of times, and averages the collected metrics.

use crate::rng::random_index_below;
use crate::search::{
    binary_search, contains_target, exhaust_steps, lemma_log2floor_le, log2floor,
    sequential_search, sorted,
};
use crate::types::{BenchmarkResults, SearchResult};
use vstd::arithmetic::div_mod::{lemma_div_is_ordered, lemma_div_multiples_vanish};
use vstd::prelude::*;

verus! {

/// Number of repetitions averaged for every (algorithm, case) combination.
pub const REPETITIONS: usize = 1000;

/// Offset added to the array size to form the worst-case (absent) target.
pub const WORST_CASE_OFFSET: usize = 1000;

/// Which search algorithm a measurement drives.
#[derive(Clone, Copy, Debug)]
pub enum SearchAlgorithm {
    Sequential,
    Binary,
}

/// What one instrumented run guarantees about its conclusion and its
/// comparison count, by algorithm. The averaged metrics of repeated runs
/// satisfy the same predicate.
pub open spec fn search_outcome_ok(
    algorithm: SearchAlgorithm,
    s: Seq<i32>,
    target: i32,
    r: SearchResult,
) -> bool {
    &&& (contains_target(s, target) ==> r.found_at is Some)
    &&& match algorithm {
        SearchAlgorithm::Sequential => match r.found_at {
            Some(i) => {
                &&& i < s.len()
                &&& s[i as int] == target
                &&& forall|j: int| 0 <= j < i ==> s[j] != target
                &&& r.positions_visited == i + 1
            },
            None => !contains_target(s, target) && r.positions_visited == s.len(),
        },
        SearchAlgorithm::Binary => {
            &&& 1 <= r.positions_visited <= log2floor(s.len()) + 1
            &&& match r.found_at {
                Some(i) => i < s.len() && s[i as int] == target,
                None => !contains_target(s, target),
            }
            &&& (forall|i: int| 0 <= i < s.len() ==> s[i] < target) ==> {
                &&& r.found_at is None
                &&& r.positions_visited == exhaust_steps(s.len())
            }
        },
    }
}

/// The deterministic test sequence for a size: consecutive integers
/// `1 ..= size`, ascending and duplicate-free.
pub fn generate_sorted_array(size: usize) -> (r: Vec<i32>)
    requires
        size <= i32::MAX as usize,
    ensures
        r@.len() == size,
        forall|i: int| 0 <= i < size ==> r@[i] == i + 1,
{
    let mut v: Vec<i32> = Vec::new();
    let mut k: usize = 0;
    while k < size
        invariant
            size <= i32::MAX as usize,
            k <= size,
            v@.len() == k,
            forall|i: int| 0 <= i < k ==> v@[i] == i + 1,
        decreases size - k,
    {
        v.push((k as i32) + 1);
        k = k + 1;
    }
    v
}

/// One instrumented run of the chosen algorithm.
fn run_one(algorithm: SearchAlgorithm, arr: &Vec<i32>, target: i32) -> (r: SearchResult)
    requires
        sorted(arr@),
        arr@.len() >= 1,
    ensures
        search_outcome_ok(algorithm, arr@, target, r),
        r.positions_visited <= arr@.len(),
{
    match algorithm {
        SearchAlgorithm::Sequential => sequential_search(arr, target),
        SearchAlgorithm::Binary => {
            let r = binary_search(arr, target);
            proof {
                lemma_log2floor_le(arr@.len());
            }
            r
        },
    }
}

/// Arithmetic mean of the comparison counts and times over `iterations`
/// repeated runs of one algorithm against one target. The comparison total
/// divides exactly for the sequential algorithm and for binary search's
/// absent-above-the-range case, because every run concludes identically;
/// time totals saturate rather than overflow.
#[verifier::loop_isolation(false)]
pub fn average_case_metrics(
    algorithm: SearchAlgorithm,
    arr: &Vec<i32>,
    target: i32,
    iterations: usize,
) -> (r: SearchResult)
    requires
        sorted(arr@),
        arr@.len() >= 1,
        iterations >= 1,
        arr@.len() * iterations <= usize::MAX,
    ensures
        search_outcome_ok(algorithm, arr@, target, r),
{
    let first = run_one(algorithm, arr, target);
    let ghost len = arr@.len();
    let ghost bound = log2floor(len) + 1;
    let mut total_positions: usize = first.positions_visited;
    let mut total_time: u128 = first.execution_time_ns;
    let mut last_found: Option<usize> = first.found_at;
    let mut i: usize = 1;
    while i < iterations
        invariant
            1 <= i <= iterations,
            total_positions <= i * len,
            match algorithm {
                SearchAlgorithm::Sequential => {
                    &&& last_found == first.found_at
                    &&& total_positions == i * first.positions_visited
                },
                SearchAlgorithm::Binary => {
                    &&& i <= total_positions <= i * bound
                    &&& match last_found {
                        Some(k) => k < len && arr@[k as int] == target,
                        None => !contains_target(arr@, target),
                    }
                    &&& (contains_target(arr@, target) ==> last_found is Some)
                    &&& (forall|j: int| 0 <= j < len ==> arr@[j] < target) ==> {
                        &&& last_found is None
                        &&& total_positions == i * exhaust_steps(len)
                    }
                },
            },
        decreases iterations - i,
    {
        let r = run_one(algorithm, arr, target);
        proof {
            if let SearchAlgorithm::Sequential = algorithm {
                match (first.found_at, r.found_at) {
                    (Some(a), Some(b)) => {
                        if a < b {
                            assert(arr@[a as int] == target);
                            assert(false);
                        }
                        if b < a {
                            assert(arr@[b as int] == target);
                            assert(false);
                        }
                    },
                    (Some(a), None) => {
                        assert(arr@[a as int] == target);
                        assert(contains_target(arr@, target));
                        assert(false);
                    },
                    (None, Some(b)) => {
                        assert(arr@[b as int] == target);
                        assert(contains_target(arr@, target));
                        assert(false);
                    },
                    (None, None) => {},
                }
            }
            assert(total_positions + r.positions_visited <= (i + 1) * len
                && total_positions + r.positions_visited <= usize::MAX) by (nonlinear_arith)
                requires
                    total_positions <= i * len,
                    r.positions_visited <= len,
                    1 <= i + 1 <= iterations,
                    0 <= len,
                    len * iterations <= usize::MAX,
            ;
        }
        total_positions = total_positions + r.positions_visited;
        total_time = total_time.saturating_add(r.execution_time_ns);
        last_found = r.found_at;
        let ghost i_old = i as int;
        i = i + 1;
        proof {
            assert(i == i_old + 1);
            if let SearchAlgorithm::Sequential = algorithm {
                assert(r.positions_visited == first.positions_visited);
                assert((i_old + 1) * first.positions_visited == i_old * first.positions_visited
                    + first.positions_visited) by (nonlinear_arith);
            } else {
                assert((i_old + 1) * bound == i_old * bound + bound) by (nonlinear_arith);
                assert((i_old + 1) * exhaust_steps(len) == i_old * exhaust_steps(len)
                    + exhaust_steps(len)) by (nonlinear_arith);
            }
            assert((i_old + 1) * len == i_old * len + len) by (nonlinear_arith);
        }
    }
    let avg_positions = total_positions / iterations;
    let avg_time = total_time / (iterations as u128);
    proof {
        let it = iterations as int;
        match algorithm {
            SearchAlgorithm::Sequential => {
                assert(total_positions == it * first.positions_visited);
                lemma_div_multiples_vanish(first.positions_visited as int, it);
            },
            SearchAlgorithm::Binary => {
                assert(it * 1 == it) by (nonlinear_arith);
                lemma_div_is_ordered(it, total_positions as int, it);
                lemma_div_multiples_vanish(1, it);
                lemma_div_is_ordered(total_positions as int, it * bound, it);
                lemma_div_multiples_vanish(bound as int, it);
                if forall|j: int| 0 <= j < len ==> arr@[j] < target {
                    assert(total_positions == it * exhaust_steps(len));
                    lemma_div_multiples_vanish(exhaust_steps(len) as int, it);
                }
            },
        }
    }
    SearchResult {
        positions_visited: avg_positions,
        execution_time_ns: avg_time,
        found_at: last_found,
    }
}

/// One full measurement for a requested array size: the sorted sequence
/// `1 ..= size`, a random present target for the average case, the absent
/// target `size + WORST_CASE_OFFSET` for the worst case, and the four
/// averaged (algorithm, case) metrics.
pub fn run_benchmark(size: usize) -> (r: BenchmarkResults)
    requires
        size >= 1,
        size + WORST_CASE_OFFSET <= i32::MAX as usize,
        size * REPETITIONS <= usize::MAX,
    ensures
        r.size == size,
        r.sequential_avg_case.found_at matches Some(i) && i < size
            && r.sequential_avg_case.positions_visited == i + 1,
        r.binary_avg_case.found_at matches Some(i) && i < size,
        1 <= r.binary_avg_case.positions_visited <= log2floor(size as nat) + 1,
        r.sequential_worst_case.found_at is None,
        r.sequential_worst_case.positions_visited == size,
        r.binary_worst_case.found_at is None,
        r.binary_worst_case.positions_visited == exhaust_steps(size as nat),
{
    let arr = generate_sorted_array(size);
    proof {
        assert forall|a: int, b: int| 0 <= a <= b < arr@.len() implies arr@[a] <= arr@[b] by {
            assert(arr@[a] == a + 1);
            assert(arr@[b] == b + 1);
        }
    }
    let mut rng = rand::thread_rng();
    let random_index = random_index_below(&mut rng, size);
    let avg_case_target = arr[random_index];
    let worst_case_target = (size as i32) + (WORST_CASE_OFFSET as i32);
    proof {
        assert(arr@[random_index as int] == random_index + 1);
        assert(contains_target(arr@, avg_case_target));
        assert forall|i: int| 0 <= i < arr@.len() implies arr@[i] < worst_case_target by {
            assert(arr@[i] == i + 1);
        }
        assert(!contains_target(arr@, worst_case_target));
    }
    let sequential_avg_case = average_case_metrics(
        SearchAlgorithm::Sequential,
        &arr,
        avg_case_target,
        REPETITIONS,
    );
    let sequential_worst_case = average_case_metrics(
        SearchAlgorithm::Sequential,
        &arr,
        worst_case_target,
        REPETITIONS,
    );
    let binary_avg_case = average_case_metrics(
        SearchAlgorithm::Binary,
        &arr,
        avg_case_target,
        REPETITIONS,
    );
    let binary_worst_case = average_case_metrics(
        SearchAlgorithm::Binary,
        &arr,
        worst_case_target,
        REPETITIONS,
    );
    BenchmarkResults {
        size,
        sequential_avg_case,
        sequential_worst_case,
        binary_avg_case,
        binary_worst_case,
    }
}

} // verus!
