//! The two instrumented search algorithms: a linear scan and a binary
//! search, each returning how it concluded, how many element-to-target
//! comparisons it made, and the elapsed wall-clock time.

use crate::types::SearchResult;
use vstd::arithmetic::div_mod::lemma_div_is_ordered;
use vstd::prelude::*;

verus! {

/// The sequence is ascending: what both algorithms' callers provide and
/// what binary search relies on.
pub open spec fn sorted(s: Seq<i32>) -> bool {
    forall|i: int, j: int| 0 <= i <= j < s.len() ==> s[i] <= s[j]
}

/// Some element of `s` equals `t`.
pub open spec fn contains_target(s: Seq<i32>, t: i32) -> bool {
    exists|i: int| 0 <= i < s.len() && s[i] == t
}

/// Floor of the base-2 logarithm; 0 for inputs below 2.
pub open spec fn log2floor(n: nat) -> nat
    decreases n,
{
    if n <= 1 {
        0
    } else {
        1 + log2floor(n / 2)
    }
}

/// Comparisons binary search makes before exhausting a range of width `n`
/// when every probed element lies below the target: each probe keeps the
/// upper part of the range, whose width is `(n - 1) / 2`.
pub open spec fn exhaust_steps(n: nat) -> nat
    decreases n,
{
    if n == 0 {
        0
    } else {
        1 + exhaust_steps(((n - 1) / 2) as nat)
    }
}

pub proof fn lemma_log2floor_mono(a: nat, b: nat)
    requires
        a <= b,
    ensures
        log2floor(a) <= log2floor(b),
    decreases b,
{
    if a <= 1 {
    } else {
        lemma_div_is_ordered(a as int, b as int, 2);
        lemma_log2floor_mono(a / 2, b / 2);
    }
}

/// A comparison-count budget never exceeds the sequence length itself:
/// `log2floor(n) + 1 <= n` for non-empty sequences.
pub proof fn lemma_log2floor_le(n: nat)
    requires
        n >= 1,
    ensures
        log2floor(n) + 1 <= n,
    decreases n,
{
    if n <= 1 {
    } else {
        lemma_log2floor_le(n / 2);
    }
}

/// Law: for the fixed absent-target strategy (a target above every element),
/// binary search's comparison count is monotonically non-decreasing as a
/// function of the sequence length.
pub proof fn lemma_exhaust_steps_monotone(a: nat, b: nat)
    requires
        a <= b,
    ensures
        exhaust_steps(a) <= exhaust_steps(b),
    decreases b,
{
    if a == 0 {
    } else {
        lemma_div_is_ordered(a - 1, b - 1, 2);
        lemma_exhaust_steps_monotone(((a - 1) / 2) as nat, ((b - 1) / 2) as nat);
    }
}

/// Exhausting a range never takes more comparisons than the general budget
/// `log2floor(n) + 1` allows.
pub proof fn lemma_exhaust_steps_le_log2floor(n: nat)
    ensures
        exhaust_steps(n) <= log2floor(n) + 1,
    decreases n,
{
    if n == 0 {
    } else if n == 1 {
    } else {
        lemma_div_is_ordered(n - 1, n as int, 2);
        lemma_log2floor_mono(((n - 1) / 2) as nat, n / 2);
        lemma_exhaust_steps_le_log2floor(((n - 1) / 2) as nat);
        assert(exhaust_steps(n) == 1 + exhaust_steps(((n - 1) / 2) as nat));
        assert(log2floor(n) == 1 + log2floor(n / 2));
    }
}

/// Linear scan: walk the sequence from the front, counting one comparison
/// per probed element, and stop the moment a match is found.
pub fn sequential_search(arr: &Vec<i32>, target: i32) -> (r: SearchResult)
    ensures
        r.positions_visited <= arr@.len(),
        match r.found_at {
            Some(i) => {
                &&& i < arr@.len()
                &&& arr@[i as int] == target
                &&& forall|j: int| 0 <= j < i ==> arr@[j] != target
                &&& r.positions_visited == i + 1
            },
            None => {
                &&& !contains_target(arr@, target)
                &&& r.positions_visited == arr@.len()
            },
        },
        contains_target(arr@, target) ==> r.found_at is Some,
{
    let start = std::time::Instant::now();
    let n = arr.len();
    let mut positions_visited: usize = 0;
    let mut idx: usize = 0;
    while idx < n
        invariant
            n == arr@.len(),
            idx <= n,
            positions_visited == idx,
            forall|j: int| 0 <= j < idx ==> arr@[j] != target,
        decreases n - idx,
    {
        positions_visited = positions_visited + 1;
        if arr[idx] == target {
            let duration = start.elapsed().as_nanos();
            return SearchResult {
                positions_visited,
                execution_time_ns: duration,
                found_at: Some(idx),
            };
        }
        idx = idx + 1;
    }
    let duration = start.elapsed().as_nanos();
    SearchResult { positions_visited, execution_time_ns: duration, found_at: None }
}

/// Binary search over a half-open index range `[left, right)`: each
/// iteration counts one comparison, probes the middle element, and either
/// returns on a match or discards half of the range.
pub fn binary_search(arr: &Vec<i32>, target: i32) -> (r: SearchResult)
    requires
        sorted(arr@),
    ensures
        r.positions_visited <= log2floor(arr@.len()) + 1,
        arr@.len() >= 1 ==> r.positions_visited >= 1,
        match r.found_at {
            Some(i) => i < arr@.len() && arr@[i as int] == target,
            None => !contains_target(arr@, target),
        },
        contains_target(arr@, target) ==> r.found_at is Some,
        (forall|i: int| 0 <= i < arr@.len() ==> arr@[i] < target) ==> {
            &&& r.found_at is None
            &&& r.positions_visited == exhaust_steps(arr@.len())
        },
{
    let start = std::time::Instant::now();
    let mut positions_visited: usize = 0;
    let mut left: usize = 0;
    let mut right: usize = arr.len();
    while left < right
        invariant
            sorted(arr@),
            arr@.len() <= usize::MAX,
            left <= right <= arr@.len(),
            forall|j: int| 0 <= j < left ==> arr@[j] < target,
            forall|j: int| right <= j < arr@.len() ==> arr@[j] > target,
            positions_visited <= log2floor(arr@.len()) + 1,
            left < right ==> positions_visited + log2floor((right - left) as nat) <= log2floor(
                arr@.len(),
            ),
            positions_visited == 0 ==> left == 0 && right == arr@.len(),
            (forall|i: int| 0 <= i < arr@.len() ==> arr@[i] < target) ==> positions_visited
                + exhaust_steps((right - left) as nat) == exhaust_steps(arr@.len()),
        decreases right - left,
    {
        let ghost w_old = (right - left) as nat;
        proof {
            lemma_log2floor_le(arr@.len());
        }
        positions_visited = positions_visited + 1;
        let mid = left + (right - left) / 2;
        let v = arr[mid];
        if v == target {
            let duration = start.elapsed().as_nanos();
            return SearchResult {
                positions_visited,
                execution_time_ns: duration,
                found_at: Some(mid),
            };
        } else if v < target {
            left = mid + 1;
        } else {
            right = mid;
        }
        proof {
            let w_new = (right - left) as nat;
            assert(w_new <= w_old / 2);
            if left < right {
                assert(w_old >= 2);
                lemma_log2floor_mono(w_new, w_old / 2);
            }
            assert(w_old - w_old / 2 - 1 == (w_old - 1) / 2);
        }
    }
    let duration = start.elapsed().as_nanos();
    SearchResult { positions_visited, execution_time_ns: duration, found_at: None }
}

} // verus!

