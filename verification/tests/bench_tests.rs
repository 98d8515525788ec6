use search_bench::bench::{
    average_case_metrics, generate_sorted_array, run_benchmark, SearchAlgorithm, REPETITIONS,
};

#[test]
fn generated_array_is_consecutive_from_one() {
    let v = generate_sorted_array(5);
    assert_eq!(v, vec![1, 2, 3, 4, 5]);
    let empty = generate_sorted_array(0);
    assert!(empty.is_empty());
}

#[test]
fn repetitions_match_the_fixed_design() {
    assert_eq!(REPETITIONS, 1000);
}

#[test]
fn averaged_sequential_metrics_equal_the_single_run() {
    let v = generate_sorted_array(10);
    let m = average_case_metrics(SearchAlgorithm::Sequential, &v, 3, 10);
    assert_eq!(m.found_at, Some(2));
    assert_eq!(m.positions_visited, 3);

    let absent = average_case_metrics(SearchAlgorithm::Sequential, &v, 99, 10);
    assert_eq!(absent.found_at, None);
    assert_eq!(absent.positions_visited, 10);
}

#[test]
fn averaged_binary_metrics_stay_within_the_budget() {
    let v = generate_sorted_array(100);
    let m = average_case_metrics(SearchAlgorithm::Binary, &v, 42, 10);
    assert_eq!(m.found_at, Some(41));
    assert!(m.positions_visited >= 1);
    assert!(m.positions_visited <= 7); // floor(log2(100)) + 1

    let absent = average_case_metrics(SearchAlgorithm::Binary, &v, 100 + 1000, 10);
    assert_eq!(absent.found_at, None);
    assert!(absent.positions_visited <= 7);
}

#[test]
fn run_benchmark_reports_the_expected_shape() {
    let r = run_benchmark(50);
    assert_eq!(r.size, 50);

    assert_eq!(r.sequential_worst_case.found_at, None);
    assert_eq!(r.sequential_worst_case.positions_visited, 50);

    assert_eq!(r.binary_worst_case.found_at, None);
    // exhausting [1..50] against an absent target above the range probes
    // ranges of widths 50, 24, 11, 5, 2
    assert_eq!(r.binary_worst_case.positions_visited, 5);
    assert!(r.binary_worst_case.positions_visited <= 6); // floor(log2(50)) + 1

    let i = r.sequential_avg_case.found_at.expect("average-case target is present");
    assert!(i < 50);
    assert_eq!(r.sequential_avg_case.positions_visited, i + 1);

    let j = r.binary_avg_case.found_at.expect("average-case target is present");
    assert!(j < 50);
    assert!(r.binary_avg_case.positions_visited >= 1);
    assert!(r.binary_avg_case.positions_visited <= 6);
}

#[test]
fn worst_case_binary_count_grows_with_size() {
    let small = run_benchmark(100);
    let large = run_benchmark(1000);
    assert_eq!(small.binary_worst_case.positions_visited, 6);
    assert_eq!(large.binary_worst_case.positions_visited, 9);
    assert!(
        small.binary_worst_case.positions_visited <= large.binary_worst_case.positions_visited
    );
    assert_eq!(small.sequential_worst_case.positions_visited, 100);
    assert_eq!(large.sequential_worst_case.positions_visited, 1000);
}
