use search_bench::search::{binary_search, sequential_search};

fn ascending(n: i32) -> Vec<i32> {
    (1..=n).collect()
}

#[test]
fn both_algorithms_find_a_present_target() {
    let v = ascending(10);
    let seq = sequential_search(&v, 7);
    assert_eq!(seq.found_at, Some(6));
    assert_eq!(seq.positions_visited, 7);

    let bin = binary_search(&v, 7);
    let idx = bin.found_at.expect("binary search must find a present target");
    assert_eq!(v[idx], 7);
    assert!(bin.positions_visited >= 1);
    assert!(bin.positions_visited <= 4); // floor(log2(10)) + 1
}

#[test]
fn both_algorithms_exhaust_on_an_absent_target() {
    let v = ascending(100);
    let seq = sequential_search(&v, 1000);
    assert_eq!(seq.found_at, None);
    assert_eq!(seq.positions_visited, 100);

    let bin = binary_search(&v, 1000);
    assert_eq!(bin.found_at, None);
    assert!(bin.positions_visited <= 7); // floor(log2(100)) + 1
}

#[test]
fn absent_target_below_the_range_also_exhausts() {
    let v = ascending(100);
    let seq = sequential_search(&v, -5);
    assert_eq!(seq.found_at, None);
    assert_eq!(seq.positions_visited, 100);

    let bin = binary_search(&v, -5);
    assert_eq!(bin.found_at, None);
    assert!(bin.positions_visited <= 7);
}

#[test]
fn thousand_elements_absent_target_scenario() {
    let v = ascending(1000);
    let target = 1000 + 1000;
    let seq = sequential_search(&v, target);
    assert_eq!(seq.positions_visited, 1000);
    assert_eq!(seq.found_at, None);

    let bin = binary_search(&v, target);
    assert!(bin.positions_visited <= 11);
    assert_eq!(bin.positions_visited, 9);
    assert_eq!(bin.found_at, None);
}

#[test]
fn single_element_found_with_one_comparison() {
    let v = ascending(1);
    let seq = sequential_search(&v, 1);
    assert_eq!(seq.found_at, Some(0));
    assert_eq!(seq.positions_visited, 1);

    let bin = binary_search(&v, 1);
    assert_eq!(bin.found_at, Some(0));
    assert_eq!(bin.positions_visited, 1);
}

#[test]
fn empty_sequence_exhausts_without_comparisons() {
    let v: Vec<i32> = Vec::new();
    let seq = sequential_search(&v, 3);
    assert_eq!(seq.found_at, None);
    assert_eq!(seq.positions_visited, 0);

    let bin = binary_search(&v, 3);
    assert_eq!(bin.found_at, None);
    assert_eq!(bin.positions_visited, 0);
}

#[test]
fn binary_exhaust_count_is_monotone_in_length() {
    let mut previous: usize = 0;
    for n in 1..=200 {
        let v = ascending(n);
        let bin = binary_search(&v, n + 1000);
        assert_eq!(bin.found_at, None);
        assert!(bin.positions_visited >= previous);
        previous = bin.positions_visited;
    }
}
