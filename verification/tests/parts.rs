use and_conquer::partition::{partition_boundary, split_partitions};
use and_conquer::queue::{merge_results, take_last};
use and_conquer::sequential::map_sequential;
use and_conquer::{should_divide, PARALLEL_WORK_THRESHOLD};

#[test]
fn threshold_gate_boundary() {
    assert_eq!(PARALLEL_WORK_THRESHOLD, 10);
    assert!(should_divide(PARALLEL_WORK_THRESHOLD));
    assert!(should_divide(PARALLEL_WORK_THRESHOLD + 1));
    assert!(!should_divide(PARALLEL_WORK_THRESHOLD - 1));
    assert!(!should_divide(0));
}

#[test]
fn partition_boundary_rounds_to_nearest() {
    // 12 elements over 5 workers: ideal cuts at 2.4, 4.8, 7.2, 9.6.
    assert_eq!(partition_boundary(12, 5, 0), 0);
    assert_eq!(partition_boundary(12, 5, 1), 2);
    assert_eq!(partition_boundary(12, 5, 2), 5);
    assert_eq!(partition_boundary(12, 5, 3), 7);
    assert_eq!(partition_boundary(12, 5, 4), 10);
    assert_eq!(partition_boundary(12, 5, 5), 12);
    // 10 elements over 3 workers: ideal cuts at 3.33 and 6.67.
    assert_eq!(partition_boundary(10, 3, 1), 3);
    assert_eq!(partition_boundary(10, 3, 2), 7);
}

#[test]
fn split_partitions_covers_input_in_order() {
    let input: Vec<i32> = (1..=12).collect();
    let parts = split_partitions(input, 3);
    assert_eq!(parts.len(), 3);
    assert_eq!(parts[0], vec![1, 2, 3, 4]);
    assert_eq!(parts[1], vec![5, 6, 7, 8]);
    assert_eq!(parts[2], vec![9, 10, 11, 12]);
}

#[test]
fn split_partitions_single_worker_takes_all() {
    let input: Vec<i32> = (1..=12).collect();
    let parts = split_partitions(input.clone(), 1);
    assert_eq!(parts.len(), 1);
    assert_eq!(parts[0], input);
}

#[test]
fn split_partitions_sizes_differ_by_at_most_one() {
    let input: Vec<u8> = vec![0; 13];
    let parts = split_partitions(input, 5);
    let sizes: Vec<usize> = parts.iter().map(|p| p.len()).collect();
    assert_eq!(sizes.iter().sum::<usize>(), 13);
    let lo = sizes.iter().min().unwrap();
    let hi = sizes.iter().max().unwrap();
    assert!(hi - lo <= 1);
}

#[test]
fn take_last_pairs_element_with_its_index() {
    let mut q = vec!["a", "b", "c"];
    assert_eq!(take_last(&mut q), Some((2, "c")));
    assert_eq!(take_last(&mut q), Some((1, "b")));
    assert_eq!(take_last(&mut q), Some((0, "a")));
    assert_eq!(take_last(&mut q), None);
    assert!(q.is_empty());
}

#[test]
fn merge_results_orders_by_index() {
    let pairs = vec![(2, "two"), (0, "zero"), (3, "three"), (1, "one")];
    let merged = merge_results(4, pairs).unwrap();
    assert_eq!(merged, vec!["zero", "one", "two", "three"]);
}

#[test]
fn merge_results_rejects_missing_index() {
    let pairs = vec![(0, 'a'), (2, 'c')];
    assert!(merge_results(3, pairs).is_none());
}

#[test]
fn merge_results_rejects_duplicate_index() {
    let pairs = vec![(0, 'a'), (1, 'b'), (1, 'c')];
    assert!(merge_results(3, pairs).is_none());
}

#[test]
fn merge_results_rejects_out_of_range_index() {
    let pairs = vec![(0, 'a'), (1, 'b'), (5, 'c')];
    assert!(merge_results(3, pairs).is_none());
}

#[test]
fn map_sequential_applies_in_order() {
    let input = vec!["walk", "show", "code", "enter"];
    let tail = String::from("ed");
    let f = move |verb: &str| String::from(verb) + &tail;
    let output = map_sequential(input, &f);
    assert_eq!(output, vec!["walked", "showed", "codeed", "entered"]);
}
