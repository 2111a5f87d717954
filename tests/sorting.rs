use psrs::{generate_data, parallel_sort, sort_block, verify_sorted};

fn reference_sort(v: &[u32]) -> Vec<u32> {
    let mut w = v.to_vec();
    w.sort();
    w
}

fn check_sort(input: &[u32], p: usize) {
    let mut data = input.to_vec();
    parallel_sort(&mut data, p);
    assert_eq!(data, reference_sort(input), "p = {}", p);
}

#[test]
fn sorts_random_arrays_for_many_partition_counts() {
    for &n in &[0usize, 1, 2, 3, 7, 10, 64, 1000, 4097] {
        let input = generate_data(n, 0, 50);
        for &p in &[1usize, 2, 3, 4, 8, 16] {
            check_sort(&input, p);
        }
        check_sort(&input, n);
        check_sort(&input, n + 5);
    }
}

#[test]
fn sorts_wide_value_range() {
    let input = generate_data(5000, 0, u32::MAX);
    for &p in &[2usize, 5, 32, 128] {
        check_sort(&input, p);
    }
}

#[test]
fn empty_input_stays_empty() {
    for &p in &[0usize, 1, 4] {
        let mut data: Vec<u32> = Vec::new();
        parallel_sort(&mut data, p);
        assert!(data.is_empty());
    }
}

#[test]
fn single_element_unchanged() {
    let mut data = vec![42u32];
    parallel_sort(&mut data, 3);
    assert_eq!(data, vec![42]);
}

#[test]
fn fewer_elements_than_partitions() {
    check_sort(&[5, 3, 9], 8);
    check_sort(&[2, 1], 2);
    check_sort(&[9, 8, 7, 6], 4);
}

#[test]
fn zero_partitions_is_a_plain_sort() {
    check_sort(&[4, 1, 3, 1, 0], 0);
}

#[test]
fn keeps_duplicates_exactly() {
    let input = vec![7u32, 3, 7, 7, 1, 3, 0, 7, 3, 3, 1, 7, 0, 0];
    let mut data = input.clone();
    parallel_sort(&mut data, 4);
    assert_eq!(data, vec![0, 0, 0, 1, 1, 3, 3, 3, 3, 7, 7, 7, 7, 7]);
    assert_eq!(data.len(), input.len());
}

#[test]
fn all_equal_values() {
    let input = vec![5u32; 100];
    for &p in &[2usize, 3, 7, 100] {
        check_sort(&input, p);
    }
}

#[test]
fn sorted_input_comes_back_unchanged() {
    let input: Vec<u32> = (0..200u32).map(|x| x / 3).collect();
    for &p in &[1usize, 2, 5, 13, 200, 300] {
        let mut data = input.clone();
        parallel_sort(&mut data, p);
        assert_eq!(data, input);
    }
}

#[test]
fn reverse_sorted_input() {
    let input: Vec<u32> = (0..500u32).rev().collect();
    check_sort(&input, 6);
}

#[test]
fn one_partition_matches_plain_sort() {
    let input = generate_data(300, 0, 1000);
    let mut with_one = input.clone();
    parallel_sort(&mut with_one, 1);
    let mut plain = input.clone();
    sort_block(&mut plain);
    assert_eq!(with_one, plain);
    let mut with_eight = input.clone();
    parallel_sort(&mut with_eight, 8);
    assert_eq!(with_eight, plain);
}

#[test]
fn sort_block_sorts() {
    let mut v = vec![9u32, 2, 7, 2, 0, 11];
    sort_block(&mut v);
    assert_eq!(v, vec![0, 2, 2, 7, 9, 11]);
}

#[test]
fn verify_sorted_detects_order() {
    assert!(verify_sorted(&vec![]));
    assert!(verify_sorted(&vec![3]));
    assert!(verify_sorted(&vec![1, 1, 2, 5]));
    assert!(!verify_sorted(&vec![1, 3, 2]));
    assert!(!verify_sorted(&vec![2, 1]));
}

#[test]
fn generate_data_in_range() {
    let data = generate_data(1000, 10, 20);
    assert_eq!(data.len(), 1000);
    assert!(data.iter().all(|&x| (10..20).contains(&x)));
    assert!(data.iter().any(|&x| x != 10));
    let single = generate_data(50, 7, 8);
    assert!(single.iter().all(|&x| x == 7));
}

#[test]
fn generate_data_empty_range_when_nothing_drawn() {
    assert!(generate_data(0, 5, 5).is_empty());
    assert!(generate_data(0, 9, 2).is_empty());
}

#[test]
fn sorts_long_sorted_and_reversed_runs() {
    let ascending: Vec<u32> = (0..300_000u32).collect();
    for &p in &[1usize, 4] {
        let mut data = ascending.clone();
        parallel_sort(&mut data, p);
        assert_eq!(data, ascending);
    }
    let mut descending: Vec<u32> = (0..300_000u32).rev().collect();
    parallel_sort(&mut descending, 1);
    assert_eq!(descending, ascending);
}
