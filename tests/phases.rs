use psrs::{
    assemble, block_size, boundary_row, count_at_most, k_way_merge, merge_bucket, regular_samples,
    select_pivots, split_blocks,
};

#[test]
fn merge_three_runs() {
    let slices = vec![vec![1u32, 4, 7], vec![2, 2, 5], vec![3, 6]];
    let merged = k_way_merge(&slices);
    assert_eq!(merged, vec![1, 2, 2, 3, 4, 5, 6, 7]);
    assert_eq!(merged.len(), 8);
}

#[test]
fn merge_with_empty_runs() {
    let slices = vec![vec![], vec![5u32, 9], vec![], vec![1]];
    assert_eq!(k_way_merge(&slices), vec![1, 5, 9]);
    let none: Vec<Vec<u32>> = Vec::new();
    assert_eq!(k_way_merge(&none), Vec::<u32>::new());
    let all_empty: Vec<Vec<u32>> = vec![vec![], vec![]];
    assert_eq!(k_way_merge(&all_empty), Vec::<u32>::new());
}

#[test]
fn merge_equal_heads() {
    let slices = vec![vec![3u32, 3], vec![3], vec![1, 3, 8]];
    assert_eq!(k_way_merge(&slices), vec![1, 3, 3, 3, 3, 8]);
}

#[test]
fn block_size_rounds_up() {
    assert_eq!(block_size(10, 4), 3);
    assert_eq!(block_size(12, 4), 3);
    assert_eq!(block_size(1, 1), 1);
    assert_eq!(block_size(7, 7), 1);
    assert_eq!(block_size(0, 3), 0);
}

#[test]
fn split_blocks_last_takes_remainder() {
    let data: Vec<u32> = (0..10).collect();
    let blocks = split_blocks(&data, 3);
    assert_eq!(blocks, vec![vec![0, 1, 2], vec![3, 4, 5], vec![6, 7, 8], vec![9]]);
    let even = split_blocks(&data, 5);
    assert_eq!(even, vec![vec![0, 1, 2, 3, 4], vec![5, 6, 7, 8, 9]]);
    let empty: Vec<u32> = Vec::new();
    assert!(split_blocks(&empty, 4).is_empty());
}

#[test]
fn regular_samples_positions() {
    let block = vec![10u32, 20, 30, 40, 50, 60, 70, 80];
    assert_eq!(regular_samples(&block, 4), vec![20, 40, 60, 80]);
    let short = vec![1u32, 2, 3];
    assert_eq!(regular_samples(&short, 4), vec![2, 2, 2, 2]);
    let one = vec![9u32];
    assert_eq!(regular_samples(&one, 3), vec![9, 9, 9]);
    let five = vec![1u32, 2, 3, 4, 5];
    assert_eq!(regular_samples(&five, 2), vec![2, 4]);
}

#[test]
fn pivots_at_stride() {
    let samples: Vec<u32> = (0..16).collect();
    assert_eq!(select_pivots(&samples, 4), vec![4, 8, 12]);
    let few = vec![1u32, 5, 9];
    assert_eq!(select_pivots(&few, 4), vec![9, 9, 9]);
    assert_eq!(select_pivots(&few, 1), Vec::<u32>::new());
}

#[test]
fn count_at_most_is_first_greater() {
    let block = vec![1u32, 2, 2, 3, 5, 8];
    assert_eq!(count_at_most(&block, 0), 0);
    assert_eq!(count_at_most(&block, 2), 3);
    assert_eq!(count_at_most(&block, 4), 4);
    assert_eq!(count_at_most(&block, 8), 6);
    assert_eq!(count_at_most(&vec![], 8), 0);
}

#[test]
fn boundary_row_is_monotone() {
    let block = vec![1u32, 2, 2, 3, 5, 8];
    let row = boundary_row(&block, &vec![2, 5]);
    assert_eq!(row, vec![0, 3, 5, 6]);
    let dup = boundary_row(&block, &vec![2, 2, 9]);
    assert_eq!(dup, vec![0, 3, 3, 6, 6]);
    for w in dup.windows(2) {
        assert!(w[0] <= w[1]);
    }
    assert_eq!(dup[0], 0);
    assert_eq!(*dup.last().unwrap(), block.len());
}

#[test]
fn pivot_copies_stay_in_lower_bucket() {
    let blocks = vec![vec![1u32, 3, 3, 7], vec![3, 4, 9], vec![0, 3, 3]];
    let pivots = vec![3u32];
    let rows: Vec<Vec<usize>> = blocks.iter().map(|b| boundary_row(b, &pivots)).collect();
    assert_eq!(rows, vec![vec![0, 3, 4], vec![0, 1, 3], vec![0, 3, 3]]);
    let low = merge_bucket(&blocks, &rows, &pivots, 0);
    let high = merge_bucket(&blocks, &rows, &pivots, 1);
    assert_eq!(low, vec![0, 1, 3, 3, 3, 3, 3]);
    assert_eq!(high, vec![4, 7, 9]);
    assert!(low.iter().all(|&x| x <= 3));
    assert!(high.iter().all(|&x| x > 3));
    assert_eq!(assemble(&vec![low, high], &pivots), vec![0, 1, 3, 3, 3, 3, 3, 4, 7, 9]);
}

#[test]
fn merge_unsorted_runs_keeps_every_element() {
    let slices = vec![vec![9u32, 1], vec![], vec![4, 4, 0]];
    let mut merged = k_way_merge(&slices);
    assert_eq!(merged.len(), 5);
    merged.sort();
    assert_eq!(merged, vec![0, 1, 4, 4, 9]);
}
