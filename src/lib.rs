//! Parallel Sort by Regular Sampling (PSRS) over `u32` values.
//!
//! The sort runs as a chain of phases: local sort of contiguous blocks,
//! regular sampling, pivot selection, per-block bucket boundaries, a k-way
//! merge per bucket, and the final assembly of the merged runs.
mod model;
mod merge;
mod partition;
mod buckets;
mod psrs;
mod data;

pub use model::{sorted, views, runs_multiset, total_len};
pub use merge::k_way_merge;
pub use partition::{
    sample_index, pivot_index, splits_at, boundary_row_of, non_decreasing, regular_samples,
    select_pivots, count_at_most, boundary_row,
};
pub use buckets::{
    index_views, partitioned, piece, bucket_multiset, in_bucket, copy_range, merge_bucket, assemble,
    lemma_value_in_one_bucket, lemma_pivot_value_not_above, lemma_merge_keeps_bucket_range,
};
pub use psrs::{
    sort_block, merged_run, block_size, block_of, split_blocks, parallel_sort,
    lemma_partition_count_irrelevant,
};
pub use data::{generate_data, verify_sorted};
