use vstd::prelude::*;
use rayon::iter::{
    IntoParallelIterator, IntoParallelRefIterator, IntoParallelRefMutIterator, ParallelIterator,
};
use crate::model::{
    sorted, views, runs_multiset, msum, lemma_runs_multiset_msum, lemma_runs_multiset_pointwise,
    lemma_msum_pointwise, lemma_msum_swap, lemma_concat_multiset, lemma_sorted_same_multiset_equal,
};
use crate::partition::{
    regular_samples, select_pivots, boundary_row, boundary_row_of, non_decreasing, sample_index,
};
use crate::buckets::{
    index_views, partitioned, piece, bucket_multiset, in_bucket, merge_bucket, assemble,
};

verus! {

broadcast use vstd::seq_lib::group_to_multiset_ensures, vstd::multiset::group_multiset_axioms;

/// Relies on `<[u32]>::sort_unstable`: sorts the slice in place, rearranging
/// its elements, in O(n log n) time in the worst case.
#[verifier::external_body]
fn sort_in_place(v: &mut Vec<u32>)
    ensures
        sorted(final(v)@),
        final(v)@.to_multiset() == old(v)@.to_multiset(),
{
    v.as_mut_slice().sort_unstable()
}

/// Sorts one block in place.
pub fn sort_block(block: &mut Vec<u32>)
    ensures
        sorted(final(block)@),
        final(block)@.to_multiset() == old(block)@.to_multiset(),
{
    sort_in_place(block);
}

/// Relies on rayon's `par_iter_mut().for_each`: the closure runs exactly once
/// on each block, so every block ends as `sort_block` leaves it.
#[verifier::external_body]
fn sort_blocks_parallel(blocks: &mut Vec<Vec<u32>>)
    ensures
        final(blocks)@.len() == old(blocks)@.len(),
        forall|i: int| 0 <= i < old(blocks)@.len() ==> sorted(#[trigger] final(blocks)@[i]@),
        forall|i: int|
            0 <= i < old(blocks)@.len() ==> (#[trigger] final(blocks)@[i])@.to_multiset() == old(blocks)@[i]@.to_multiset(),
{
    blocks.par_iter_mut().for_each(|b| sort_block(b));
}

/// Relies on rayon's `par_iter().map(..).collect()`: the closure runs once on
/// each block and the results are collected in block order.
#[verifier::external_body]
fn sample_blocks_parallel(blocks: &Vec<Vec<u32>>, p: usize) -> (samples: Vec<Vec<u32>>)
    requires
        p >= 1,
        forall|i: int| 0 <= i < blocks@.len() ==> (#[trigger] blocks@[i])@.len() >= 1,
    ensures
        samples@.len() == blocks@.len(),
        forall|i: int| 0 <= i < blocks@.len() ==> (#[trigger] samples@[i])@.len() == p,
        forall|i: int, t: int|
            0 <= i < blocks@.len() && 0 <= t < p ==> #[trigger] samples@[i]@[t] == blocks@[i]@[sample_index(
                blocks@[i]@.len() as int,
                p as int,
                t,
            )],
{
    blocks.par_iter().map(|b| regular_samples(b, p)).collect()
}

/// Relies on rayon's `par_iter().map(..).collect()`: the closure runs once on
/// each block and the results are collected in block order.
#[verifier::external_body]
fn boundary_rows_parallel(blocks: &Vec<Vec<u32>>, pivots: &Vec<u32>) -> (rows: Vec<Vec<usize>>)
    requires
        sorted(pivots@),
        forall|i: int| 0 <= i < blocks@.len() ==> sorted(#[trigger] blocks@[i]@),
    ensures
        rows@.len() == blocks@.len(),
        forall|i: int|
            0 <= i < blocks@.len() ==> boundary_row_of(blocks@[i]@, pivots@, #[trigger] rows@[i]@) && non_decreasing(
                rows@[i]@,
            ),
{
    blocks.par_iter().map(|b| boundary_row(b, pivots)).collect()
}

/// What `merge_bucket` returns for bucket `k`.
pub open spec fn merged_run(blocks: Seq<Seq<u32>>, rows: Seq<Seq<usize>>, pivots: Seq<u32>, k: int, run: Seq<u32>) -> bool {
    &&& sorted(run)
    &&& run.to_multiset() == bucket_multiset(blocks, rows, k)
    &&& forall|j: int| 0 <= j < run.len() ==> in_bucket(pivots, k, #[trigger] run[j])
}

/// Relies on rayon's `(0..n).into_par_iter().map(..).collect()`: the closure
/// runs once for each bucket index and the results are collected in index
/// order.
#[verifier::external_body]
fn merge_buckets_parallel(
    blocks: &Vec<Vec<u32>>,
    rows: &Vec<Vec<usize>>,
    pivots: &Vec<u32>,
    n_buckets: usize,
) -> (runs: Vec<Vec<u32>>)
    requires
        partitioned(views(blocks@), pivots@, index_views(rows@)),
        n_buckets == pivots@.len() + 1,
    ensures
        runs@.len() == n_buckets,
        forall|k: int|
            0 <= k < runs@.len() ==> merged_run(views(blocks@), index_views(rows@), pivots@, k, #[trigger] runs@[k]@),
{
    (0..n_buckets).into_par_iter().map(|k| merge_bucket(blocks, rows, pivots, k)).collect()
}

/// The block size for `n` elements in `p` blocks: `n / p`, rounded up.
pub fn block_size(n: usize, p: usize) -> (bs: usize)
    requires
        p >= 1,
    ensures
        bs * p >= n,
        bs * p < n + p,
{
    let q = n / p;
    let r = n % p;
    proof {
        assert(n == q * p + r && 0 <= r < p) by (nonlinear_arith)
            requires q == n / p, r == n % p, p >= 1;
    }
    if r == 0 {
        q
    } else {
        proof {
            assert((q + 1) * p == q * p + p) by (nonlinear_arith);
            assert(q * p <= n) by (nonlinear_arith)
                requires n == q * p + r, 0 <= r;
            assert(q + 1 <= n) by (nonlinear_arith)
                requires n == q * p + r, 0 < r, p >= 1, q >= 0;
        }
        q + 1
    }
}

/// Block `i` of `data` cut into blocks of `bs` elements; the last block
/// takes what remains.
pub open spec fn block_of(data: Seq<u32>, bs: int, i: int) -> Seq<u32> {
    data.subrange(i * bs, if (i + 1) * bs < data.len() { (i + 1) * bs } else { data.len() as int })
}

/// Cuts `data` into consecutive blocks of `bs` elements, the last one
/// possibly shorter. The blocks cover `data` exactly.
pub fn split_blocks(data: &Vec<u32>, bs: usize) -> (blocks: Vec<Vec<u32>>)
    requires
        bs >= 1,
    ensures
        forall|i: int| 0 <= i < blocks@.len() ==> #[trigger] blocks@[i]@ == block_of(data@, bs as int, i),
        forall|i: int| 0 <= i < blocks@.len() ==> (#[trigger] blocks@[i])@.len() >= 1,
        blocks@.len() * bs >= data@.len(),
        blocks@.len() > 0 ==> (blocks@.len() - 1) * bs < data@.len(),
        runs_multiset(views(blocks@)) == data@.to_multiset(),
{
    let n = data.len();
    let mut blocks: Vec<Vec<u32>> = Vec::new();
    let mut start: usize = 0;
    proof {
        assert(data@.subrange(0, 0) =~= Seq::<u32>::empty());
        assert(views(blocks@) =~= Seq::<Seq<u32>>::empty());
    }
    while start < n
        invariant
            n == data@.len(),
            bs >= 1,
            start <= n,
            start < n ==> start == blocks@.len() * bs,
            start == n ==> blocks@.len() * bs >= n,
            blocks@.len() > 0 ==> (blocks@.len() - 1) * bs < n,
            forall|i: int| 0 <= i < blocks@.len() ==> #[trigger] blocks@[i]@ == block_of(data@, bs as int, i),
            forall|i: int| 0 <= i < blocks@.len() ==> (#[trigger] blocks@[i])@.len() >= 1,
            runs_multiset(views(blocks@)) == data@.subrange(0, start as int).to_multiset(),
        decreases n - start,
    {
        let ghost len = blocks@.len() as int;
        proof {
            assert((len + 1) * bs == len * bs + bs) by (nonlinear_arith);
        }
        let end = if n - start > bs {
            start + bs
        } else {
            n
        };
        let block = crate::buckets::copy_range(data, start, end);
        let ghost old_views = views(blocks@);
        blocks.push(block);
        proof {
            assert(views(blocks@).drop_last() =~= old_views);
            assert(views(blocks@).last() == data@.subrange(start as int, end as int));
            assert(data@.subrange(0, end as int) =~= data@.subrange(0, start as int) + data@.subrange(
                start as int,
                end as int,
            ));
            lemma_concat_multiset(data@.subrange(0, start as int), data@.subrange(start as int, end as int));
            assert(blocks@[len]@ == block_of(data@, bs as int, len));
        }
        start = end;
    }
    proof {
        assert(data@.subrange(0, n as int) =~= data@);
    }
    blocks
}

/// The parts of a block for buckets `0..c` together make up its first
/// `row[c]` elements.
proof fn lemma_row_telescopes(block: Seq<u32>, row: Seq<usize>, c: int)
    requires
        0 <= c < row.len(),
        row[0] == 0,
        row[row.len() - 1] == block.len(),
        non_decreasing(row),
    ensures
        msum(c, |k: int| block.subrange(row[k] as int, row[k + 1] as int).to_multiset())
            == block.subrange(0, row[c] as int).to_multiset(),
    decreases c,
{
    if c == 0 {
        assert(block.subrange(0, 0) =~= Seq::<u32>::empty());
    } else {
        lemma_row_telescopes(block, row, c - 1);
        assert(row[c - 1] <= row[c]);
        assert(block.subrange(0, row[c] as int) =~= block.subrange(0, row[c - 1] as int) + block.subrange(
            row[c - 1] as int,
            row[c] as int,
        ));
        lemma_concat_multiset(block.subrange(0, row[c - 1] as int), block.subrange(row[c - 1] as int, row[c] as int));
    }
}

/// The merged runs together hold exactly the elements of the blocks.
proof fn lemma_runs_cover_blocks(
    bv: Seq<Seq<u32>>,
    rv: Seq<Seq<usize>>,
    pivots: Seq<u32>,
    runs: Seq<Seq<u32>>,
)
    requires
        partitioned(bv, pivots, rv),
        runs.len() == pivots.len() + 1,
        forall|k: int| 0 <= k < runs.len() ==> merged_run(bv, rv, pivots, k, #[trigger] runs[k]),
    ensures
        runs_multiset(runs) == runs_multiset(bv),
{
    let c = runs.len() as int;
    let m = bv.len() as int;
    let g = |i: int, k: int| piece(bv, rv, i, k).to_multiset();
    lemma_runs_multiset_msum(runs);
    assert forall|k: int| 0 <= k < c implies #[trigger] runs[k].to_multiset() == msum(m, |i: int| g(i, k)) by {
        assert(merged_run(bv, rv, pivots, k, runs[k]));
        lemma_msum_pointwise(m, |i: int| piece(bv, rv, i, k).to_multiset(), |i: int| g(i, k));
    }
    lemma_msum_pointwise(c, |k: int| runs[k].to_multiset(), |k: int| msum(m, |i: int| g(i, k)));
    lemma_msum_swap(c, m, g);
    let per_block = |i: int| msum(c, |k: int| g(i, k));
    assert forall|i: int| 0 <= i < m implies #[trigger] per_block(i) == bv[i].to_multiset() by {
        assert(sorted(bv[i]));
        let row = rv[i];
        lemma_row_telescopes(bv[i], row, c);
        lemma_msum_pointwise(
            c,
            |k: int| g(i, k),
            |k: int| bv[i].subrange(row[k] as int, row[k + 1] as int).to_multiset(),
        );
        assert(bv[i].subrange(0, row[c] as int) =~= bv[i]);
    }
    lemma_msum_pointwise(m, per_block, |i: int| bv[i].to_multiset());
    lemma_runs_multiset_msum(bv);
}

/// Sorts `data` in place with Parallel Sort by Regular Sampling over `p`
/// blocks. A partition count of 0 or 1, or a slice of at most one element,
/// is a plain sort; a count above the length is lowered to the length.
///
/// The result is sorted and holds exactly the input's elements; an input that
/// is already sorted comes back unchanged.
pub fn parallel_sort(data: &mut Vec<u32>, p: usize)
    ensures
        sorted(final(data)@),
        final(data)@.to_multiset() == old(data)@.to_multiset(),
        sorted(old(data)@) ==> final(data)@ == old(data)@,
{
    let ghost input = data@;
    let n = data.len();
    let parts = if p > n {
        n
    } else {
        p
    };
    if parts <= 1 {
        sort_block(data);
        proof {
            if sorted(input) {
                lemma_sorted_same_multiset_equal(data@, input);
            }
        }
        return;
    }
    let bs = block_size(n, parts);
    let mut blocks = split_blocks(data, bs);
    let ghost unsorted = views(blocks@);
    proof {
        let count = blocks@.len() as int;
        assert(count >= 1) by (nonlinear_arith)
            requires count * bs >= n, n >= 2;
    }
    let ghost before = blocks@;
    sort_blocks_parallel(&mut blocks);
    let ghost bv = views(blocks@);
    proof {
        lemma_runs_multiset_pointwise(bv, unsorted);
        assert forall|t: int| 0 <= t < blocks@.len() implies (#[trigger] blocks@[t])@.len() >= 1 by {
            assert(blocks@[t]@.to_multiset() == before[t]@.to_multiset());
            assert(before[t]@.len() >= 1);
            assert(blocks@[t]@.to_multiset().len() == before[t]@.to_multiset().len());
        }
    }

    let nb = blocks.len();
    let per_block = sample_blocks_parallel(&blocks, parts);
    let mut samples: Vec<u32> = Vec::new();
    for i in 0..nb
        invariant
            nb == blocks@.len(),
            nb == per_block@.len(),
            nb >= 1,
            parts >= 2,
            forall|t: int| 0 <= t < nb ==> (#[trigger] per_block@[t])@.len() == parts,
            i > 0 ==> samples@.len() >= 1,
    {
        let s = &per_block[i];
        for t in 0..s.len()
            invariant
                s@.len() == parts,
                i > 0 || t > 0 ==> samples@.len() >= 1,
        {
            samples.push(s[t]);
        }
    }
    let ghost drawn = samples@;
    sort_block(&mut samples);
    proof {
        assert(samples@.to_multiset().len() == drawn.to_multiset().len());
    }
    let pivots = select_pivots(&samples, parts);

    let rows = boundary_rows_parallel(&blocks, &pivots);
    let ghost rv = index_views(rows@);
    proof {
        assert forall|t: int| 0 <= t < bv.len() implies {
            &&& sorted(#[trigger] bv[t])
            &&& boundary_row_of(bv[t], pivots@, rv[t])
            &&& non_decreasing(rv[t])
        } by {
            assert(bv[t] == blocks@[t]@);
            assert(rv[t] == rows@[t]@);
            assert(sorted(blocks@[t]@));
            assert(boundary_row_of(blocks@[t]@, pivots@, rows@[t]@));
        }
    }
    let runs = merge_buckets_parallel(&blocks, &rows, &pivots, parts);
    proof {
        assert forall|k: int| 0 <= k < runs@.len() implies sorted(#[trigger] runs@[k]@) by {
            assert(merged_run(bv, rv, pivots@, k, runs@[k]@));
        }
        assert forall|k: int, j: int|
            0 <= k < runs@.len() && 0 <= j < runs@[k]@.len() implies in_bucket(pivots@, k, #[trigger] runs@[k]@[j]) by {
            assert(merged_run(bv, rv, pivots@, k, runs@[k]@));
        }
        let rs = views(runs@);
        assert forall|k: int| 0 <= k < rs.len() implies merged_run(bv, rv, pivots@, k, #[trigger] rs[k]) by {
            assert(merged_run(bv, rv, pivots@, k, runs@[k]@));
        }
        lemma_runs_cover_blocks(bv, rv, pivots@, rs);
    }
    let out = assemble(&runs, &pivots);
    *data = out;
    proof {
        if sorted(input) {
            lemma_sorted_same_multiset_equal(data@, input);
        }
    }
}

/// The result of `parallel_sort` does not depend on the partition count: any
/// two sorted arrangements of one input are the same sequence, so the result
/// for any `p` equals that of a plain single-threaded sort (`p == 1`).
pub proof fn lemma_partition_count_irrelevant(input: Seq<u32>, with_one: Seq<u32>, with_p: Seq<u32>)
    requires
        sorted(with_one),
        with_one.to_multiset() == input.to_multiset(),
        sorted(with_p),
        with_p.to_multiset() == input.to_multiset(),
    ensures
        with_one == with_p,
{
    lemma_sorted_same_multiset_equal(with_one, with_p);
}

} // verus!
