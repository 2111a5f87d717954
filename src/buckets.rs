use vstd::prelude::*;
use vstd::multiset::Multiset;
use crate::model::{
    sorted, views, runs_multiset, msum, lemma_runs_multiset_msum, lemma_msum_pointwise,
    lemma_msum_member, lemma_concat_multiset,
};
use crate::partition::{splits_at, boundary_row_of, non_decreasing};
use crate::merge::k_way_merge;

verus! {

broadcast use vstd::seq_lib::group_to_multiset_ensures, vstd::multiset::group_multiset_axioms;

/// The contents of a sequence of index vectors.
pub open spec fn index_views(v: Seq<Vec<usize>>) -> Seq<Seq<usize>> {
    v.map_values(|r: Vec<usize>| r@)
}

/// Every block is sorted and `rows[i]` is its boundary row for `pivots`.
pub open spec fn partitioned(blocks: Seq<Seq<u32>>, pivots: Seq<u32>, rows: Seq<Seq<usize>>) -> bool {
    &&& rows.len() == blocks.len()
    &&& forall|i: int|
        0 <= i < blocks.len() ==> {
            &&& sorted(#[trigger] blocks[i])
            &&& boundary_row_of(blocks[i], pivots, rows[i])
            &&& non_decreasing(rows[i])
        }
}

/// The part of block `i` that belongs to bucket `k`.
pub open spec fn piece(blocks: Seq<Seq<u32>>, rows: Seq<Seq<usize>>, i: int, k: int) -> Seq<u32> {
    blocks[i].subrange(rows[i][k] as int, rows[i][k + 1] as int)
}

/// Every element that belongs to bucket `k`, over all blocks.
pub open spec fn bucket_multiset(blocks: Seq<Seq<u32>>, rows: Seq<Seq<usize>>, k: int) -> Multiset<u32> {
    msum(blocks.len() as int, |i: int| piece(blocks, rows, i, k).to_multiset())
}

/// `x` lies in the value range of bucket `k`: above pivot `k - 1` (if any)
/// and at most pivot `k` (if any). A value equal to a pivot belongs to the
/// bucket below it.
pub open spec fn in_bucket(pivots: Seq<u32>, k: int, x: u32) -> bool {
    &&& (k == 0 || pivots[k - 1] < x)
    &&& (k >= pivots.len() || x <= pivots[k])
}

/// Copies `v[lo..hi]`.
pub fn copy_range(v: &Vec<u32>, lo: usize, hi: usize) -> (r: Vec<u32>)
    requires
        lo <= hi <= v@.len(),
    ensures
        r@ == v@.subrange(lo as int, hi as int),
{
    let mut r: Vec<u32> = Vec::new();
    let mut t: usize = lo;
    while t < hi
        invariant
            lo <= t <= hi <= v@.len(),
            r@ == v@.subrange(lo as int, t as int),
        decreases hi - t,
    {
        r.push(v[t]);
        assert(v@.subrange(lo as int, t + 1) =~= v@.subrange(lo as int, t as int).push(v@[t as int]));
        t += 1;
    }
    r
}

/// Every element of the part of a block that belongs to bucket `k` lies in
/// that bucket's value range.
proof fn lemma_piece_in_bucket(blocks: Seq<Seq<u32>>, pivots: Seq<u32>, rows: Seq<Seq<usize>>, i: int, k: int, x: u32)
    requires
        partitioned(blocks, pivots, rows),
        0 <= i < blocks.len(),
        0 <= k <= pivots.len(),
        piece(blocks, rows, i, k).to_multiset().count(x) > 0,
    ensures
        in_bucket(pivots, k, x),
{
    let b = blocks[i];
    let row = rows[i];
    assert(sorted(blocks[i]));
    let pc = piece(blocks, rows, i, k);
    assert(pc.contains(x));
    let t = choose|t: int| 0 <= t < pc.len() && pc[t] == x;
    assert(b[row[k] + t] == x);
    if k > 0 {
        assert(splits_at(b, pivots[k - 1], row[(k - 1) + 1] as int));
    }
    if k < pivots.len() {
        assert(splits_at(b, pivots[k], row[k + 1] as int));
    }
}

/// Merges the parts of all blocks that belong to bucket `k` into one sorted
/// run. The run holds exactly the bucket's elements, and each lies in the
/// bucket's value range.
pub fn merge_bucket(blocks: &Vec<Vec<u32>>, rows: &Vec<Vec<usize>>, pivots: &Vec<u32>, k: usize) -> (run: Vec<u32>)
    requires
        partitioned(views(blocks@), pivots@, index_views(rows@)),
        k <= pivots@.len(),
    ensures
        sorted(run@),
        run@.to_multiset() == bucket_multiset(views(blocks@), index_views(rows@), k as int),
        forall|j: int| 0 <= j < run@.len() ==> in_bucket(pivots@, k as int, #[trigger] run@[j]),
{
    let ghost bv = views(blocks@);
    let ghost rv = index_views(rows@);
    let mut slices: Vec<Vec<u32>> = Vec::new();
    for i in 0..blocks.len()
        invariant
            bv == views(blocks@),
            rv == index_views(rows@),
            partitioned(bv, pivots@, rv),
            k <= pivots@.len(),
            slices@.len() == i,
            forall|t: int| 0 <= t < i ==> #[trigger] slices@[t]@ == piece(bv, rv, t, k as int),
    {
        let row = &rows[i];
        proof {
            assert(sorted(bv[i as int]));
            assert(rv[i as int] == row@);
            assert(bv[i as int] == blocks@[i as int]@);
        }
        let rl = row.len();
        assert(k + 1 < rl);
        let lo = row[k];
        let hi = row[k + 1];
        let part = copy_range(&blocks[i], lo, hi);
        slices.push(part);
    }
    proof {
        assert forall|t: int| 0 <= t < slices@.len() implies sorted(#[trigger] slices@[t]@) by {
            assert(sorted(bv[t]));
            assert(non_decreasing(rv[t]));
            assert(rv[t][k as int] <= rv[t][k + 1]);
        }
    }
    let run = k_way_merge(&slices);
    proof {
        let sv = views(slices@);
        lemma_runs_multiset_msum(sv);
        lemma_msum_pointwise(
            sv.len() as int,
            |t: int| sv[t].to_multiset(),
            |t: int| piece(bv, rv, t, k as int).to_multiset(),
        );
        assert forall|j: int| 0 <= j < run@.len() implies in_bucket(pivots@, k as int, #[trigger] run@[j]) by {
            let x = run@[j];
            assert(run@.to_multiset().count(x) > 0);
            lemma_msum_member(bv.len() as int, |t: int| piece(bv, rv, t, k as int).to_multiset(), x);
            let i = choose|i: int| 0 <= i < bv.len() && #[trigger] piece(bv, rv, i, k as int).to_multiset().count(x) > 0;
            lemma_piece_in_bucket(bv, pivots@, rv, i, k as int, x);
        }
    }
    run
}

/// Concatenates the merged runs in bucket order. Runs that are sorted and lie
/// in the value ranges of their buckets give a sorted result.
pub fn assemble(runs: &Vec<Vec<u32>>, pivots: &Vec<u32>) -> (out: Vec<u32>)
    requires
        runs@.len() == pivots@.len() + 1,
        sorted(pivots@),
        forall|k: int| 0 <= k < runs@.len() ==> sorted(#[trigger] runs@[k]@),
        forall|k: int, j: int|
            0 <= k < runs@.len() && 0 <= j < runs@[k]@.len() ==> in_bucket(pivots@, k, #[trigger] runs@[k]@[j]),
    ensures
        sorted(out@),
        out@.to_multiset() == runs_multiset(views(runs@)),
{
    let ghost rs = views(runs@);
    let mut out: Vec<u32> = Vec::new();
    for k in 0..runs.len()
        invariant
            rs == views(runs@),
            runs@.len() == pivots@.len() + 1,
            sorted(pivots@),
            forall|q: int| 0 <= q < runs@.len() ==> sorted(#[trigger] runs@[q]@),
            forall|q: int, j: int|
                0 <= q < runs@.len() && 0 <= j < runs@[q]@.len() ==> in_bucket(pivots@, q, #[trigger] runs@[q]@[j]),
            sorted(out@),
            out@.to_multiset() == runs_multiset(rs.subrange(0, k as int)),
            k == 0 ==> out@.len() == 0,
            0 < k <= pivots@.len() ==> forall|j: int| 0 <= j < out@.len() ==> #[trigger] out@[j] <= pivots@[k - 1],
    {
        let run = &runs[k];
        let ghost before = out@;
        let mut t: usize = 0;
        while t < run.len()
            invariant
                out@ == before + run@.subrange(0, t as int),
                t <= run@.len(),
            decreases run@.len() - t,
        {
            out.push(run[t]);
            assert(run@.subrange(0, t + 1) =~= run@.subrange(0, t as int).push(run@[t as int]));
            t += 1;
        }
        proof {
            assert(run@.subrange(0, run@.len() as int) =~= run@);
            assert(out@ == before + run@);
            assert(sorted(runs@[k as int]@));
            assert forall|a: int, b: int| 0 <= a <= b < out@.len() implies out@[a] <= out@[b] by {
                if b >= before.len() && a < before.len() {
                    assert(out@[b] == run@[b - before.len()]);
                    assert(in_bucket(pivots@, k as int, runs@[k as int]@[b - before.len()]));
                    assert(out@[a] == before[a]);
                    assert(before[a] <= pivots@[k - 1]);
                } else if b < before.len() {
                    assert(out@[a] == before[a]);
                    assert(out@[b] == before[b]);
                } else {
                    assert(out@[a] == run@[a - before.len()]);
                    assert(out@[b] == run@[b - before.len()]);
                }
            }
            if k < pivots.len() {
                assert forall|j: int| 0 <= j < out@.len() implies #[trigger] out@[j] <= pivots@[k as int] by {
                    if j < before.len() {
                        assert(out@[j] == before[j]);
                        assert(before[j] <= pivots@[k - 1]);
                        assert(pivots@[k - 1] <= pivots@[k as int]);
                    } else {
                        assert(out@[j] == run@[j - before.len()]);
                        assert(in_bucket(pivots@, k as int, runs@[k as int]@[j - before.len()]));
                    }
                }
            }
            lemma_concat_multiset(before, run@);
            assert(rs.subrange(0, k + 1).drop_last() =~= rs.subrange(0, k as int));
            assert(rs[k as int] == run@);
        }
    }
    proof {
        assert(rs.subrange(0, runs@.len() as int) =~= rs);
    }
    out
}

/// With sorted pivots the bucket ranges do not overlap: a value lies in at
/// most one bucket, so equal values never end up in two buckets.
pub proof fn lemma_value_in_one_bucket(pivots: Seq<u32>, q1: int, q2: int, x: u32)
    requires
        sorted(pivots),
        0 <= q1 <= pivots.len(),
        0 <= q2 <= pivots.len(),
        in_bucket(pivots, q1, x),
        in_bucket(pivots, q2, x),
    ensures
        q1 == q2,
{
    if q1 < q2 {
        assert(pivots[q1] <= pivots[q2 - 1]);
    } else if q2 < q1 {
        assert(pivots[q2] <= pivots[q1 - 1]);
    }
}

/// A value equal to pivot `k` belongs to a bucket at or below `k`: it is
/// never placed above the pivot's boundary.
pub proof fn lemma_pivot_value_not_above(pivots: Seq<u32>, k: int, q: int)
    requires
        sorted(pivots),
        0 <= k < pivots.len(),
        0 <= q <= pivots.len(),
        in_bucket(pivots, q, pivots[k]),
    ensures
        q <= k,
{
    if q > k {
        assert(pivots[k] <= pivots[q - 1]);
    }
}

/// Merging keeps a bucket's value range: when every element of the runs lies
/// in bucket `k`, so does every element of a merge of them (any sequence with
/// the same multiset, as `k_way_merge` returns).
pub proof fn lemma_merge_keeps_bucket_range(slices: Seq<Seq<u32>>, merged: Seq<u32>, pivots: Seq<u32>, k: int)
    requires
        merged.to_multiset() == runs_multiset(slices),
        forall|i: int, j: int|
            0 <= i < slices.len() && 0 <= j < slices[i].len() ==> in_bucket(pivots, k, #[trigger] slices[i][j]),
    ensures
        forall|j: int| 0 <= j < merged.len() ==> in_bucket(pivots, k, #[trigger] merged[j]),
{
    assert forall|j: int| 0 <= j < merged.len() implies in_bucket(pivots, k, #[trigger] merged[j]) by {
        let x = merged[j];
        assert(merged.to_multiset().count(x) > 0);
        lemma_runs_multiset_msum(slices);
        lemma_msum_member(slices.len() as int, |i: int| slices[i].to_multiset(), x);
        let i = choose|i: int| 0 <= i < slices.len() && #[trigger] slices[i].to_multiset().count(x) > 0;
        assert(slices[i].contains(x));
        let t = choose|t: int| 0 <= t < slices[i].len() && slices[i][t] == x;
        assert(in_bucket(pivots, k, slices[i][t]));
    }
}

} // verus!
