use vstd::prelude::*;
use crate::model::sorted;

verus! {

/// Where the `i`-th of `p` regular samples sits in a sorted block of length
/// `m`: one past each stride of `m / p`, held to the last index.
pub open spec fn sample_index(m: int, p: int, i: int) -> int {
    if i * (m / p) + 1 < m {
        i * (m / p) + 1
    } else {
        m - 1
    }
}

/// Where the `k`-th pivot sits among `len` sorted samples drawn for `p`
/// buckets: every `p`-th sample, held to the last index.
pub open spec fn pivot_index(len: int, p: int, k: int) -> int {
    if (k + 1) * p < len {
        (k + 1) * p
    } else {
        len - 1
    }
}

/// `c` splits `block` at value `v`: the first `c` elements are at most `v`,
/// the others exceed it.
pub open spec fn splits_at(block: Seq<u32>, v: u32, c: int) -> bool {
    &&& 0 <= c <= block.len()
    &&& forall|j: int| 0 <= j < c ==> #[trigger] block[j] <= v
    &&& forall|j: int| c <= j < block.len() ==> #[trigger] block[j] > v
}

/// `row` holds the bucket boundaries of `block` for `pivots`: it starts at 0,
/// ends at the block's length, and its entry `k + 1` counts the elements that
/// are at most pivot `k`.
pub open spec fn boundary_row_of(block: Seq<u32>, pivots: Seq<u32>, row: Seq<usize>) -> bool {
    &&& row.len() == pivots.len() + 2
    &&& row[0] == 0
    &&& row[pivots.len() + 1 as int] == block.len()
    &&& forall|k: int| 0 <= k < pivots.len() ==> splits_at(block, pivots[k], #[trigger] row[k + 1] as int)
}

/// The entries of `row` never decrease.
pub open spec fn non_decreasing(row: Seq<usize>) -> bool {
    forall|a: int, b: int| 0 <= a <= b < row.len() ==> row[a] <= row[b]
}

/// The start of stride `i` stays inside the block.
proof fn lemma_stride_fits(i: int, p: int, m: int)
    requires
        0 <= i < p,
        1 <= m,
    ensures
        0 <= i * (m / p) < m,
{
    assert(0 <= m / p) by (nonlinear_arith)
        requires 1 <= p, 1 <= m;
    assert(i * (m / p) <= (p - 1) * (m / p)) by (nonlinear_arith)
        requires 0 <= i < p, 0 <= m / p;
    assert((p - 1) * (m / p) + (m / p) == p * (m / p)) by (nonlinear_arith);
    assert(p * (m / p) <= m) by (nonlinear_arith)
        requires 1 <= p, 0 <= m;
    assert(0 <= i * (m / p)) by (nonlinear_arith)
        requires 0 <= i, 0 <= m / p;
    if m / p == 0 {
        assert(i * (m / p) == 0) by (nonlinear_arith)
            requires m / p == 0;
    }
}

/// Takes `p` regular samples from a sorted block: sample `i` is the element
/// at `sample_index(len, p, i)`.
pub fn regular_samples(block: &Vec<u32>, p: usize) -> (samples: Vec<u32>)
    requires
        block@.len() >= 1,
        p >= 1,
    ensures
        samples@.len() == p,
        forall|i: int| 0 <= i < p ==> #[trigger] samples@[i] == block@[sample_index(block@.len() as int, p as int, i)],
{
    let m = block.len();
    let omega = m / p;
    let mut samples: Vec<u32> = Vec::new();
    for i in 0..p
        invariant
            m == block@.len(),
            m >= 1,
            omega == m / p,
            samples@.len() == i,
            forall|t: int| 0 <= t < i ==> #[trigger] samples@[t] == block@[sample_index(m as int, p as int, t)],
    {
        proof {
            lemma_stride_fits(i as int, p as int, m as int);
        }
        let base = i * omega;
        let idx = if base < m - 1 {
            base + 1
        } else {
            m - 1
        };
        samples.push(block[idx]);
    }
    samples
}

/// The test on `(len - 1) / p` tells whether stride `k + 1` lies before the
/// last sample, without forming a product that could overflow.
proof fn lemma_pivot_test(k: int, p: int, len: int)
    requires
        0 <= k,
        1 <= p,
        1 <= len,
    ensures
        (k + 1 <= (len - 1) / p) <==> ((k + 1) * p < len),
        (k + 1 <= (len - 1) / p) ==> (k + 1) * p <= len - 1,
{
    let q = (len - 1) / p;
    assert(q * p <= len - 1 && len - 1 < (q + 1) * p) by (nonlinear_arith)
        requires q == (len - 1) / p, 1 <= p, 0 <= len - 1;
    if k + 1 <= q {
        assert((k + 1) * p <= q * p) by (nonlinear_arith)
            requires k + 1 <= q, 1 <= p;
    } else {
        assert((q + 1) * p <= (k + 1) * p) by (nonlinear_arith)
            requires q + 1 <= k + 1, 1 <= p;
    }
}

/// Pivot positions grow with the pivot index and stay inside the samples.
proof fn lemma_pivot_index_mono(len: int, p: int, a: int, b: int)
    requires
        1 <= p,
        1 <= len,
        0 <= a <= b,
    ensures
        0 <= pivot_index(len, p, a) <= pivot_index(len, p, b) < len,
{
    assert((a + 1) * p <= (b + 1) * p) by (nonlinear_arith)
        requires 0 <= a <= b, 1 <= p;
    assert(0 <= (a + 1) * p) by (nonlinear_arith)
        requires 0 <= a, 1 <= p;
}

/// Draws `p - 1` pivots from the sorted samples: pivot `k` is the sample at
/// `pivot_index(len, p, k)`. Pivots drawn from sorted samples are sorted.
pub fn select_pivots(samples: &Vec<u32>, p: usize) -> (pivots: Vec<u32>)
    requires
        samples@.len() >= 1,
        p >= 1,
    ensures
        pivots@.len() == p - 1,
        forall|k: int| 0 <= k < p - 1 ==> #[trigger] pivots@[k] == samples@[pivot_index(samples@.len() as int, p as int, k)],
        sorted(samples@) ==> sorted(pivots@),
{
    let len = samples.len();
    let mut pivots: Vec<u32> = Vec::new();
    for k in 0..p - 1
        invariant
            len == samples@.len(),
            len >= 1,
            p >= 1,
            pivots@.len() == k,
            forall|t: int| 0 <= t < k ==> #[trigger] pivots@[t] == samples@[pivot_index(len as int, p as int, t)],
    {
        proof {
            lemma_pivot_test(k as int, p as int, len as int);
            lemma_pivot_index_mono(len as int, p as int, k as int, k as int);
        }
        let idx = if k + 1 <= (len - 1) / p {
            (k + 1) * p
        } else {
            len - 1
        };
        pivots.push(samples[idx]);
    }
    proof {
        if sorted(samples@) {
            assert forall|a: int, b: int| 0 <= a <= b < pivots@.len() implies pivots@[a] <= pivots@[b] by {
                lemma_pivot_index_mono(len as int, p as int, a, b);
            }
        }
    }
    pivots
}

/// Counts the elements of a sorted block that are at most `v`, by binary
/// search: the index of the first element that exceeds `v`.
pub fn count_at_most(block: &Vec<u32>, v: u32) -> (c: usize)
    requires
        sorted(block@),
    ensures
        splits_at(block@, v, c as int),
{
    let mut lo: usize = 0;
    let mut hi: usize = block.len();
    while lo < hi
        invariant
            sorted(block@),
            0 <= lo <= hi <= block@.len(),
            forall|j: int| 0 <= j < lo ==> #[trigger] block@[j] <= v,
            forall|j: int| hi <= j < block@.len() ==> #[trigger] block@[j] > v,
        decreases hi - lo,
    {
        let mid = lo + (hi - lo) / 2;
        if block[mid] <= v {
            lo = mid + 1;
        } else {
            hi = mid;
        }
    }
    lo
}

/// Computes the bucket boundaries of one sorted block against sorted pivots.
/// The row starts at 0, ends at the block's length, and never decreases.
pub fn boundary_row(block: &Vec<u32>, pivots: &Vec<u32>) -> (row: Vec<usize>)
    requires
        sorted(block@),
        sorted(pivots@),
    ensures
        boundary_row_of(block@, pivots@, row@),
        non_decreasing(row@),
        row@[0] == 0,
        row@[row@.len() - 1] == block@.len(),
{
    let mut row: Vec<usize> = Vec::new();
    row.push(0);
    for k in 0..pivots.len()
        invariant
            row@.len() == k + 1,
            row@[0] == 0,
            forall|t: int| 0 <= t < k ==> splits_at(block@, pivots@[t], #[trigger] row@[t + 1] as int),
            sorted(block@),
    {
        let c = count_at_most(block, pivots[k]);
        row.push(c);
        assert(row@[k + 1] == c);
    }
    row.push(block.len());
    proof {
        let np = pivots@.len() as int;
        assert forall|a: int, b: int| 0 <= a <= b < row@.len() implies row@[a] <= row@[b] by {
            if a < b {
                if a == 0 {
                } else if b == np + 1 {
                    assert(splits_at(block@, pivots@[a - 1], row@[(a - 1) + 1] as int));
                } else {
                    let ca = row@[a] as int;
                    let cb = row@[b] as int;
                    assert(splits_at(block@, pivots@[a - 1], row@[(a - 1) + 1] as int));
                    assert(splits_at(block@, pivots@[b - 1], row@[(b - 1) + 1] as int));
                    if cb < ca {
                        assert(block@[cb] <= pivots@[a - 1]);
                        assert(block@[cb] > pivots@[b - 1]);
                    }
                }
            }
        }
    }
    row
}

} // verus!
