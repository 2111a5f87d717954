use vstd::prelude::*;
use vstd::multiset::Multiset;

verus! {

broadcast use vstd::seq_lib::group_to_multiset_ensures, vstd::multiset::group_multiset_axioms;

/// `s` is in non-decreasing order.
pub open spec fn sorted(s: Seq<u32>) -> bool {
    forall|i: int, j: int| 0 <= i <= j < s.len() ==> s[i] <= s[j]
}

/// The contents of a sequence of vectors, as a sequence of sequences.
pub open spec fn views(v: Seq<Vec<u32>>) -> Seq<Seq<u32>> {
    v.map_values(|b: Vec<u32>| b@)
}

/// Every element of every run, counted with multiplicity.
pub open spec fn runs_multiset(ss: Seq<Seq<u32>>) -> Multiset<u32>
    decreases ss.len(),
{
    if ss.len() == 0 {
        Multiset::empty()
    } else {
        runs_multiset(ss.drop_last()).add(ss.last().to_multiset())
    }
}

/// The summed length of all runs.
pub open spec fn total_len(ss: Seq<Seq<u32>>) -> int
    decreases ss.len(),
{
    if ss.len() == 0 {
        0
    } else {
        total_len(ss.drop_last()) + ss.last().len()
    }
}

/// The size of the multiset of all runs is their summed length.
pub proof fn lemma_runs_multiset_len(ss: Seq<Seq<u32>>)
    ensures
        runs_multiset(ss).len() == total_len(ss),
    decreases ss.len(),
{
    if ss.len() > 0 {
        lemma_runs_multiset_len(ss.drop_last());
    }
}

/// Runs with equal contents, position by position, have the same multiset.
pub proof fn lemma_runs_multiset_pointwise(a: Seq<Seq<u32>>, b: Seq<Seq<u32>>)
    requires
        a.len() == b.len(),
        forall|i: int| 0 <= i < a.len() ==> a[i].to_multiset() == b[i].to_multiset(),
    ensures
        runs_multiset(a) == runs_multiset(b),
    decreases a.len(),
{
    if a.len() > 0 {
        lemma_runs_multiset_pointwise(a.drop_last(), b.drop_last());
    }
}

/// The multiset of a concatenation is the sum of the multisets of its parts.
pub proof fn lemma_concat_multiset(a: Seq<u32>, b: Seq<u32>)
    ensures
        (a + b).to_multiset() == a.to_multiset().add(b.to_multiset()),
{
    vstd::seq_lib::lemma_multiset_commutative(a, b);
}

/// Two sorted sequences with the same multiset of elements are equal.
pub proof fn lemma_sorted_same_multiset_equal(a: Seq<u32>, b: Seq<u32>)
    requires
        sorted(a),
        sorted(b),
        a.to_multiset() == b.to_multiset(),
    ensures
        a == b,
{
    let leq = |x: u32, y: u32| x <= y;
    assert(vstd::relations::sorted_by(a, leq));
    assert(vstd::relations::sorted_by(b, leq));
    vstd::seq_lib::lemma_sorted_unique(a, b, leq);
}

/// The sum `f(0) + ... + f(n - 1)` of multisets.
pub open spec fn msum(n: int, f: spec_fn(int) -> Multiset<u32>) -> Multiset<u32>
    decreases n,
{
    if n <= 0 {
        Multiset::empty()
    } else {
        msum(n - 1, f).add(f(n - 1))
    }
}

/// Sums of pointwise equal terms are equal.
pub proof fn lemma_msum_pointwise(n: int, f: spec_fn(int) -> Multiset<u32>, g: spec_fn(int) -> Multiset<u32>)
    requires
        forall|i: int| 0 <= i < n ==> #[trigger] f(i) == g(i),
    ensures
        msum(n, f) == msum(n, g),
    decreases n,
{
    if n > 0 {
        lemma_msum_pointwise(n - 1, f, g);
    }
}

/// A sum of pairwise sums splits into two sums.
pub proof fn lemma_msum_add(
    n: int,
    f: spec_fn(int) -> Multiset<u32>,
    g: spec_fn(int) -> Multiset<u32>,
    h: spec_fn(int) -> Multiset<u32>,
)
    requires
        forall|i: int| 0 <= i < n ==> #[trigger] h(i) == f(i).add(g(i)),
    ensures
        msum(n, h) == msum(n, f).add(msum(n, g)),
    decreases n,
{
    if n > 0 {
        lemma_msum_add(n - 1, f, g, h);
        assert(msum(n, h) =~= msum(n, f).add(msum(n, g)));
    }
}

/// The order of summation over a grid does not matter.
pub proof fn lemma_msum_swap(c: int, m: int, g: spec_fn(int, int) -> Multiset<u32>)
    ensures
        msum(c, |k: int| msum(m, |i: int| g(i, k))) == msum(m, |i: int| msum(c, |k: int| g(i, k))),
    decreases c,
{
    let lhs = |k: int| msum(m, |i: int| g(i, k));
    let whole = |i: int| msum(c, |k: int| g(i, k));
    if c > 0 {
        lemma_msum_swap(c - 1, m, g);
        let prev = |i: int| msum(c - 1, |k: int| g(i, k));
        let col = |i: int| g(i, c - 1);
        assert forall|i: int| 0 <= i < m implies #[trigger] whole(i) == prev(i).add(col(i)) by {
        }
        lemma_msum_add(m, prev, col, whole);
        assert(msum(c, lhs) == msum(c - 1, lhs).add(lhs(c - 1)));
        lemma_msum_pointwise(m, |i: int| g(i, c - 1), col);
        assert(msum(c - 1, lhs) == msum(m, prev));
        assert(msum(c, lhs) == msum(m, whole));
    } else {
        lemma_msum_empty(m, whole);
    }
}

/// A sum of empty multisets is empty.
pub proof fn lemma_msum_empty(n: int, f: spec_fn(int) -> Multiset<u32>)
    requires
        forall|i: int| 0 <= i < n ==> #[trigger] f(i) == Multiset::<u32>::empty(),
    ensures
        msum(n, f) == Multiset::<u32>::empty(),
    decreases n,
{
    if n > 0 {
        lemma_msum_empty(n - 1, f);
        assert(msum(n, f) =~= Multiset::<u32>::empty());
    }
}

/// The multiset of all runs, as a sum over their indices.
pub proof fn lemma_runs_multiset_msum(ss: Seq<Seq<u32>>)
    ensures
        runs_multiset(ss) == msum(ss.len() as int, |i: int| ss[i].to_multiset()),
    decreases ss.len(),
{
    if ss.len() > 0 {
        let t = ss.drop_last();
        lemma_runs_multiset_msum(t);
        lemma_msum_pointwise(
            t.len() as int,
            |i: int| t[i].to_multiset(),
            |i: int| ss[i].to_multiset(),
        );
    }
}

/// An element of a sum occurs in one of its terms.
pub proof fn lemma_msum_member(n: int, f: spec_fn(int) -> Multiset<u32>, x: u32)
    requires
        msum(n, f).count(x) > 0,
    ensures
        exists|i: int| 0 <= i < n && #[trigger] f(i).count(x) > 0,
    decreases n,
{
    if n > 0 {
        if f(n - 1).count(x) == 0 {
            lemma_msum_member(n - 1, f, x);
        }
    }
}

} // verus!
