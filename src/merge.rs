use vstd::prelude::*;
use vstd::multiset::Multiset;
use crate::model::{sorted, views, runs_multiset, total_len, lemma_runs_multiset_len};

verus! {

broadcast use vstd::seq_lib::group_to_multiset_ensures, vstd::multiset::group_multiset_axioms;

/// The elements already taken from the first `m` runs, where run `i` has
/// given up its first `pos[i]` elements.
spec fn taken(ss: Seq<Seq<u32>>, pos: Seq<usize>, m: int) -> Multiset<u32>
    decreases m,
{
    if m <= 0 {
        Multiset::empty()
    } else {
        taken(ss, pos, m - 1).add(ss[m - 1].subrange(0, pos[m - 1] as int).to_multiset())
    }
}

/// How many elements of the first `m` runs are still to be taken.
spec fn remaining(ss: Seq<Seq<u32>>, pos: Seq<usize>, m: int) -> nat
    decreases m,
{
    if m <= 0 {
        0
    } else {
        remaining(ss, pos, m - 1) + (ss[m - 1].len() - pos[m - 1]) as nat
    }
}

/// The next element of run `j`.
spec fn head(ss: Seq<Seq<u32>>, pos: Seq<usize>, j: int) -> u32 {
    ss[j][pos[j] as int]
}

/// Each run has a cursor, and no cursor is past the end of its run.
spec fn cursors_ok(ss: Seq<Seq<u32>>, pos: Seq<usize>) -> bool {
    &&& pos.len() == ss.len()
    &&& forall|i: int| 0 <= i < ss.len() ==> pos[i] <= ss[i].len()
}

/// Moving the cursor of run `b` by one takes its head and leaves one element
/// less to take.
proof fn lemma_advance(ss: Seq<Seq<u32>>, pos: Seq<usize>, b: int, m: int)
    requires
        cursors_ok(ss, pos),
        0 <= b < ss.len(),
        pos[b] < ss[b].len(),
        pos[b] < usize::MAX,
        0 <= m <= ss.len(),
    ensures
        b < m ==> taken(ss, pos.update(b, (pos[b] + 1) as usize), m) == taken(ss, pos, m).insert(
            ss[b][pos[b] as int],
        ),
        b < m ==> remaining(ss, pos.update(b, (pos[b] + 1) as usize), m) + 1 == remaining(
            ss,
            pos,
            m,
        ),
        b >= m ==> taken(ss, pos.update(b, (pos[b] + 1) as usize), m) == taken(ss, pos, m),
        b >= m ==> remaining(ss, pos.update(b, (pos[b] + 1) as usize), m) == remaining(ss, pos, m),
    decreases m,
{
    let pos2 = pos.update(b, (pos[b] + 1) as usize);
    if m > 0 {
        lemma_advance(ss, pos, b, m - 1);
        let x = ss[b][pos[b] as int];
        let last2 = ss[m - 1].subrange(0, pos2[m - 1] as int).to_multiset();
        let last1 = ss[m - 1].subrange(0, pos[m - 1] as int).to_multiset();
        assert(taken(ss, pos2, m) == taken(ss, pos2, m - 1).add(last2));
        assert(taken(ss, pos, m) == taken(ss, pos, m - 1).add(last1));
        assert(remaining(ss, pos2, m) == remaining(ss, pos2, m - 1) + (ss[m - 1].len() - pos2[m - 1]) as nat);
        assert(remaining(ss, pos, m) == remaining(ss, pos, m - 1) + (ss[m - 1].len() - pos[m - 1]) as nat);
        if b == m - 1 {
            let s = ss[b];
            assert(pos2[b] == pos[b] + 1);
            assert(s.subrange(0, pos2[b] as int) =~= s.subrange(0, pos[b] as int).push(x));
            assert(s.subrange(0, pos[b] as int).push(x).to_multiset() == last1.insert(x));
            assert(last2 == last1.insert(x));
            assert(taken(ss, pos2, m) =~= taken(ss, pos, m).insert(x));
        } else {
            assert(pos2[m - 1] == pos[m - 1]);
            if b < m {
                assert(taken(ss, pos2, m) =~= taken(ss, pos, m).insert(x));
            }
        }
    }
}

/// Once every cursor is at the end of its run, all elements are taken.
proof fn lemma_taken_all(ss: Seq<Seq<u32>>, pos: Seq<usize>, m: int)
    requires
        cursors_ok(ss, pos),
        0 <= m <= ss.len(),
        forall|i: int| 0 <= i < m ==> pos[i] == ss[i].len(),
    ensures
        taken(ss, pos, m) == runs_multiset(ss.subrange(0, m)),
    decreases m,
{
    if m > 0 {
        lemma_taken_all(ss, pos, m - 1);
        assert(ss.subrange(0, m).drop_last() =~= ss.subrange(0, m - 1));
        assert(ss[m - 1].subrange(0, pos[m - 1] as int) =~= ss[m - 1]);
    }
}

/// The index of a run whose head is smallest among all runs that still hold
/// an element (the lowest such index on ties), or the number of runs when
/// every run is used up.
fn min_head(slices: &Vec<Vec<u32>>, pos: &Vec<usize>, Ghost(ss): Ghost<Seq<Seq<u32>>>) -> (best: usize)
    requires
        ss == views(slices@),
        cursors_ok(ss, pos@),
    ensures
        best <= slices@.len(),
        best < slices@.len() ==> pos@[best as int] < ss[best as int].len(),
        forall|j: int|
            0 <= j < slices@.len() && #[trigger] pos@[j] < ss[j].len() ==> best < slices@.len()
                && head(ss, pos@, best as int) <= head(ss, pos@, j),
{
    let k = slices.len();
    let mut best: usize = k;
    let mut best_val: u32 = 0;
    let mut i: usize = 0;
    while i < k
        invariant
            ss == views(slices@),
            k == slices@.len(),
            cursors_ok(ss, pos@),
            0 <= i <= k,
            best == k || (best < i && pos@[best as int] < ss[best as int].len()
                && best_val == ss[best as int][pos@[best as int] as int]),
            forall|j: int|
                0 <= j < i && #[trigger] pos@[j] < ss[j].len() ==> best != k && best_val
                    <= head(ss, pos@, j),
        decreases k - i,
    {
        let p = pos[i];
        proof {
            assert(ss[i as int] == slices@[i as int]@);
        }
        if p < slices[i].len() {
            let v = slices[i][p];
            assert(v == head(ss, pos@, i as int));
            if best == k || v < best_val {
                best = i;
                best_val = v;
            }
        }
        proof {
            assert forall|j: int| 0 <= j < i + 1 && #[trigger] pos@[j] < ss[j].len() implies best != k && best_val
                <= head(ss, pos@, j) by {
            }
        }
        i += 1;
    }
    best
}

/// Merges runs into one run holding exactly their elements; when the runs are
/// sorted, so is the result.
///
/// Each step takes the smallest head among the runs; on equal heads the run
/// with the lowest index goes first.
pub fn k_way_merge(slices: &Vec<Vec<u32>>) -> (merged: Vec<u32>)
    ensures
        (forall|i: int| 0 <= i < slices@.len() ==> sorted(#[trigger] slices@[i]@)) ==> sorted(merged@),
        merged@.to_multiset() == runs_multiset(views(slices@)),
        merged@.len() == total_len(views(slices@)),
{
    let ghost ss = views(slices@);
    let ghost runs_sorted = forall|i: int| 0 <= i < slices@.len() ==> sorted(#[trigger] slices@[i]@);
    let k = slices.len();
    let mut pos: Vec<usize> = Vec::new();
    for i in 0..k
        invariant
            pos@.len() == i,
            forall|j: int| 0 <= j < i ==> pos@[j] == 0,
    {
        pos.push(0);
    }
    let mut merged: Vec<u32> = Vec::new();
    proof {
        assert(taken(ss, pos@, k as int) =~= Multiset::empty()) by {
            lemma_taken_start(ss, pos@, k as int);
        }
    }
    loop
        invariant
            ss == views(slices@),
            k == slices@.len(),
            runs_sorted == forall|i: int| 0 <= i < slices@.len() ==> sorted(#[trigger] slices@[i]@),
            cursors_ok(ss, pos@),
            runs_sorted ==> sorted(merged@),
            merged@.to_multiset() == taken(ss, pos@, k as int),
            runs_sorted && merged@.len() > 0 ==> forall|i: int|
                0 <= i < k && pos@[i] < ss[i].len() ==> merged@.last() <= #[trigger] head(ss, pos@, i),
        ensures
            ss == views(slices@),
            cursors_ok(ss, pos@),
            merged@.to_multiset() == taken(ss, pos@, k as int),
            runs_sorted ==> sorted(merged@),
            forall|i: int| 0 <= i < k ==> pos@[i] == ss[i].len(),
        decreases remaining(ss, pos@, k as int),
    {
        let best = min_head(slices, &pos, Ghost(ss));
        if best == k {
            proof {
                assert forall|j: int| 0 <= j < k implies pos@[j] == ss[j].len() by {
                    assert(pos@[j] <= ss[j].len());
                }
            }
            break;
        }
        proof {
            assert(ss[best as int] == slices@[best as int]@);
        }
        let b = pos[best];
        let len = slices[best].len();
        assert(b < len);
        let v = slices[best][b];
        let ghost old_pos = pos@;
        let ghost old_merged = merged@;
        merged.push(v);
        pos.set(best, b + 1);
        proof {
            lemma_advance(ss, old_pos, best as int, k as int);
            assert(pos@ == old_pos.update(best as int, (b + 1) as usize));
            if runs_sorted {
                assert forall|i: int|
                    0 <= i < k && pos@[i] < ss[i].len() implies merged@.last() <= #[trigger] head(ss, pos@, i) by {
                    if i == best as int {
                        assert(sorted(slices@[i]@));
                    }
                }
                assert forall|x: int, y: int| 0 <= x <= y < merged@.len() implies merged@[x] <= merged@[y] by {
                    if y == merged@.len() - 1 && x < y {
                        assert(old_pos[best as int] < ss[best as int].len());
                        assert(old_merged.last() <= head(ss, old_pos, best as int));
                        assert(merged@[y] == head(ss, old_pos, best as int));
                        assert(merged@[x] == old_merged[x]);
                        assert(old_merged[x] <= old_merged.last());
                    }
                }
            }
        }
    }
    proof {
        lemma_taken_all(ss, pos@, k as int);
        assert(ss.subrange(0, k as int) =~= ss);
        lemma_runs_multiset_len(ss);
    }
    merged
}

/// With every cursor at the start, nothing is taken.
proof fn lemma_taken_start(ss: Seq<Seq<u32>>, pos: Seq<usize>, m: int)
    requires
        0 <= m <= pos.len(),
        m <= ss.len(),
        forall|i: int| 0 <= i < m ==> pos[i] == 0,
    ensures
        taken(ss, pos, m) =~= Multiset::empty(),
    decreases m,
{
    if m > 0 {
        lemma_taken_start(ss, pos, m - 1);
        assert(ss[m - 1].subrange(0, 0) =~= Seq::<u32>::empty());
    }
}

} // verus!
