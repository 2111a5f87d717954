use vstd::prelude::*;
use crate::model::sorted;

verus! {

/// Relies on `rand::Rng::random_range` on the thread-local generator from
/// `rand::rng`: a value in the half-open range, which must not be empty.
#[verifier::external_body]
fn random_in(start: u32, end: u32) -> (r: u32)
    requires
        start < end,
    ensures
        start <= r < end,
{
    rand::Rng::random_range(&mut rand::rng(), start..end)
}

/// Fills a vector of `n` values drawn uniformly from `start..end`. The range
/// may be empty only when nothing is drawn.
pub fn generate_data(n: usize, start: u32, end: u32) -> (data: Vec<u32>)
    requires
        n == 0 || start < end,
    ensures
        data@.len() == n,
        forall|i: int| 0 <= i < n ==> start <= #[trigger] data@[i] < end,
{
    let mut data: Vec<u32> = Vec::new();
    for i in 0..n
        invariant
            i < n ==> start < end,
            data@.len() == i,
            forall|t: int| 0 <= t < i ==> start <= #[trigger] data@[t] < end,
    {
        data.push(random_in(start, end));
    }
    data
}

/// Tells whether `data` is in non-decreasing order.
pub fn verify_sorted(data: &Vec<u32>) -> (ok: bool)
    ensures
        ok == sorted(data@),
{
    let n = data.len();
    if n < 2 {
        return true;
    }
    let mut i: usize = 1;
    while i < n
        invariant
            n == data@.len(),
            1 <= i <= n,
            forall|a: int, b: int| 0 <= a <= b < i ==> data@[a] <= data@[b],
        decreases n - i,
    {
        if data[i - 1] > data[i] {
            return false;
        }
        i += 1;
    }
    true
}

} // verus!
