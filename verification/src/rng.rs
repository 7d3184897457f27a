use vstd::prelude::*;

verus! {

/// Sum of a sequence of table weights.
pub open spec fn weight_sum(s: Seq<u32>) -> int
    decreases s.len(),
{
    if s.len() == 0 {
        0
    } else {
        weight_sum(s.drop_last()) + s.last()
    }
}

/// Appending one weight adds it to the sum.
pub proof fn lemma_weight_sum_push(s: Seq<u32>, x: u32)
    ensures
        weight_sum(s.push(x)) == weight_sum(s) + x,
{
    assert(s.push(x).drop_last() =~= s);
    assert(s.push(x).last() == x);
}

/// Relies on `rand::random_range` over `lo..hi`: the result lies in that
/// half-open range. The function panics on an empty range, which the
/// precondition rules out.
#[verifier::external_body]
pub fn rand_range_i32(lo: i32, hi: i32) -> (r: i32)
    requires
        lo < hi,
    ensures
        lo <= r < hi,
{
    rand::random_range(lo..hi)
}

/// Relies on `rand::random::<bool>`: a coin flip; nothing is promised
/// of the outcome.
#[verifier::external_body]
pub fn rand_coin() -> (r: bool) {
    rand::random::<bool>()
}

/// Relies on `rand::distr::weighted::WeightedIndex`: sampling returns
/// the index of one entry, chosen with probability proportional to its
/// weight, and an entry of zero weight is never picked. The
/// preconditions rule out the constructor's error cases (empty input,
/// all-zero weights, overflowing total).
#[verifier::external_body]
pub fn weighted_pick(weights: &Vec<u32>) -> (r: usize)
    requires
        weights@.len() > 0,
        weight_sum(weights@) <= u32::MAX,
        exists|i: int| 0 <= i < weights@.len() && weights@[i] > 0,
    ensures
        r < weights@.len(),
        weights@[r as int] > 0,
{
    let dist = rand::distr::weighted::WeightedIndex::new(weights.iter()).unwrap();
    rand::distr::Distribution::sample(&dist, &mut rand::rng())
}

} // verus!
