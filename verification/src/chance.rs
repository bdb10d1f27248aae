//! Random draws, made by the `rand` crate.
use vstd::prelude::*;

verus! {

/// Calls `rand::random_range(low..=high)`, which draws a number uniformly from
/// `low..=high` and panics when that range is empty.
///
/// Claimed: the result lies in the range. Which number comes is chance.
#[verifier::external_body]
pub(crate) fn random_u32_inclusive(low: u32, high: u32) -> (r: u32)
    requires
        low <= high,
    ensures
        low <= r <= high,
{
    rand::random_range(low..=high)
}

/// Calls `rand::random_ratio(numerator, denominator)`, which is true with
/// probability `numerator / denominator` and panics when `denominator` is zero
/// or smaller than `numerator`.
///
/// Claimed, as the crate documents: a zero numerator always gives `false`, and a
/// numerator equal to the denominator always gives `true`. Otherwise the result
/// is chance.
#[verifier::external_body]
pub(crate) fn random_ratio(numerator: u32, denominator: u32) -> (r: bool)
    requires
        0 < denominator,
        numerator <= denominator,
    ensures
        numerator == 0 ==> !r,
        numerator == denominator ==> r,
{
    rand::random_ratio(numerator, denominator)
}

/// The sum of the weights.
pub open spec fn total_weight(w: Seq<u32>) -> int
    decreases w.len(),
{
    if w.len() == 0 {
        0
    } else {
        total_weight(w.drop_last()) + w.last()
    }
}

/// Builds `rand::distr::weighted::WeightedIndex::new(weights)` and samples it
/// with `rand::rng()`. Building fails when the weights are empty, sum to zero
/// or overflow `u32`; sampling finds the index whose running sum of weights
/// first exceeds a uniform draw below the total.
///
/// Claimed: the index is within the weights and its weight is positive. Which
/// index comes is chance.
#[verifier::external_body]
pub(crate) fn random_weighted_index(weights: &Vec<u32>) -> (r: usize)
    requires
        total_weight(weights@) > 0,
        total_weight(weights@) <= u32::MAX,
    ensures
        r < weights.len(),
        weights@[r as int] > 0,
{
    let distr = rand::distr::weighted::WeightedIndex::new(weights.iter()).unwrap();
    rand::distr::Distribution::sample(&distr, &mut rand::rng())
}

/// A random action among `actions`: uniformly when there are no weights,
/// otherwise in proportion to the weights, pairing actions and weights in
/// order as far as both go.
pub fn pick_random_action<A: Copy>(actions: &Vec<A>, weights: Option<Vec<u32>>) -> (r: A)
    requires
        match weights {
            None => 0 < actions.len() <= u32::MAX,
            Some(w) => total_weight(w@.take(min_len(actions.len(), w.len()))) > 0
                && total_weight(w@.take(min_len(actions.len(), w.len()))) <= u32::MAX,
        },
    ensures
        exists|i: int| 0 <= i < actions.len() && r == actions@[i] && (weights matches Some(w) ==> i < w.len() && w@[i] > 0),
{
    let n = actions.len();
    let w: Vec<u32> = match weights {
        None => {
            let mut ones: Vec<u32> = Vec::new();
            let mut i: usize = 0;
            while i < n
                invariant
                    i <= n,
                    ones.len() == i,
                    forall|j: int| 0 <= j < i ==> #[trigger] ones@[j] == 1,
                    total_weight(ones@) == i,
                decreases n - i,
            {
                let ghost before = ones@;
                ones.push(1);
                assert(ones@.drop_last() == before);
                i = i + 1;
            }
            ones
        },
        Some(given) => {
            let m = if given.len() < n { given.len() } else { n };
            let mut kept: Vec<u32> = Vec::new();
            let mut i: usize = 0;
            while i < m
                invariant
                    i <= m,
                    m <= given.len(),
                    kept@ == given@.take(i as int),
                decreases m - i,
            {
                kept.push(given[i]);
                assert(kept@ =~= given@.take(i + 1));
                i = i + 1;
            }
            kept
        },
    };
    let i = random_weighted_index(&w);
    actions[i]
}

/// The shorter of two lengths.
pub open spec fn min_len(a: usize, b: usize) -> int {
    if a <= b { a as int } else { b as int }
}

} // verus!
