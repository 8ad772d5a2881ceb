use vstd::prelude::*;
use rand::Rng;

verus! {

/// Relies on rand's `thread_rng().gen_range(0..bound)`: a uniformly drawn value of `[0, bound)`.
/// The range is never empty here, so the call does not panic.
#[verifier::external_body]
pub(crate) fn random_below(bound: u128) -> (r: u128)
    requires
        bound > 0,
    ensures
        r < bound,
{
    rand::thread_rng().gen_range(0..bound)
}

/// The sum of the first `k` weights.
pub open spec fn weight_prefix(weights: Seq<u64>, k: int) -> int
    decreases k,
{
    if k <= 0 || weights.len() == 0 {
        0
    } else if k > weights.len() {
        weight_prefix(weights, weights.len() as int)
    } else {
        weight_prefix(weights, k - 1) + weights[k - 1]
    }
}

pub open spec fn weight_total(weights: Seq<u64>) -> int {
    weight_prefix(weights, weights.len() as int)
}

pub proof fn lemma_prefix_monotone(weights: Seq<u64>, j: int, k: int)
    requires
        0 <= j <= k <= weights.len(),
    ensures
        0 <= weight_prefix(weights, j) <= weight_prefix(weights, k),
        weight_prefix(weights, k) <= k * u64::MAX,
    decreases k,
{
    if k > 0 {
        if j < k {
            lemma_prefix_monotone(weights, j, k - 1);
        }
        lemma_prefix_monotone(weights, k - 1, k - 1);
    }
}

/// Of the `total` equally likely draws, item `i` owns exactly `weights[i]`: those from
/// `prefix(i)` up to `prefix(i + 1)`, all below the total. So with weights `[1, 3]` the
/// items are picked one time in four and three times in four, and an item of weight zero
/// owns no draw.
pub proof fn lemma_weighted_share(weights: Seq<u64>, i: int)
    requires
        0 <= i < weights.len(),
    ensures
        weight_prefix(weights, i + 1) - weight_prefix(weights, i) == weights[i],
        0 <= weight_prefix(weights, i),
        weight_prefix(weights, i + 1) <= weight_total(weights),
{
    lemma_prefix_monotone(weights, i, i + 1);
    lemma_prefix_monotone(weights, i + 1, weights.len() as int);
}

/// The item that a draw from `[0, total)` selects: the first whose running total of weights
/// exceeds the draw. Item `i` owns the `weights[i]` draws from `prefix(i)` up to `prefix(i + 1)`;
/// no draw selects anything when `draw >= total`.
pub fn pick_weighted(weights: &[u64], draw: u128) -> (r: Option<usize>)
    ensures
        r is None <==> draw >= weight_total(weights@),
        r matches Some(i) ==> i < weights.len() && weight_prefix(weights@, i as int) <= draw
            < weight_prefix(weights@, i + 1),
{
    let mut cumulative: u128 = 0;
    let mut i: usize = 0;
    while i < weights.len()
        invariant
            i <= weights.len(),
            cumulative == weight_prefix(weights@, i as int),
            draw >= cumulative,
        decreases weights.len() - i,
    {
        proof {
            lemma_prefix_monotone(weights@, i + 1, i + 1);
            assert((i + 1) * u64::MAX <= u128::MAX) by (nonlinear_arith)
                requires i < usize::MAX;
        }
        cumulative = cumulative + weights[i] as u128;
        if draw < cumulative {
            proof {
                lemma_prefix_monotone(weights@, i + 1, weights@.len() as int);
            }
            return Some(i);
        }
        i += 1;
    }
    None
}

/// Picks one of `items` at random, each with probability proportional to its weight.
/// Returns `None` exactly when every weight is zero; an item of weight zero is never picked.
pub fn choose_weighted<'a, T>(items: &'a [T], weights: &[u64]) -> (r: Option<&'a T>)
    requires
        items.len() == weights.len(),
    ensures
        r is None <==> weight_total(weights@) == 0,
        r matches Some(item) ==> exists|i: int|
            0 <= i < items.len() && weights@[i] > 0 && *item == items@[i],
{
    let mut total: u128 = 0;
    let mut i: usize = 0;
    while i < weights.len()
        invariant
            i <= weights.len(),
            total == weight_prefix(weights@, i as int),
        decreases weights.len() - i,
    {
        proof {
            lemma_prefix_monotone(weights@, i + 1, i + 1);
            assert((i + 1) * u64::MAX <= u128::MAX) by (nonlinear_arith)
                requires i < usize::MAX;
        }
        total = total + weights[i] as u128;
        i += 1;
    }
    if total == 0 {
        return None;
    }
    let draw = random_below(total);
    match pick_weighted(weights, draw) {
        Some(k) => {
            assert(weights@[k as int] > 0);
            Some(&items[k])
        },
        None => None,
    }
}

} // verus!
