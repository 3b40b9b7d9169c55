//! The randomness and clock boundary: seeded generators, weighted sampling
//! and wall-clock reads, each behind a trusted declaration. Everything the
//! search proves holds whatever these calls return.

use vstd::prelude::*;
use rand::SeedableRng;
use rand::seq::SliceRandom;

verus! {

#[verifier::external_type_specification]
#[verifier::external_body]
pub struct ExStdRng(rand::rngs::StdRng);

#[verifier::external_type_specification]
#[verifier::external_body]
pub struct ExInstant(std::time::Instant);

/// Relies on rand's StdRng::seed_from_u64: a generator state derived from
/// the seed alone. Nothing is stated of the values it will produce.
#[verifier::external_body]
pub fn rng_from_seed(seed: u64) -> rand::rngs::StdRng {
    rand::rngs::StdRng::seed_from_u64(seed)
}

/// Relies on rand's SliceRandom::choose_multiple_weighted over the index
/// slice: `min(amount, n)` distinct indices below `n`, sampled without
/// replacement with probability proportional to `weights`, in an
/// unspecified order. Unsigned weights are never invalid, so the underlying
/// call cannot fail.
#[verifier::external_body]
pub(crate) fn sample_indices_weighted(
    idx: &Vec<usize>,
    weights: &Vec<u32>,
    amount: usize,
    rng: &mut rand::rngs::StdRng,
) -> (r: Vec<usize>)
    requires
        idx@.len() == weights@.len(),
        forall|i: int| 0 <= i < idx@.len() ==> idx@[i] == i,
    ensures
        r@.len() == if amount as int <= weights@.len() {
            amount as int
        } else {
            weights@.len() as int
        },
        forall|i: int| 0 <= i < r@.len() ==> r@[i] < weights@.len(),
        forall|i: int, j: int| 0 <= i < j < r@.len() ==> r@[i] != r@[j],
{
    match idx.choose_multiple_weighted(rng, amount, |i: &usize| weights[*i]) {
        Ok(it) => it.copied().collect(),
        Err(_) => Vec::new(),
    }
}

/// The sum of the first `n` weights.
pub open spec fn weights_total(s: Seq<u32>, n: int) -> int
    decreases n,
{
    if n <= 0 {
        0
    } else {
        weights_total(s, n - 1) + s[n - 1]
    }
}

/// Relies on rand's SliceRandom::choose_weighted over the index slice: an
/// index drawn with probability proportional to its weight — so never one
/// of weight zero — failing exactly when the list is empty or every weight
/// is zero. The distribution it builds accumulates the weights in their own
/// type, so the total must fit it; the caller checks that bound first.
#[verifier::external_body]
pub(crate) fn pick_index_weighted(
    idx: &Vec<usize>,
    weights: &Vec<u32>,
    rng: &mut rand::rngs::StdRng,
) -> (r: Option<usize>)
    requires
        idx@.len() == weights@.len(),
        forall|i: int| 0 <= i < idx@.len() ==> idx@[i] == i,
        weights_total(weights@, weights@.len() as int) <= u32::MAX,
    ensures
        (r is Some) == (exists|i: int| 0 <= i < weights@.len() && weights@[i] > 0),
        r is Some ==> r->0 < weights@.len() && weights@[r->0 as int] > 0,
{
    idx.choose_weighted(rng, |i: &usize| weights[*i]).ok().copied()
}

/// Relies on std::time::Instant::now: the current moment of the monotonic
/// clock; nothing is stated of it.
#[verifier::external_body]
pub(crate) fn instant_now() -> std::time::Instant {
    std::time::Instant::now()
}

/// Relies on std::time::Instant::elapsed: the wall-clock time since
/// `start`, converted to whole milliseconds. The result depends on the
/// clock, so nothing is stated of it.
#[verifier::external_body]
pub(crate) fn millis_since(start: &std::time::Instant) -> u64 {
    start.elapsed().as_millis() as u64
}

} // verus!
