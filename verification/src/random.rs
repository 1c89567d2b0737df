//! The random source of the maze builder and the draws it makes from it.
//!
//! Nothing here is proved: each function hands one request to the `rand`
//! crate, or to `rand_distr` for the weighted choice, and its contract
//! states what the crate documents of the answer.

use crate::direction::Direction;
use rand::distributions::Distribution;
use rand::rngs::SmallRng;
use rand::seq::SliceRandom;
use rand::{Rng, SeedableRng};
use rand_distr::{WeightedError, WeightedIndex};
use vstd::prelude::*;

verus! {

/// `rand::rngs::SmallRng`, the generator that every random draw of this
/// crate is taken from. Its state is opaque.
#[verifier::external_type_specification]
#[verifier::external_body]
pub struct ExSmallRng(SmallRng);

/// `rand_distr::WeightedError`, the reasons for which a weighted choice
/// cannot be set up.
#[verifier::external_type_specification]
pub struct ExWeightedError(WeightedError);

/// A weighted choice among indices: a `rand_distr::WeightedIndex` over
/// integer weights, which is kept out of sight of the proofs.
#[verifier::external_body]
pub struct WeightedChoice {
    inner: WeightedIndex<u64>,
}

/// The weights that a weighted choice was made from, in their order.
pub uninterp spec fn choice_weights(choice: WeightedChoice) -> Seq<u64>;

/// `SmallRng::seed_from_u64`: a generator whose stream is fixed by `seed`.
/// Nothing is claimed of the stream.
#[verifier::external_body]
pub(crate) fn rng_from_seed(seed: u64) -> (rng: SmallRng) {
    SmallRng::seed_from_u64(seed)
}

/// `Rng::gen_range` on the range `0..n`: a draw below `n`. The range must
/// not be empty.
#[verifier::external_body]
pub(crate) fn gen_below(rng: &mut SmallRng, n: usize) -> (r: usize)
    requires
        n > 0,
    ensures
        r < n,
{
    rng.gen_range(0..n)
}

/// `Rng::gen_range` on the range `0..=ceil`: a draw that is at most `ceil`.
#[verifier::external_body]
pub(crate) fn gen_up_to(rng: &mut SmallRng, ceil: usize) -> (r: usize)
    ensures
        r <= ceil,
{
    rng.gen_range(0..=ceil)
}

/// `SliceRandom::shuffle`: the four directions are put into a random
/// order; none is lost and none is added.
#[verifier::external_body]
pub(crate) fn shuffle_directions(directions: &mut [Direction; 4], rng: &mut SmallRng)
    ensures
        final(directions)@.to_multiset() == old(directions)@.to_multiset(),
{
    directions.shuffle(rng);
}

/// `WeightedIndex::new` on four weights. It fails exactly when the weights
/// add up to zero, and says then that all weights are zero; otherwise the
/// choice remembers the weights.
#[verifier::external_body]
pub(crate) fn weighted_choice(weights: [u64; 4]) -> (r: Result<WeightedChoice, WeightedError>)
    requires
        weights[0] + weights[1] + weights[2] + weights[3] <= u64::MAX,
    ensures
        r is Err <==> weights[0] + weights[1] + weights[2] + weights[3] == 0,
        r matches Err(e) ==> e == WeightedError::AllWeightsZero,
        r is Ok ==> choice_weights(r.unwrap()) == weights@,
{
    WeightedIndex::new(weights).map(|inner| WeightedChoice { inner })
}

/// `Distribution::sample` of a weighted choice: the index of one of the
/// weights, and never of a weight that is zero.
#[verifier::external_body]
pub(crate) fn sample_choice(choice: &WeightedChoice, rng: &mut SmallRng) -> (index: usize)
    ensures
        index < choice_weights(*choice).len(),
        choice_weights(*choice)[index as int] > 0,
{
    choice.inner.sample(rng)
}

} // verus!
