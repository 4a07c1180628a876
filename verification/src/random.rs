//! The random numbers of the simulation, drawn from `rand`'s `SmallRng`.

use rand::distr::{Bernoulli, Distribution};
use rand::rngs::SmallRng;
use rand::seq::SliceRandom;
use rand::{RngExt, SeedableRng};
use vstd::prelude::*;

verus! {

/// `rand`'s small, fast, non-cryptographic generator, carried through opaquely.
#[verifier::external_type_specification]
#[verifier::external_body]
pub struct ExSmallRng(SmallRng);

/// `rand`'s Bernoulli distribution: a coin with a fixed probability of heads,
/// made outside the library from that probability and carried through opaquely.
#[verifier::external_type_specification]
#[verifier::external_body]
pub struct ExBernoulli(Bernoulli);

/// Calls `Distribution::sample` of a `Bernoulli` distribution on `rng`, which
/// is what `rng.random_bool(p)` does with `Bernoulli::new(p)`. The outcome is
/// left free.
#[verifier::external_body]
pub(crate) fn toss(rng: &mut SmallRng, coin: &Bernoulli) -> (heads: bool) {
    coin.sample(rng)
}

/// Calls `SmallRng::seed_from_u64(seed)` (`rand_core::SeedableRng`), which
/// expands the seed into a generator's state and cannot fail. Nothing is
/// claimed of the state that comes back.
#[verifier::external_body]
pub(crate) fn seeded_small_rng(seed: u64) -> (rng: SmallRng) {
    SmallRng::seed_from_u64(seed)
}

/// Calls `rng.random_range(0..n)` (`rand::RngExt::random_range`). The source
/// asserts that the range is not empty, so `n` must be positive; the value is
/// drawn from `0..n`, which is all that is stated of it.
#[verifier::external_body]
pub(crate) fn random_below(rng: &mut SmallRng, n: usize) -> (r: usize)
    requires
        n > 0,
    ensures
        r < n,
{
    rng.random_range(0..n)
}

/// Calls `rng.random::<bool>()` (`rand::RngExt::random` with the standard
/// uniform distribution on `bool`). The outcome is left free.
#[verifier::external_body]
pub(crate) fn random_coin(rng: &mut SmallRng) -> (b: bool) {
    rng.random::<bool>()
}

/// Calls `SliceRandom::shuffle` on the vector's slice. The source permutes the
/// slice by swapping pairs of its elements, so the vector keeps its length and
/// its multiset of elements; which permutation comes out is left free.
#[verifier::external_body]
pub(crate) fn shuffle_values(v: &mut Vec<i32>, rng: &mut SmallRng)
    ensures
        final(v)@.len() == old(v)@.len(),
        final(v)@.to_multiset() == old(v)@.to_multiset(),
{
    v.shuffle(rng)
}

} // verus!
