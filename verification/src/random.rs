//! The random source of the game and the calls into `rand` that draw from it.

use rand::seq::SliceRandom;
use rand::RngExt;
use rand::SeedableRng;
use crate::card::Card;
use rand_pcg::Pcg32;
use vstd::prelude::*;

verus! {

/// The permuted congruential generator of `rand_pcg` (`Pcg32` is an alias of it).
#[verifier::external_type_specification]
#[verifier::external_body]
pub struct ExLcg64Xsh32(rand_pcg::Lcg64Xsh32);

/// `Pcg32::from_seed` (`SeedableRng`): a generator started from `seed`.
/// The generator is opaque, so nothing is stated of the state it starts in.
#[verifier::external_body]
pub(crate) fn pcg32_from_seed(seed: [u8; 16]) -> Pcg32 {
    Pcg32::from_seed(seed)
}

/// `RngExt::random_range(0..=max)` on `i32`: a number drawn from `0..=max`.
/// The range must not be empty, else `random_range` panics.
/// Which number comes out depends on the generator's state and is not stated.
#[verifier::external_body]
pub(crate) fn roll_inclusive(rng: &mut Pcg32, max: i32) -> (roll: i32)
    requires
        0 <= max,
    ensures
        0 <= roll <= max,
{
    rng.random_range(0..=max)
}

/// `RngExt::random_range(0..len)` on `usize`: an index drawn from `0..len`.
/// The range must not be empty, else `random_range` panics.
/// Which index comes out depends on the generator's state and is not stated.
#[verifier::external_body]
pub(crate) fn roll_index(rng: &mut Pcg32, len: usize) -> (index: usize)
    requires
        0 < len,
    ensures
        index < len,
{
    rng.random_range(0..len)
}

/// `RngExt::random::<bool>()`: a coin flip. Its outcome is not stated.
#[verifier::external_body]
pub(crate) fn flip_coin(rng: &mut Pcg32) -> bool {
    rng.random()
}

/// `SliceRandom::shuffle` on the cards: it reorders them by swaps, so the same cards
/// remain, each as often. The order it leaves them in is not stated.
#[verifier::external_body]
pub(crate) fn shuffle_cards(rng: &mut Pcg32, cards: &mut Vec<Card>)
    ensures
        final(cards)@.to_multiset() == old(cards)@.to_multiset(),
{
    cards.shuffle(rng)
}

} // verus!
