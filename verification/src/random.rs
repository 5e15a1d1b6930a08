//! The calls into the random-number crates. Nothing here is proved: each
//! contract states what the called function is documented to do.

use crate::deck::Card;
use rand::seq::SliceRandom;
use rand::Rng;
use rand_chacha::ChaCha8Rng;
use vstd::prelude::*;

verus! {

/// The generator that drives shuffles and the placing of the sentinel. Its
/// state is opaque to the proofs.
#[verifier::external_type_specification]
#[verifier::external_body]
pub struct ExChaCha8Rng(ChaCha8Rng);

/// `rand::seq::SliceRandom::shuffle` on the cards: it swaps cards within the
/// slice, so the slice holds the same cards afterwards, in an order that
/// depends on the generator.
#[verifier::external_body]
pub(crate) fn shuffle_cards(cards: &mut Vec<Card>, rng: &mut ChaCha8Rng)
    ensures
        final(cards)@.to_multiset() == old(cards)@.to_multiset(),
        final(cards)@.len() == old(cards)@.len(),
{
    cards.shuffle(rng);
}

/// `rand::Rng::gen_range` on the half-open range from `low` to `high`: the
/// number lies in the range. The call panics on an empty range, which the
/// precondition leaves out.
#[verifier::external_body]
pub(crate) fn random_below(rng: &mut ChaCha8Rng, low: usize, high: usize) -> (n: usize)
    requires
        low < high,
    ensures
        low <= n < high,
{
    rng.gen_range(low..high)
}

/// `Clone::clone` of the generator: a second generator. Nothing is stated of
/// the numbers it will give.
#[verifier::external_body]
pub(crate) fn fork_rng(rng: &ChaCha8Rng) -> ChaCha8Rng {
    rng.clone()
}

} // verus!
