use vstd::prelude::*;
use rand::rngs::ThreadRng;
use rand::seq::SliceRandom;
use crate::card::Card;

verus! {

#[verifier::external_type_specification]
#[verifier::external_body]
pub struct ExThreadRng(ThreadRng);

/// Calls `rand::rng`, which hands out the thread's random generator. Nothing is stated of
/// the generator: its state is chance.
#[verifier::external_body]
pub(crate) fn thread_rng() -> ThreadRng {
    rand::rng()
}

/// Calls `SliceRandom::shuffle` on the cards. The crate's source shuffles by swapping
/// elements only, so the cards that come out are those that went in, in some order; which
/// order is chance and is not stated.
#[verifier::external_body]
pub(crate) fn shuffle_cards(cards: &mut Vec<Card>, rng: &mut ThreadRng)
    ensures
        final(cards)@.len() == old(cards)@.len(),
        final(cards)@.to_multiset() == old(cards)@.to_multiset(),
{
    cards.shuffle(rng);
}

} // verus!
