//! The injected source of randomness. All stochastic choices in the
//! library draw from a caller-supplied `rand::rngs::StdRng` through the
//! two trusted wrappers below; everything downstream of a draw is
//! verified for every value the wrapper may return.

use vstd::prelude::*;
use crate::card::Card;

verus! {

/// Relies on rand::rngs::StdRng being an ordinary value: the library
/// carries it through opaquely and draws from it only via the wrappers.
#[verifier::external_type_specification]
#[verifier::external_body]
pub struct ExStdRng(rand::rngs::StdRng);

/// Relies on rand::RngExt::random_range over `0..n`: the result is a
/// uniformly random value of that non-empty range, so it is below `n`.
#[verifier::external_body]
pub fn rng_below(rng: &mut rand::rngs::StdRng, n: u64) -> (r: u64)
    requires
        n > 0,
    ensures
        r < n,
{
    rand::RngExt::random_range(rng, 0..n)
}

/// Relies on rand::seq::SliceRandom::shuffle: it permutes the slice in
/// place, so the multiset of elements is unchanged.
#[verifier::external_body]
pub fn shuffle_cards(cards: &mut Vec<Card>, rng: &mut rand::rngs::StdRng)
    ensures
        final(cards)@.to_multiset() == old(cards)@.to_multiset(),
{
    rand::seq::SliceRandom::shuffle(cards.as_mut_slice(), rng)
}

/// Picks a uniformly random element of a non-empty vector.
pub fn random_from_set<'a, T>(items: &'a Vec<T>, rng: &mut rand::rngs::StdRng) -> (r: &'a T)
    requires
        items@.len() > 0,
    ensures
        exists|i: int| 0 <= i < items@.len() && *r == items@[i],
{
    let n = items.len();
    let i = rng_below(rng, n as u64) as usize;
    &items[i]
}

} // verus!
