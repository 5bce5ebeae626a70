use rand::rngs::ThreadRng;
use rand::seq::SliceRandom;
use rand::Rng;
use vstd::prelude::*;

use crate::card::Card;
use crate::combat::{Attack, Unit};

verus! {

/// `rand`'s thread-local random number generator.
#[verifier::external_type_specification]
#[verifier::external_body]
pub struct ExThreadRng(ThreadRng);

/// A handle on the thread-local generator, from `rand::thread_rng`. Nothing is stated of
/// its state.
#[verifier::external_body]
pub(crate) fn thread_rng() -> ThreadRng {
    rand::thread_rng()
}

/// Shuffles the cards in place with `rand`'s `SliceRandom::shuffle`. That shuffle only
/// swaps elements of the slice, so the result holds the same cards, each as often as
/// before; which order comes out is left open.
#[verifier::external_body]
pub(crate) fn shuffle_cards(cards: &mut Vec<Card>, rng: &mut ThreadRng)
    ensures
        final(cards)@.to_multiset() == old(cards)@.to_multiset(),
        final(cards)@.len() == old(cards)@.len(),
{
    cards.shuffle(rng)
}

/// A number drawn by `rand`'s `Rng::gen_range` over the inclusive range `low..=high`.
/// `gen_range` panics on an empty range, hence the `requires`; which number of the range
/// comes out is left open.
#[verifier::external_body]
pub(crate) fn random_in_range(rng: &mut ThreadRng, low: i32, high: i32) -> (n: i32)
    requires
        low <= high,
    ensures
        low <= n <= high,
{
    rng.gen_range(low..=high)
}

/// A random encounter of the pool, picked by `rand`'s `SliceRandom::choose`: `None` for an
/// empty pool, else a reference to one of its encounters. Which one comes out is left open.
#[verifier::external_body]
pub(crate) fn choose_encounter_in<'a>(pool: &'a Vec<Vec<(Unit, Attack)>>, rng: &mut ThreadRng) -> (chosen: Option<
    &'a Vec<(Unit, Attack)>,
>)
    ensures
        chosen is None <==> pool@.len() == 0,
        chosen matches Some(e) ==> exists|k: int| 0 <= k < pool@.len() && *e == #[trigger] pool@[k],
{
    pool.choose(rng)
}

} // verus!
