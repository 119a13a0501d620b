//! Chance: the two places where the game asks for a random outcome.

use rand::seq::SliceRandom;
use rand::Rng;
use vstd::prelude::*;

verus! {

/// Puts the items into a random order, by `shuffle` of rand's `SliceRandom`
/// with the generator of the thread. The order is left open: what is claimed
/// is that the items are the same ones, each as often as before.
#[verifier::external_body]
pub(crate) fn shuffle<T>(items: &mut Vec<T>)
    ensures
        final(items)@.to_multiset() == old(items)@.to_multiset(),
{
    let mut rng = rand::thread_rng();
    items.shuffle(&mut rng);
}

/// A random number from `low` up to, but not including, `high`, by
/// `gen_range` of rand's `Rng` with the generator of the thread. Which number
/// is left open: what is claimed is the range.
#[verifier::external_body]
pub(crate) fn random_in_range(low: usize, high: usize) -> (number: usize)
    requires
        low < high,
    ensures
        low <= number < high,
{
    let mut rng = rand::thread_rng();
    rng.gen_range(low, high)
}

} // verus!
