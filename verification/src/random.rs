//! Chance: the two places where the thread's random generator is asked.
//! Nothing is proved of these functions; their contracts state what holds
//! of every outcome.

use vstd::prelude::*;
use rand::seq::SliceRandom;
use rand::Rng;

verus! {

/// A number below `bound`, drawn by `rand::Rng::gen_range(0, bound)` from
/// `rand::thread_rng()`. The generator returns its lower bound plus a number
/// below the width of the range, so the result is below `bound`; it panics
/// on an empty range, which `bound > 0` rules out. Nothing else is claimed
/// of the number drawn.
#[verifier::external_body]
pub(crate) fn random_below(bound: usize) -> (drawn: usize)
    requires
        bound > 0,
    ensures
        drawn < bound,
{
    rand::thread_rng().gen_range(0, bound)
}

/// Reorders `digits` by `rand::seq::SliceRandom::shuffle` with
/// `rand::thread_rng()`. The shuffle only swaps elements of the slice, so
/// the digits afterwards are the digits before, each as often as before;
/// nothing is claimed of their order.
#[verifier::external_body]
pub(crate) fn shuffle(digits: &mut Vec<u8>)
    ensures
        final(digits)@.to_multiset() == old(digits)@.to_multiset(),
{
    digits.shuffle(&mut rand::thread_rng());
}

} // verus!
