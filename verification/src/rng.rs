//! Randomness, confined to two thin wrappers around the `rand` crate.

use vstd::prelude::*;

verus! {

/// Relies on rand's `Rng::gen_range` over `0..bound`: a uniform draw from a
/// non-empty integer range yields a value inside it.
#[verifier::external_body]
pub fn random_below(bound: u64) -> (r: u64)
    requires
        bound > 0,
    ensures
        r < bound,
{
    rand::Rng::gen_range(&mut rand::thread_rng(), 0..bound)
}

/// Relies on rand's `SliceRandom::shuffle`: a Fisher-Yates pass permutes the
/// slice in place, so the elements afterwards are the same collection.
#[verifier::external_body]
pub fn shuffle<T>(items: &mut Vec<T>)
    ensures
        final(items)@.to_multiset() == old(items)@.to_multiset(),
{
    rand::seq::SliceRandom::shuffle(items.as_mut_slice(), &mut rand::thread_rng())
}

} // verus!
