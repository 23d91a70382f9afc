//! Trusted boundary around the `rand` crate, used to pick random cells.
//!
//! The only fact the library relies on is that shuffling a vector permutes
//! it in place: the multiset of elements is unchanged. Which order comes
//! out is chance, so nothing more is promised, and everything built on the
//! shuffled order is verified for every permutation.

use vstd::prelude::*;
use rand::rngs::ThreadRng;
use rand::seq::SliceRandom;

verus! {

#[verifier::external_type_specification]
#[verifier::external_body]
pub struct ExThreadRng(ThreadRng);

/// Relies on `rand::thread_rng`: a handle to the thread-local random
/// number generator. Nothing can be promised of the numbers it produces.
#[verifier::external_body]
pub(crate) fn fresh_rng() -> ThreadRng {
    rand::thread_rng()
}

/// Relies on `SliceRandom::shuffle` (rand): a Fisher-Yates walk of swaps
/// that permutes the vector in place, so the result holds exactly the old
/// elements. The order is chance and nothing is promised of it.
#[verifier::external_body]
pub(crate) fn shuffle_indices(v: &mut Vec<usize>, rng: &mut ThreadRng)
    ensures
        final(v)@.len() == old(v)@.len(),
        final(v)@.to_multiset() == old(v)@.to_multiset(),
{
    v.shuffle(rng);
}

} // verus!
