//! The one randomized step of the game, behind a trusted wrapper.

use vstd::prelude::*;
use rand::seq::SliceRandom;

verus! {

/// Relies on rand's `SliceRandom::shuffle` (with `rand::thread_rng` as the
/// source): an in-place Fisher-Yates pass that only swaps elements of the
/// slice, so its length and the multiset of its elements are unchanged.
#[verifier::external_body]
pub(crate) fn shuffle_positions(v: &mut Vec<u32>)
    ensures
        final(v)@.len() == old(v)@.len(),
        final(v)@.to_multiset() == old(v)@.to_multiset(),
{
    v.shuffle(&mut rand::thread_rng());
}

} // verus!
