//! The random choices of the simulation, drawn from the `rand` crate.
//!
//! Nothing is known of a random outcome but what holds of every outcome: a
//! shuffle is a permutation, a number drawn from an inclusive range lies in it.

use rand::rngs::ThreadRng;
use rand::seq::SliceRandom;
use rand::Rng;
use vstd::prelude::*;

verus! {

/// The thread-local random generator of `rand`.
#[verifier::external_type_specification]
#[verifier::external_body]
pub struct ExThreadRng(ThreadRng);

/// Calls `rand`'s `SliceRandom::shuffle` on the vector. That method swaps
/// elements of the slice in place (Fisher-Yates), so the result is a
/// permutation of the input: the same elements, each as often. Which
/// permutation comes out is left unsaid: it is drawn at random.
#[verifier::external_body]
pub(crate) fn shuffle<T>(v: &mut Vec<T>, rng: &mut ThreadRng)
    ensures
        final(v)@.len() == old(v)@.len(),
        final(v)@.to_multiset() == old(v)@.to_multiset(),
{
    v.as_mut_slice().shuffle(rng);
}

/// Calls `rand`'s `Rng::gen_range` on the inclusive range `lo..=hi`, which
/// panics on an empty range (hence `lo <= hi`) and otherwise returns a value
/// of that range. Which value is left unsaid: it is drawn at random.
#[verifier::external_body]
pub(crate) fn gen_range_inclusive(rng: &mut ThreadRng, lo: u32, hi: u32) -> (r: u32)
    requires
        lo <= hi,
    ensures
        lo <= r <= hi,
{
    rng.gen_range(lo..=hi)
}

} // verus!
