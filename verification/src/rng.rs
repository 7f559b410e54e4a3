//! Random draws that the library makes itself, on the simulation's seeded generator.
use rand::seq::SliceRandom;
use rand::Rng;
use rand_chacha::ChaCha8Rng;
use vstd::prelude::*;

verus! {

/// The simulation's random number generator (`rand_chacha::ChaCha8Rng`).
#[verifier::external_type_specification]
#[verifier::external_body]
pub struct ExChaCha8Rng(ChaCha8Rng);

/// `rand::seq::SliceRandom::shuffle` on the elements of `v`.
/// Claimed: the result holds the same elements, each as often as before (a permutation);
/// which permutation depends on the generator state and is left unsaid.
#[verifier::external_body]
pub fn shuffle<T>(rng: &mut ChaCha8Rng, v: &mut Vec<T>)
    ensures
        final(v)@.len() == old(v)@.len(),
        final(v)@.to_multiset() == old(v)@.to_multiset(),
{
    v.shuffle(rng);
}

/// `rand::Rng::gen_range(0..bound)` for `u128`.
/// Claimed: the value lies in `0..bound` (it panics on an empty range, hence the requirement);
/// which value depends on the generator state and is left unsaid.
#[verifier::external_body]
pub fn gen_below_u128(rng: &mut ChaCha8Rng, bound: u128) -> (r: u128)
    requires
        bound > 0,
    ensures
        r < bound,
{
    rng.gen_range(0..bound)
}

} // verus!
