//! Seeded random data for the kernels' own checks.
use rand::rngs::SmallRng;
use rand::seq::SliceRandom;
use rand::{Rng, SeedableRng};
use vstd::prelude::*;

verus! {

/// The small generator of the `rand` crate. Nothing is known of its state.
#[verifier::external_type_specification]
#[verifier::external_body]
pub struct ExSmallRng(rand::rngs::SmallRng);

/// Calls `SeedableRng::seed_from_u64`: a generator whose numbers follow from the
/// seed. Which numbers these are depends on the machine, so nothing is claimed
/// of them.
#[verifier::external_body]
pub(crate) fn seeded(seed: u64) -> (rng: SmallRng) {
    SmallRng::seed_from_u64(seed)
}

/// Calls `Rng::gen_range` on a half-open range from zero: the number lies in the
/// range. Which one it is is left to chance.
#[verifier::external_body]
pub(crate) fn below(rng: &mut SmallRng, n: u64) -> (r: u64)
    requires
        n > 0,
    ensures
        r < n,
{
    rng.gen_range(0..n)
}

/// Calls `Rng::gen` for a 64-bit number, of which nothing is known.
#[verifier::external_body]
pub(crate) fn word(rng: &mut SmallRng) -> (r: u64) {
    rng.gen()
}

/// Calls `SliceRandom::shuffle`: the items stay the same, in an order that is left
/// to chance.
#[verifier::external_body]
pub(crate) fn shuffle(rng: &mut SmallRng, v: &mut Vec<u32>)
    ensures
        final(v)@.to_multiset() == old(v)@.to_multiset(),
{
    v.shuffle(rng)
}

/// A number between two bounds, the upper one left out.
pub(crate) fn between(rng: &mut SmallRng, lo: i64, hi: i64) -> (r: i64)
    requires
        lo < hi,
        hi - lo <= i64::MAX,
    ensures
        lo <= r < hi,
{
    let width: u64 = (hi - lo) as u64;
    lo + below(rng, width) as i64
}

} // verus!
