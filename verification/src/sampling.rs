//! Random choices for the benchmarks, drawn with the `rand` crate.

use vstd::prelude::*;
use rand::rngs::{SmallRng, ThreadRng};
use rand::seq::{IndexedRandom, SliceRandom};
use rand::{RngExt, SeedableRng};

verus! {

#[verifier::external_type_specification]
#[verifier::external_body]
pub struct ExThreadRng(ThreadRng);

#[verifier::external_type_specification]
#[verifier::external_body]
pub struct ExSmallRng(SmallRng);

/// The thread-local generator, `rand::rng()`. Nothing is claimed of it; it
/// panics only if the operating system's entropy source fails when it is
/// first seeded.
#[verifier::external_body]
pub(crate) fn thread_rng() -> ThreadRng {
    rand::rng()
}

/// A small fast generator seeded from `seed`, `SmallRng::seed_from_u64`.
/// Nothing is claimed of its state.
#[verifier::external_body]
pub(crate) fn small_rng(seed: u64) -> SmallRng {
    SmallRng::seed_from_u64(seed)
}

/// Shuffles with `SliceRandom::shuffle`. The contract claims that the result
/// holds the same elements; which order comes out is left open.
#[verifier::external_body]
pub(crate) fn shuffle(rng: &mut ThreadRng, v: &mut Vec<u128>)
    ensures
        final(v)@.len() == old(v)@.len(),
        final(v)@.to_multiset() == old(v)@.to_multiset(),
{
    v.shuffle(rng)
}

/// Draws `amount` elements of `keys` at distinct positions with
/// `IndexedRandom::sample` (all of them when `amount` exceeds the length).
/// The contract claims the number drawn and that they are drawn from `keys`
/// without repetition; which ones, and in which order, is left open.
#[verifier::external_body]
pub(crate) fn sample(rng: &mut ThreadRng, keys: &Vec<u128>, amount: usize) -> (r: Vec<u128>)
    ensures
        r@.len() == if amount < keys@.len() {
            amount as int
        } else {
            keys@.len() as int
        },
        r@.to_multiset().subset_of(keys@.to_multiset()),
{
    keys.sample(rng, amount).cloned().collect()
}

/// A position in `0 .. len`, drawn with `RngExt::random_range`.
#[verifier::external_body]
pub(crate) fn random_index(rng: &mut SmallRng, len: usize) -> (r: usize)
    requires
        len > 0,
    ensures
        r < len,
{
    rng.random_range(0..len)
}

/// `true` with probability `numerator / denominator`, drawn with
/// `RngExt::random_ratio`: always `true` when the two are equal, always
/// `false` when the numerator is zero.
#[verifier::external_body]
pub(crate) fn random_ratio(rng: &mut SmallRng, numerator: u32, denominator: u32) -> (r: bool)
    requires
        0 < denominator,
        numerator <= denominator,
    ensures
        numerator == denominator ==> r,
        numerator == 0 ==> !r,
{
    rng.random_ratio(numerator, denominator)
}

} // verus!
