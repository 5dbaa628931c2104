//! Trusted boundary to the `rand` crate: the values of a seed-driven
//! generator, named so that seeded deals are provably deterministic, and
//! a thread-local source for fresh seeds and randomized action
//! translation.
use vstd::prelude::*;

verus! {

/// The value that the generator seeded with `seed` yields at draw index
/// `i` when asked for a number below `n`. A seeded `StdRng` is a pure
/// function of its seed and the draws taken, so this is a function of
/// the three arguments alone, the same in every process.
pub uninterp spec fn draw_of(seed: u64, i: int, n: u32) -> u32;

/// Relies on rand's `StdRng` being a deterministic function of its seed:
/// re-seeds with `seed_from_u64`, discards `i` draws, and takes the next
/// value with `Rng::gen_range`, which returns inside the non-empty range
/// `0..n` and panics only on an empty one.
#[verifier::external_body]
pub(crate) fn seeded_draw(seed: u64, i: usize, n: u32) -> (r: u32)
    requires
        n > 0,
    ensures
        r < n,
        r == draw_of(seed, i as int, n),
{
    let mut rng = <rand::rngs::StdRng as rand::SeedableRng>::seed_from_u64(seed);
    let mut skip: usize = 0;
    while skip < i {
        rand::RngCore::next_u32(&mut rng);
        skip += 1;
    }
    rand::Rng::gen_range(&mut rng, 0..n)
}

/// Relies on rand's `thread_rng` and `RngCore::next_u64`: draws one fresh
/// seed from the thread-local generator. Nothing can be promised of the
/// value.
#[verifier::external_body]
pub(crate) fn fresh_random_seed() -> u64 {
    rand::RngCore::next_u64(&mut rand::thread_rng())
}

/// Relies on rand's `thread_rng` and `RngCore::next_u32`: draws one number
/// from the thread-local generator. Nothing can be promised of the value.
#[verifier::external_body]
pub(crate) fn random_u32() -> u32 {
    rand::RngCore::next_u32(&mut rand::thread_rng())
}

} // verus!
