//! The random source that every random choice of the library draws from.
//!
//! The source is seeded explicitly, so that a puzzle can be built again from
//! the same seed, and handed by `&mut` to each function that draws.

use rand::rngs::StdRng;
use rand::Rng;
use rand::SeedableRng;
use vstd::prelude::*;

verus! {

/// Trusted: the type `rand::rngs::StdRng`, the generator behind a
/// `RandomSource`. It is carried through as it is: nothing is known of what
/// it holds.
#[verifier::external_type_specification]
#[verifier::external_body]
pub struct ExStdRng(rand::rngs::StdRng);

/// A seeded stream of random numbers.
pub struct RandomSource {
    generator: StdRng,
}

impl RandomSource {
    /// A source that yields the stream of draws that belongs to `seed`.
    pub fn from_seed(seed: u64) -> (source: RandomSource) {
        RandomSource { generator: seeded_generator(seed) }
    }

    /// Draws a number from `low..high`.
    ///
    /// Nothing but the range is known of the number: each call may give
    /// another one.
    pub fn next_in_range(&mut self, low: u32, high: u32) -> (drawn: u32)
        requires
            low < high,
        ensures
            low <= drawn < high,
    {
        sample_range(&mut self.generator, low, high)
    }
}

/// Trusted: `rand::SeedableRng::seed_from_u64` for `rand::rngs::StdRng`.
/// It expands the seed and never panics; nothing is claimed of the
/// generator it returns.
#[verifier::external_body]
fn seeded_generator(seed: u64) -> (generator: StdRng) {
    StdRng::seed_from_u64(seed)
}

/// Trusted: `rand::Rng::gen_range` on a half-open range of `u32`.
/// `gen_range` panics on an empty range, which `requires` excludes; the
/// value it returns lies in the range.
#[verifier::external_body]
fn sample_range(generator: &mut StdRng, low: u32, high: u32) -> (drawn: u32)
    requires
        low < high,
    ensures
        low <= drawn < high,
{
    generator.gen_range(low..high)
}

} // verus!
