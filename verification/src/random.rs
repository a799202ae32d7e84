//! The source of chance. Everything that is drawn at random in this crate is an
//! integer below a bound, drawn from a seeded generator that its user owns.

use vstd::prelude::*;
use rand::Rng;
use rand::SeedableRng;
use rand::rngs::StdRng;
use crate::fixed::SCALE;

verus! {

/// `rand::rngs::StdRng`, the generator, carried about as a value of which
/// nothing is known.
#[verifier::external_type_specification]
#[verifier::external_body]
pub struct ExStdRng(StdRng);

/// `<StdRng as Clone>::clone`, of which nothing is claimed: the copy is a
/// generator.
pub assume_specification[ <StdRng as Clone>::clone ](rng: &StdRng) -> StdRng;

/// `StdRng::seed_from_u64`: a generator whose stream is fixed by the seed.
/// Nothing is claimed of the stream.
#[verifier::external_body]
fn seeded(seed: u64) -> StdRng {
    StdRng::seed_from_u64(seed)
}

/// `Rng::random_range` on the half-open range from zero to `bound`: the value
/// drawn lies in the range, which must not be empty. Nothing is claimed of its
/// distribution.
#[verifier::external_body]
fn draw_below(rng: &mut StdRng, bound: u64) -> (r: u64)
    requires
        bound > 0,
    ensures
        r < bound,
{
    rng.random_range(0..bound)
}

/// A seeded random source.
#[derive(Debug, Clone)]
pub struct RandomSource {
    rng: StdRng,
}

impl RandomSource {
    /// The source whose draws are fixed by `seed`.
    pub fn new(seed: u64) -> RandomSource {
        RandomSource { rng: seeded(seed) }
    }

    /// An index below `bound`.
    pub fn index_below(&mut self, bound: usize) -> (r: usize)
        requires
            bound > 0,
        ensures
            r < bound,
    {
        let drawn: u64 = draw_below(&mut self.rng, bound as u64);
        drawn as usize
    }

    /// A point of the unit interval, in millionths: at least zero and less than
    /// one.
    pub fn fraction(&mut self) -> (r: i64)
        ensures
            0 <= r < SCALE,
    {
        let drawn: u64 = draw_below(&mut self.rng, SCALE as u64);
        drawn as i64
    }

    /// Heads or tails.
    pub fn coin(&mut self) -> bool {
        draw_below(&mut self.rng, 2) == 0
    }
}

/// Whether an event of probability `probability` happens at the point `draw` of
/// the unit interval: it does on the first `probability` millionths, so always
/// for probability one and never for probability zero.
pub fn happens(probability: i64, draw: i64) -> (b: bool)
    ensures
        b == (draw < probability),
{
    draw < probability
}

} // verus!
