//! The seeded random source of a simulation.

use rand::rngs::StdRng;
use rand::Rng as RandRng;
use rand::SeedableRng;
use vstd::prelude::*;

verus! {

/// Number of equal steps into which the unit interval is divided: a draw
/// `u` of `gen_real` stands for the real number `u / RESOLUTION`.
pub const RESOLUTION: u64 = 0x10_0000_0000_0000;

/// The generator `StdRng` of `rand`, whose state is not looked into.
#[verifier::external_type_specification]
#[verifier::external_body]
pub struct ExStdRng(rand::rngs::StdRng);

/// Calls `SeedableRng::from_seed` of `rand` for its `StdRng`. Nothing is
/// claimed of the generator that comes back.
#[verifier::external_body]
fn seeded(seed: [u8; 32]) -> (rng: StdRng) {
    StdRng::from_seed(seed)
}

/// Calls `Rng::gen_range` of `rand` for a `usize` between `0` and `high`.
/// The value drawn is below `high`; which value it is, is not claimed. The
/// call panics on an empty range, hence the `requires`.
#[verifier::external_body]
fn draw_below(rng: &mut StdRng, high: usize) -> (value: usize)
    requires
        0 < high,
    ensures
        value < high,
{
    rng.gen_range(0usize, high)
}

/// Calls `Rng::gen_range` of `rand` for an `i32` between `0` and `high`. The
/// value drawn is not negative and below `high`; which value it is, is not
/// claimed. The call panics on an empty range, hence the `requires`.
#[verifier::external_body]
fn draw_small(rng: &mut StdRng, high: i32) -> (value: i32)
    requires
        0 < high,
    ensures
        0 <= value < high,
{
    rng.gen_range(0i32, high)
}

/// Calls `Rng::gen` of `rand` for a `u64`. Nothing is claimed of the word
/// that comes back.
#[verifier::external_body]
fn draw_word(rng: &mut StdRng) -> (word: u64) {
    rng.gen::<u64>()
}

/// A pseudo-random generator that is fixed by its seed.
pub struct Rng {
    rng: StdRng,
}

impl Rng {
    /// The generator that `seed` fixes.
    pub fn from_seed(seed: [u8; 32]) -> (rng: Rng) {
        Rng { rng: seeded(seed) }
    }

    /// A site index of a lattice of `sites` sites, each equally likely.
    pub fn gen_index(&mut self, sites: usize) -> (idx: usize)
        requires
            0 < sites,
        ensures
            idx < sites,
    {
        draw_below(&mut self.rng, sites)
    }

    /// A spin, `-1` or `1` with equal chance.
    pub fn gen_spin(&mut self) -> (spin: i32)
        ensures
            spin == -1 || spin == 1,
    {
        let drawn: i32 = draw_small(&mut self.rng, 2);
        spin_from_draw(drawn)
    }

    /// A real number of the unit interval, one excluded, as a number of
    /// steps of `1 / RESOLUTION`: the draw `steps` stands for the real
    /// number `steps / RESOLUTION`.
    ///
    /// The Metropolis rule compares the draw with the chance of a flip,
    /// which `Acceptance` holds in the same steps. The draw is the upper 52
    /// bits of one word of the generator.
    pub fn gen_real(&mut self) -> (steps: u64)
        ensures
            steps < RESOLUTION,
    {
        let word: u64 = draw_word(&mut self.rng);
        let steps: u64 = word >> 12;
        assert(steps < 0x10_0000_0000_0000u64) by (bit_vector)
            requires
                steps == word >> 12,
        ;
        steps
    }
}

/// The spin that a draw from two equally likely values stands for: down for
/// the first value, up for the other.
pub open spec fn spin_of(drawn: i32) -> int {
    if drawn == 0 {
        -1
    } else {
        1
    }
}

/// Turns a draw from two equally likely values into a spin.
pub fn spin_from_draw(drawn: i32) -> (spin: i32)
    ensures
        spin == spin_of(drawn),
{
    if drawn == 0 {
        -1
    } else {
        1
    }
}

} // verus!
