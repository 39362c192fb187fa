//! Weighted random goal generation.
//!
//! A goal count for one side of a match is drawn from a fixed discrete
//! distribution over 0 through 7 goals, with separate weights for the home
//! and the away side. The weights are constants derived from historical
//! home/away scoring-frequency data across English league play, expressed in
//! tenths of a percent so that they sum to 1000: a uniform draw below 1000
//! is mapped through the cumulative weights to a goal count.
//!
//! Entropy comes either from the process random source or from a seeded
//! deterministic generator, so that simulations can be reproduced exactly
//! under a fixed seed.

use rand::Rng;
use vstd::prelude::*;

verus! {

/// Home-side goal count for a uniform draw below 1000, read off the
/// cumulative home weights 188, 303, 248, 143, 70, 31, 12, 5.
pub open spec fn spec_home_goals(d: int) -> int {
    if d < 188 {
        0
    } else if d < 491 {
        1
    } else if d < 739 {
        2
    } else if d < 882 {
        3
    } else if d < 952 {
        4
    } else if d < 983 {
        5
    } else if d < 995 {
        6
    } else {
        7
    }
}

/// Away-side goal count for a uniform draw below 1000, read off the
/// cumulative away weights 338, 362, 193, 74, 23, 7, 2, 1.
pub open spec fn spec_away_goals(d: int) -> int {
    if d < 338 {
        0
    } else if d < 700 {
        1
    } else if d < 893 {
        2
    } else if d < 967 {
        3
    } else if d < 990 {
        4
    } else if d < 997 {
        5
    } else if d < 999 {
        6
    } else {
        7
    }
}

/// Map a uniform draw to a home-side goal count.
pub fn home_goals_of(d: u32) -> (g: i32)
    requires
        d < 1000,
    ensures
        g == spec_home_goals(d as int),
        0 <= g <= 7,
{
    if d < 188 {
        0
    } else if d < 491 {
        1
    } else if d < 739 {
        2
    } else if d < 882 {
        3
    } else if d < 952 {
        4
    } else if d < 983 {
        5
    } else if d < 995 {
        6
    } else {
        7
    }
}

/// Map a uniform draw to an away-side goal count.
pub fn away_goals_of(d: u32) -> (g: i32)
    requires
        d < 1000,
    ensures
        g == spec_away_goals(d as int),
        0 <= g <= 7,
{
    if d < 338 {
        0
    } else if d < 700 {
        1
    } else if d < 893 {
        2
    } else if d < 967 {
        3
    } else if d < 990 {
        4
    } else if d < 997 {
        5
    } else if d < 999 {
        6
    } else {
        7
    }
}

/// Relies on rand::Rng::random_range over the range 0..1000, which returns
/// a value of that range and panics only on an empty range: the draw is
/// below 1000. Nothing more can be promised of a random value.
#[verifier::external_body]
fn random_draw() -> (r: u32)
    ensures
        r < 1000,
{
    rand::rng().random_range(0..1000u32)
}

/// Draw a home-side goal count from the process random source.
pub fn sample_home_goals() -> (g: i32)
    ensures
        exists|d: int| 0 <= d < 1000 && g == spec_home_goals(d),
        0 <= g <= 7,
{
    let d = random_draw();
    home_goals_of(d)
}

/// Draw an away-side goal count from the process random source.
pub fn sample_away_goals() -> (g: i32)
    ensures
        exists|d: int| 0 <= d < 1000 && g == spec_away_goals(d),
        0 <= g <= 7,
{
    let d = random_draw();
    away_goals_of(d)
}

pub const LCG_MUL: u64 = 6364136223846793005;

pub const LCG_INC: u64 = 1442695040888963407;

/// The generator state that follows `s`: a linear congruential step
/// modulo 2^64.
pub open spec fn spec_lcg_next(s: u64) -> u64 {
    ((s * LCG_MUL + LCG_INC) % 0x1_0000_0000_0000_0000) as u64
}

/// The uniform draw below 1000 read from state `s`: bits 32 and up of the
/// state, reduced modulo 1000.
pub open spec fn spec_lcg_draw(s: u64) -> u32 {
    (((s as int) / 0x1_0000_0000) % 1000) as u32
}

/// A deterministic random source: a 64-bit linear congruential generator.
/// Two sources started from the same seed yield the same draws, which makes
/// every simulation run on them exactly reproducible.
#[derive(Debug, Clone, Copy, PartialEq, Eq, Structural)]
pub struct SeededRng {
    pub state: u64,
}

impl SeededRng {
    /// Start a deterministic source from a seed.
    pub fn new(seed: u64) -> (r: SeededRng)
        ensures
            r.state == seed,
    {
        SeededRng { state: seed }
    }

    /// Advance the generator one step and read a uniform draw below 1000.
    pub fn next_draw(&mut self) -> (d: u32)
        ensures
            final(self).state == spec_lcg_next(old(self).state),
            d == spec_lcg_draw(final(self).state),
            d < 1000,
    {
        proof {
            assert((self.state as int) * (LCG_MUL as int) + (LCG_INC as int)
                < 0x1_0000_0000_0000_0000_0000_0000_0000_0000) by (nonlinear_arith)
                requires
                    self.state <= 0xffff_ffff_ffff_ffffu64,
            ;
        }
        let wide: u128 = (self.state as u128) * (LCG_MUL as u128) + (LCG_INC as u128);
        let next: u64 = (wide % 0x1_0000_0000_0000_0000u128) as u64;
        self.state = next;
        ((next / 0x1_0000_0000) % 1000) as u32
    }
}

} // verus!
