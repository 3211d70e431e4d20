//! The musical model: time, notation, rhythm expressions and the clocks built on them.
use vstd::prelude::*;

pub mod arrangement;
pub mod composition;
pub mod cycle;
pub mod dependency;
pub mod groove;
pub mod members;
pub mod notation;
pub mod ornament;
pub mod parameter;
pub mod pins;
pub mod pitch;
pub mod process;
pub mod ratio;
pub mod resolve;
pub mod rhythm;
pub mod router;
pub mod routing;
pub mod shared;
pub mod time;
pub mod velocity;

verus! {

/// The most Parts one composition may hold.
pub const MAX_PARTS: usize = 32;
/// Ticks per quarter note.
pub const PPQN: u64 = 960;
/// Ticks per sixteenth, the step this engine evaluates.
pub const STEP_TICKS: u64 = 240;

/// How a probability draw is addressed: locked to the phrase position, or continuous.
#[derive(Clone, Copy, Debug, Default, PartialEq, Eq, Structural)]
pub enum ProbabilityMode {
    #[default]
    PhraseLocked,
    Continuous,
}

/// Where a Part's notes go.
#[derive(Clone, Copy, Debug, PartialEq, Eq, Structural)]
pub struct Output {
    /// One-based MIDI channel.
    pub channel: u8,
    pub note: u8,
    pub gate_ticks: u64,
}

/// A Part's velocities: the base, and what an accent adds at full amount.
#[derive(Clone, Copy, Debug, PartialEq, Eq, Structural)]
pub struct VelocityProfile {
    pub base: u8,
    pub boost: u8,
}

impl Default for VelocityProfile {
    fn default() -> (r: VelocityProfile)
        ensures
            r == (VelocityProfile { base: 80, boost: 35 }),
    {
        VelocityProfile { base: velocity(), boost: boost() }
    }
}

/// The authored default phrase length, in bars.
pub fn four() -> (r: u32)
    ensures
        r == 4,
{
    4
}

/// The authored default MIDI channel: the drum channel.
pub fn channel() -> (r: u8)
    ensures
        r == 10,
{
    10
}

/// The authored default gate, in ticks: an eighth of a beat.
pub fn gate() -> (r: u64)
    ensures
        r == 120,
{
    120
}

/// The authored default base velocity.
pub fn velocity() -> (r: u8)
    ensures
        r == 80,
{
    80
}

/// The authored default accent boost.
pub fn boost() -> (r: u8)
    ensures
        r == 35,
{
    35
}

/// Steps in a phrase of `phrase_bars` bars.
pub fn phrase_steps(phrase_bars: u32) -> (r: u64)
    ensures
        r == phrase_bars as nat * 16,
{
    (phrase_bars as u64) * 16
}

} // verus!
