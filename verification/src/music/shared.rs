//! The clocks and operations of shared lanes, as their authors write them.
use vstd::prelude::*;

verus! {

/// `{ slots = n }`: a period in sixteenth-note slots.
#[derive(Clone, Copy, Debug, PartialEq, Eq, Structural)]
pub struct Slots {
    pub slots: u32,
}

#[derive(Clone, Copy, Debug, PartialEq, Eq, Structural)]
pub enum Carry {
    Always,
}

/// `{ bars = n }`: a period in bars.
#[derive(Clone, Copy, Debug, PartialEq, Eq, Structural)]
pub struct Bars {
    pub bars: u32,
}

/// How a follower reads a lane's value.
#[derive(Clone, Copy, Debug, PartialEq, Eq, Structural)]
pub enum Operation {
    Direct,
    Range,
    ScaleDefault,
}

/// Ticks in one slot period of `s`.
pub fn slot_ticks(s: Slots) -> (r: u64)
    ensures
        r == s.slots as nat * 240,
{
    (s.slots as u64) * super::STEP_TICKS
}

/// Ticks in one bar period of `b`.
pub fn bar_ticks(b: Bars) -> (r: u64)
    ensures
        r == b.bars as nat * 3840,
{
    (b.bars as u64) * 4 * super::PPQN
}

} // verus!
