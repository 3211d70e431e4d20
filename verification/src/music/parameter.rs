//! The curves an automation segment can take between its points.
use vstd::prelude::*;

verus! {

#[derive(Clone, Copy, Debug, Default, PartialEq, Eq, Structural)]
pub enum Curve {
    #[default]
    Linear,
    Smooth,
    Hold,
}

/// The authored default first bar of a lane: bars count from one.
pub fn first_bar() -> (r: u32)
    ensures
        r == 1,
{
    1
}

} // verus!
