//! The shape of a run of consecutive hits, for event interpretation after trigger decisions.
use vstd::prelude::*;

verus! {

#[derive(Clone, Copy, Debug, Default, PartialEq, Eq, Structural)]
pub enum RunContour {
    #[default]
    Flat,
    RampUp,
    LowHighLow,
}

} // verus!
