//! Why an ornament emitted fewer notes than it admitted.
use vstd::prelude::*;

verus! {

#[derive(Clone, Copy, Debug, PartialEq, Eq, Structural)]
pub enum SuppressionReason {
    Probability,
    LowerBound,
    UpperBound,
}

/// Whether a flag is unset: a trace leaves such a field out.
pub fn is_false(v: &bool) -> (r: bool)
    ensures
        r == !*v,
{
    !*v
}

} // verus!
