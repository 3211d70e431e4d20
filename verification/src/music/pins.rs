//! Authored pins on the retained swap evaluator's draws, and what a pinned run reports.
use vstd::prelude::*;

use super::process::MutationDecision;

verus! {

#[derive(Clone, Copy, Debug, PartialEq, Eq, Structural)]
pub enum MutationRoll {
    Mutate,
}

/// Where a mutation pin lands: the roll, the pattern, and the zero-based opportunity,
/// counting suspended and refused opportunities.
#[derive(Clone, Debug, PartialEq, Eq)]
pub struct MutationPinAt {
    pub roll: MutationRoll,
    pub pattern: String,
    pub tick: u64,
}

/// A forced decision at one opportunity.
#[derive(Clone, Debug, PartialEq, Eq)]
pub struct MutationPin {
    pub at: MutationPinAt,
    pub admission: Option<bool>,
    pub rest_index: Option<usize>,
    pub hit_index: Option<usize>,
}

/// A lint, not a rejection: selection draws can still land at chance one.
#[derive(Clone, Copy, Debug, PartialEq, Eq, Structural)]
pub struct SelectionUnderFalse {
    pub admission_pin: usize,
    pub selection_pin: usize,
    pub tick: u64,
}

/// A requested field at one opportunity, including fields skipped by suspension or refusal.
#[derive(Clone, Copy, Debug, PartialEq, Eq, Structural)]
pub struct PinLanding {
    /// Index in the authored mutation-pin list.
    pub pin: usize,
    pub decision: MutationDecision,
    pub drawn: bool,
    /// True only when a consulted boolean disagrees with admission at chance zero or one.
    pub endpoint_mismatch: bool,
}

/// The decisions a pin forces, in draw order: admission, then the rest and hit indices.
pub fn pinned_decisions(pin: &MutationPin) -> (r: Vec<MutationDecision>)
    ensures
        r@ == (if pin.admission is Some { seq![MutationDecision::Admit] } else { Seq::empty() })
            + (if pin.rest_index is Some { seq![MutationDecision::RestIndex] } else { Seq::empty() })
            + (if pin.hit_index is Some { seq![MutationDecision::HitIndex] } else { Seq::empty() }),
{
    let mut r: Vec<MutationDecision> = Vec::new();
    if pin.admission.is_some() {
        r.push(MutationDecision::Admit);
    }
    if pin.rest_index.is_some() {
        r.push(MutationDecision::RestIndex);
    }
    if pin.hit_index.is_some() {
        r.push(MutationDecision::HitIndex);
    }
    proof {
        assert(r@ =~= (if pin.admission is Some { seq![MutationDecision::Admit] } else { Seq::empty() })
            + (if pin.rest_index is Some { seq![MutationDecision::RestIndex] } else { Seq::empty() })
            + (if pin.hit_index is Some { seq![MutationDecision::HitIndex] } else { Seq::empty() }));
    }
    r
}

} // verus!
