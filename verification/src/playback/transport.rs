//! The planning decisions of the realtime transport. The transport resolves one sixteenth at a
//! time, ahead of its deadline; it reloads a watched file only at phrase boundaries, keeps the
//! running configuration when a reload is refused and reports each distinct refusal once, and
//! jumps over positions that a stalled producer can no longer deliver in time. The caller
//! sleeps, reads, resolves and sends; these functions decide.
use vstd::prelude::*;

use crate::text::{decimal, push_decimal};

verus! {

/// A step later than this many nanoseconds past its deadline is skipped.
pub const LATE_NANOS: u128 = 20000000;

/// The last step of a run: the earlier of the requested and the composed end, or whichever of
/// them there is.
pub open spec fn end_of(requested: Option<u64>, composed: Option<u64>) -> Option<u64> {
    match (requested, composed) {
        (Some(a), Some(b)) => Some(if a <= b { a } else { b }),
        (Some(a), None) => Some(a),
        (None, b) => b,
    }
}

pub fn end_steps(requested: Option<u64>, composed: Option<u64>) -> (r: Option<u64>)
    ensures
        r == end_of(requested, composed),
{
    match (requested, composed) {
        (Some(a), Some(b)) => Some(if a <= b { a } else { b }),
        (Some(a), None) => Some(a),
        (None, b) => b,
    }
}

/// Where planning stands between two steps.
pub struct Planner {
    /// The next step to plan.
    pub step: u64,
    /// The step at which the run ends, if it ends.
    pub end: Option<u64>,
    /// Whether the source file is reloaded at phrase boundaries.
    pub watch: bool,
    /// Sixteenths per phrase.
    pub phrase_steps: u64,
    /// The last reload refusal reported; empty when the last reload succeeded.
    pub last_error: String,
    /// Steps skipped after stalls.
    pub skipped: u64,
}

/// What the transport does next.
#[derive(Clone, Copy, Debug, PartialEq, Eq, Structural)]
pub enum Turn {
    /// Stop planning: the run was stopped or has reached its end.
    Finish,
    /// The next deadline is further away than the lookahead: sleep briefly and ask again.
    Wait,
    /// Plan `step`; first reload the watched file when `reload`, and take the live edits when
    /// `refresh`.
    Plan { step: u64, reload: bool, refresh: bool },
}

/// The turn for a planner at `step` of a run that ends at `end`.
pub open spec fn turn_of(step: u64, end: Option<u64>, watch: bool, phrase_steps: u64, running: bool, due: bool) -> Turn {
    if !running || (end matches Some(e) && step >= e) {
        Turn::Finish
    } else if !due {
        Turn::Wait
    } else {
        Turn::Plan {
            step,
            reload: watch && step > 0 && step % phrase_steps == 0,
            refresh: step % 16 == 0,
        }
    }
}

/// The report of a refused reload.
pub open spec fn rejection(error: Seq<char>) -> Seq<char> {
    "Reload rejected; continuing previous configuration: "@ + error
}

impl Planner {
    /// A planner at step zero; a phrase is `phrase_bars` bars of sixteen sixteenths.
    pub fn new(end: Option<u64>, watch: bool, phrase_bars: u32) -> (p: Planner)
        requires
            phrase_bars > 0,
        ensures
            p.step == 0,
            p.end == end,
            p.watch == watch,
            p.phrase_steps == phrase_bars * 16,
            p.last_error@ == Seq::<char>::empty(),
            p.skipped == 0,
    {
        Planner { step: 0, end, watch, phrase_steps: (phrase_bars as u64) * 16, last_error: String::new(), skipped: 0 }
    }

    /// What to do next, given whether the run is still wanted and whether the next deadline
    /// is within the lookahead.
    pub fn turn(&self, running: bool, due: bool) -> (t: Turn)
        requires
            self.phrase_steps > 0,
        ensures
            t == turn_of(self.step, self.end, self.watch, self.phrase_steps, running, due),
    {
        let ended = match self.end {
            Some(e) => self.step >= e,
            None => false,
        };
        if !running || ended {
            Turn::Finish
        } else if !due {
            Turn::Wait
        } else {
            Turn::Plan {
                step: self.step,
                reload: self.watch && self.step > 0 && self.step % self.phrase_steps == 0,
                refresh: self.step % 16 == 0,
            }
        }
    }

    /// Takes the outcome of a reload: a success forgets the last refusal; a refusal is
    /// reported once, and again only after a different one.
    pub fn reloaded(&mut self, outcome: Result<(), String>) -> (report: Option<String>)
        ensures
            final(self).step == old(self).step,
            final(self).end == old(self).end,
            final(self).watch == old(self).watch,
            final(self).phrase_steps == old(self).phrase_steps,
            final(self).skipped == old(self).skipped,
            match outcome {
                Ok(()) => report is None && final(self).last_error@ == Seq::<char>::empty(),
                Err(e) => if e@ != old(self).last_error@ {
                    report matches Some(m) && m@ == rejection(e@) && final(self).last_error@ == e@
                } else {
                    report is None && final(self).last_error@ == old(self).last_error@
                },
            },
    {
        match outcome {
            Ok(()) => {
                self.last_error = String::new();
                None
            },
            Err(e) => {
                if e == self.last_error {
                    None
                } else {
                    proof {
                        reveal_strlit("Reload rejected; continuing previous configuration: ");
                    }
                    let mut m = String::from_str("Reload rejected; continuing previous configuration: ");
                    m.append(e.as_str());
                    self.last_error = e;
                    Some(m)
                }
            },
        }
    }

    /// Settles the planned step `lateness` nanoseconds after its deadline: a step later than
    /// the limit is skipped and counted, and planning moves on; otherwise it is to be resolved.
    pub fn settle(&mut self, lateness: u128) -> (skip: bool)
        requires
            old(self).step < u64::MAX,
            old(self).skipped < u64::MAX,
        ensures
            skip == (lateness > LATE_NANOS),
            final(self).step == if skip { old(self).step + 1 } else { old(self).step as int },
            final(self).skipped == if skip { old(self).skipped + 1 } else { old(self).skipped as int },
            final(self).end == old(self).end,
            final(self).watch == old(self).watch,
            final(self).phrase_steps == old(self).phrase_steps,
            final(self).last_error@ == old(self).last_error@,
    {
        if lateness > LATE_NANOS {
            self.skipped = self.skipped + 1;
            self.step = self.step + 1;
            true
        } else {
            false
        }
    }

    /// Moves past a step that was resolved and sent.
    pub fn planned(&mut self)
        requires
            old(self).step < u64::MAX,
        ensures
            final(self).step == old(self).step + 1,
            final(self).end == old(self).end,
            final(self).watch == old(self).watch,
            final(self).phrase_steps == old(self).phrase_steps,
            final(self).skipped == old(self).skipped,
            final(self).last_error@ == old(self).last_error@,
    {
        self.step = self.step + 1;
    }
}

/// Whether a reloaded file may replace the running one: tempo and phrase length, and the
/// arrangement's layout, phrase lengths and routing, are fixed for a run.
pub open spec fn reload_check(same_tempo_and_phrase: bool, same_layout: bool) -> Result<(), Seq<char>> {
    if !same_tempo_and_phrase {
        Err("restart playback to change tempo or phrase_bars"@)
    } else if !same_layout {
        Err("restart playback to change arrangement layout, phrase lengths or routing"@)
    } else {
        Ok(())
    }
}

pub fn check_reload(same_tempo_and_phrase: bool, same_layout: bool) -> (r: Result<(), String>)
    ensures
        match reload_check(same_tempo_and_phrase, same_layout) {
            Ok(()) => r is Ok,
            Err(m) => r matches Err(e) && e@ == m,
        },
{
    if !same_tempo_and_phrase {
        proof {
            reveal_strlit("restart playback to change tempo or phrase_bars");
        }
        Err(String::from_str("restart playback to change tempo or phrase_bars"))
    } else if !same_layout {
        proof {
            reveal_strlit("restart playback to change arrangement layout, phrase lengths or routing");
        }
        Err(String::from_str("restart playback to change arrangement layout, phrase lengths or routing"))
    } else {
        Ok(())
    }
}

/// The report of an applied reload at `step`: its one-based bar and the new seed.
pub open spec fn applied_text(step: u64, seed: u64) -> Seq<char> {
    "Applied configuration at bar "@ + decimal((step / 16 + 1) as nat) + " (seed "@ + decimal(seed as nat) + ")."@
}

pub fn applied(step: u64, seed: u64) -> (m: String)
    ensures
        m@ == applied_text(step, seed),
{
    proof {
        reveal_strlit("Applied configuration at bar ");
        reveal_strlit(" (seed ");
        reveal_strlit(").");
    }
    let mut m = String::from_str("Applied configuration at bar ");
    push_decimal(&mut m, (step / 16) as u128 + 1);
    m.append(" (seed ");
    push_decimal(&mut m, seed as u128);
    m.append(").");
    m
}

/// A watched run reloads exactly at the phrase boundaries after the first phrase, and never
/// elsewhere; the live edits are taken at every bar line.
pub proof fn lemma_reloads_at_phrase_boundaries(step: u64, end: Option<u64>, phrase_steps: u64)
    requires
        phrase_steps > 0,
        !(end matches Some(e) && step >= e),
    ensures
        turn_of(step, end, true, phrase_steps, true, true) matches Turn::Plan { reload, refresh, .. }
            && reload == (step > 0 && step % phrase_steps == 0)
            && refresh == (step % 16 == 0),
        turn_of(step, end, false, phrase_steps, true, true) matches Turn::Plan { reload, .. } && !reload,
{
}

} // verus!
