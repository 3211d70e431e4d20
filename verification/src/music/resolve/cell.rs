//! One cell of one Part: whether its trigger and accent are admitted, the event it sounds,
//! and the identities its draws are addressed by. The draws themselves come in as outcomes:
//! whether a rhythm is active, and whether a roll fell below its probability.
use vstd::prelude::*;

use super::pinning::identity_of;
use crate::music::{ProbabilityMode, STEP_TICKS};

verus! {

/// One decision of a cell: its rhythm's activity, whether its roll fell below its
/// probability, and how its roll is addressed.
#[derive(Clone, Copy, Debug, PartialEq, Eq, Structural)]
pub struct Admission {
    pub active: bool,
    pub below_probability: bool,
    pub mode: ProbabilityMode,
}

/// The event a cell sounds: where, for how long, and whether it is accented.
#[derive(Clone, Copy, Debug, PartialEq, Eq, Structural)]
pub struct CellEvent {
    pub tick: u64,
    pub duration_ticks: u64,
    pub accent_active: bool,
}

/// What one cell decided.
#[derive(Clone, Copy, Debug, PartialEq, Eq, Structural)]
pub struct CellOutcome {
    pub tick: u64,
    /// The identity the trigger's roll is addressed by.
    pub event_identity: u64,
    /// The identity the accent's roll is addressed by.
    pub accent_identity: u64,
    /// The phrase position the rhythms read at this cell.
    pub phrase_position: u64,
    pub trigger_admitted: bool,
    pub accent_admitted: bool,
    pub event: Option<CellEvent>,
}

/// A decision is admitted when its rhythm is active and its roll fell below the probability.
pub open spec fn admitted(a: Admission) -> bool {
    a.active && a.below_probability
}

/// Where in the phrase, in cells, the cell at `step` lies.
pub open spec fn position_of(phrase_steps: nat, cell: nat, step: nat) -> nat {
    ((step * cell) % (phrase_steps * 240)) / cell
}

/// The identity a draw at `step` on a grid of `cell` ticks is addressed by.
pub fn decision_identity(phrase_steps: u64, cell: u64, step: u64, mode: ProbabilityMode) -> (r: u64)
    requires
        phrase_steps > 0,
        phrase_steps * 240 <= u64::MAX,
        step * cell <= u64::MAX,
    ensures
        r == identity_of(phrase_steps as nat, cell, step as nat, mode),
{
    match mode {
        ProbabilityMode::Continuous => step,
        ProbabilityMode::PhraseLocked => if cell == STEP_TICKS {
            step % phrase_steps
        } else {
            (step * cell) % (phrase_steps * STEP_TICKS)
        },
    }
}

/// Whether a shared accent lane admits the cell at `step`: only on the sixteenth grid, when
/// its rhythm, read at the sixteenth the cell starts on, is active and its roll fell below its
/// probability.
pub open spec fn shared_admitted(step: nat, cell: nat, lane: Admission) -> bool {
    (step * cell) % 240 == 0 && lane.active && lane.below_probability
}

/// The sixteenth a cell starts in, which a shared accent lane is read at.
pub fn shared_step(step: u64, cell: u64) -> (r: u64)
    requires
        step * cell <= u64::MAX,
    ensures
        r == (step * cell) / 240,
{
    step * cell / STEP_TICKS
}

/// The identity a shared accent lane's roll at the cell at `step` is addressed by: the
/// sixteenth it starts in, within the phrase when the lane is phrase-locked.
pub fn shared_identity(phrase_steps: u64, cell: u64, step: u64, mode: ProbabilityMode) -> (r: u64)
    requires
        phrase_steps > 0,
        step * cell <= u64::MAX,
    ensures
        r == (match mode {
            ProbabilityMode::PhraseLocked => ((step * cell) / 240) % (phrase_steps as int),
            ProbabilityMode::Continuous => (step * cell) / 240,
        }),
{
    match mode {
        ProbabilityMode::PhraseLocked => step * cell / STEP_TICKS % phrase_steps,
        ProbabilityMode::Continuous => step * cell / STEP_TICKS,
    }
}

/// Whether a shared accent lane admits the cell at `step`.
pub fn shared_admits(step: u64, cell: u64, lane: Admission) -> (r: bool)
    requires
        step * cell <= u64::MAX,
    ensures
        r == shared_admitted(step as nat, cell as nat, lane),
{
    (step * cell) % STEP_TICKS == 0 && lane.active && lane.below_probability
}

/// Whether any of the shared accent lanes admitted the cell.
pub open spec fn any_shared(shared: Seq<bool>) -> bool {
    exists|i: int| 0 <= i < shared.len() && shared[i]
}

/// Resolves one cell of a Part at `step`, on a grid of `cell` ticks with a phrase of
/// `phrase_steps` sixteenths and a gate of `gate_ticks`: the trigger decides whether an event
/// sounds at all, and the event is accented when the Part's own accent or any shared accent
/// lane admitted it. No trigger means no note, whatever the accents decided.
pub fn resolve_cell(
    step: u64,
    cell: u64,
    phrase_steps: u64,
    gate_ticks: u64,
    trigger: Admission,
    accent: Admission,
    shared: &Vec<bool>,
) -> (r: CellOutcome)
    requires
        cell > 0,
        phrase_steps > 0,
        phrase_steps * 240 <= u64::MAX,
        step * cell <= u64::MAX,
    ensures
        r.tick == step * cell,
        r.trigger_admitted == admitted(trigger),
        r.accent_admitted == admitted(accent),
        r.event is Some <==> r.trigger_admitted,
        r.event matches Some(e) ==> e.tick == step * cell && e.duration_ticks == gate_ticks
            && e.accent_active == (admitted(accent) || any_shared(shared@)),
        r.event_identity == identity_of(phrase_steps as nat, cell, step as nat, trigger.mode),
        r.accent_identity == identity_of(phrase_steps as nat, cell, step as nat, accent.mode),
        r.phrase_position == position_of(phrase_steps as nat, cell as nat, step as nat),
{
    let tick = step * cell;
    let trigger_admitted = trigger.active && trigger.below_probability;
    let accent_admitted = accent.active && accent.below_probability;
    let mut any = false;
    let mut i: usize = 0;
    while i < shared.len()
        invariant
            i <= shared@.len(),
            any == exists|j: int| 0 <= j < i && shared@[j],
        decreases shared@.len() - i,
    {
        if shared[i] {
            any = true;
        }
        i += 1;
    }
    let event = if trigger_admitted {
        Some(CellEvent { tick, duration_ticks: gate_ticks, accent_active: accent_admitted || any })
    } else {
        None
    };
    CellOutcome {
        tick,
        event_identity: decision_identity(phrase_steps, cell, step, trigger.mode),
        accent_identity: decision_identity(phrase_steps, cell, step, accent.mode),
        phrase_position: tick % (phrase_steps * STEP_TICKS) / cell,
        trigger_admitted,
        accent_admitted,
        event,
    }
}

pub open spec fn max_int(a: int, b: int) -> int {
    if a >= b { a } else { b }
}

pub open spec fn min_int(a: int, b: int) -> int {
    if a <= b { a } else { b }
}

/// A cell's bar: bars own their attacks and releases, so a cell's events stay within the bar
/// it starts in, and within `lower..upper`.
pub open spec fn bar_window(step: nat, cell: nat, lower: nat, upper: nat) -> (int, int) {
    let start = (step * cell) / 3840 * 3840;
    (max_int(lower as int, start as int), min_int(upper as int, (start + 3840) as int))
}

/// Where a cell's event sounds and for how long, on integer ticks.
///
/// The event starts at `step * cell` with a gate of `gate` ticks. A groove moves its onset by
/// `requested` ticks, never before the bar window; a gate then ends before the cell's written
/// span does. Whatever the groove, its gate ends before the next structural onset, which sits
/// at `next_source` moved by its own groove offset `next_offset` and drawn earlier by a flam's
/// `flam` spacing, but at least two ticks after this onset; it ends within the bar window and
/// the written span, and lasts at least a tick.
pub open spec fn cell_timing_of(
    step: nat,
    cell: nat,
    lower: nat,
    upper: nat,
    gate: nat,
    span: nat,
    requested: Option<i64>,
    next_source: nat,
    next_offset: i64,
    flam: nat,
) -> (int, int) {
    let (lo, hi) = bar_window(step, cell, lower, upper);
    let tick0 = (step * cell) as int;
    let (tick, duration) = match requested {
        Some(r) => {
            let onset = max_int(tick0 + r, lo);
            (onset, min_int(gate as int, max_int(1, max_int(0, tick0 + span - (onset + 1)))))
        },
        None => (tick0, gate as int),
    };
    let next_first = max_int(next_source + next_offset - flam, tick + 2);
    let end = min_int(hi, next_first);
    (tick, max_int(1, min_int(min_int(duration, span - 1), max_int(0, end - (tick + 1)))))
}

/// The onset and gate of a cell's event, as `cell_timing_of` says.
#[verifier::rlimit(60)]
pub fn cell_timing(
    step: u64,
    cell: u64,
    lower: u64,
    upper: u64,
    gate: u64,
    span: u64,
    requested: Option<i64>,
    next_source: u64,
    next_offset: i64,
    flam: u64,
) -> (r: (u64, u64))
    requires
        span > 0,
        step * cell + span + 4 * 3840 <= u64::MAX,
        requested matches Some(q) ==> step * cell + q + 2 <= u64::MAX,
        next_source + next_offset <= u64::MAX,
    ensures
        r.0 == cell_timing_of(step as nat, cell as nat, lower as nat, upper as nat, gate as nat, span as nat,
            requested, next_source as nat, next_offset, flam as nat).0,
        r.1 == cell_timing_of(step as nat, cell as nat, lower as nat, upper as nat, gate as nat, span as nat,
            requested, next_source as nat, next_offset, flam as nat).1,
{
    let ghost w = bar_window(step as nat, cell as nat, lower as nat, upper as nat);
    let prod = step * cell;
    let t: i128 = prod as i128;
    let start: i128 = t / 3840 * 3840;
    proof {
        assert(start == ((step * cell) as nat) / 3840 * 3840);
        assert(0 <= start <= t);
    }
    let lo: i128 = if (lower as i128) >= start { lower as i128 } else { start };
    let hi: i128 = if (upper as i128) <= start + 3840 { upper as i128 } else { start + 3840 };
    proof {
        assert(lo == w.0 && hi == w.1);
    }
    let (tick, duration): (i128, i128) = match requested {
        Some(q) => {
            let moved = t + (q as i128);
            let onset = if moved >= lo { moved } else { lo };
            let left = t + (span as i128) - (onset + 1);
            let room = if left >= 0 { left } else { 0 };
            let cap = if room >= 1 { room } else { 1 };
            (onset, if (gate as i128) <= cap { gate as i128 } else { cap })
        },
        None => (t, gate as i128),
    };
    let drawn = (next_source as i128) + (next_offset as i128) - (flam as i128);
    let next_first = if drawn >= tick + 2 { drawn } else { tick + 2 };
    let end = if hi <= next_first { hi } else { next_first };
    let a = if duration <= (span as i128) - 1 { duration } else { (span as i128) - 1 };
    let left = end - (tick + 1);
    let room = if left >= 0 { left } else { 0 };
    let b = if a <= room { a } else { room };
    let d = if b >= 1 { b } else { 1 };
    proof {
        assert(0 <= tick <= u64::MAX);
        assert(1 <= d <= u64::MAX);
    }
    (tick as u64, d as u64)
}

} // verus!
