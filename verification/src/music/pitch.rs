//! A Part's sounding note as a held value source. A note or pitch lane reads the step
//! notation for values instead of hits: sampling the lane at a tick reads the value of the
//! last event at or before that tick, and before the first value ever it reads nothing, so the
//! caller's initialisation stands.
use vstd::prelude::*;

use super::notation::pattern::{
    cycle_events, events_view, parse_pattern, pattern_shape, stack_period, EventV,
};
use super::notation::{Pattern, Token, TokenV};
use super::ratio::floor_ticks;
use crate::text::{debug_str, decimal, push_decimal, push_signed, quoted, signed_decimal};

verus! {

pub const BAR_TICKS: u64 = 3840;
/// The furthest a sample walks back through silent cycles before reading nothing. A pattern
/// repeats after its period, so a walk of one period that finds nothing has proven the pattern
/// silent everywhere; this cap covers periods past `u64` or past 4096.
pub const MAX_HELD_CYCLES: u64 = 4096;

/// A value pattern on a Part: the authored string, parsed once, over `cycle_bars` bars.
#[derive(Debug)]
pub struct ValueLane {
    pub pattern: String,
    pub cycle_bars: u32,
    parsed: Pattern,
}

impl ValueLane {
    /// The parsed material, as values.
    pub closed spec fn material(&self) -> Seq<Seq<super::notation::StepV>> {
        self.parsed@
    }

    /// The authored pattern string.
    pub closed spec fn text(&self) -> Seq<char> {
        self.pattern@
    }

    /// The bars one cycle spans.
    pub closed spec fn bars(&self) -> u32 {
        self.cycle_bars
    }
}

/// The index of the last of the first `n` events whose onset floors to `position` or before.
pub open spec fn last_at_or_before(evs: Seq<EventV>, cycle_ticks: u64, position: nat, n: int) -> Option<int>
    decreases n,
{
    if n <= 0 || n > evs.len() {
        None
    } else if floor_ticks(evs[n - 1].onset, cycle_ticks) <= position {
        Some(n - 1)
    } else {
        last_at_or_before(evs, cycle_ticks, position, n - 1)
    }
}

/// The last token of the nearest cycle `j, j - 1, ..., lowest` that has an event.
pub open spec fn held_back(p: Seq<Seq<super::notation::StepV>>, j: int, lowest: int) -> Option<TokenV>
    decreases j - lowest + 1,
{
    if j < lowest || j < 0 {
        None
    } else if cycle_events(p, j as nat).len() > 0 {
        Some(cycle_events(p, j as nat).last().token)
    } else {
        held_back(p, j - 1, lowest)
    }
}

/// The held value at `tick`: the token of the last event at or before it in its cycle, else the
/// last event of the nearest earlier cycle that has one, at most a period (and at most 4096
/// cycles) back; none before the first value.
pub open spec fn held_value(p: Seq<Seq<super::notation::StepV>>, cycle_ticks: u64, tick: u64) -> Option<TokenV> {
    let k = tick / cycle_ticks;
    let position = tick % cycle_ticks;
    let evs = cycle_events(p, k as nat);
    match last_at_or_before(evs, cycle_ticks, position as nat, evs.len() as int) {
        Some(i) => Some(evs[i].token),
        None => {
            let reach: int = match stack_period(p, 0, 1) {
                Some(n) => if n < 4096 { n as int } else { 4096 },
                None => 4096,
            };
            let lowest: int = if k >= reach { k - reach } else { 0 };
            held_back(p, k - 1, lowest)
        },
    }
}

pub open spec fn lane_error(pattern: Seq<char>, why: Seq<char>) -> Seq<char> {
    "pattern "@ + debug_str(pattern) + ": "@ + why
}

/// Why a value lane is not closed: no value, a stack, or trigger modifiers.
pub open spec fn closed_check(name: Seq<char>, pattern: Seq<char>, p: Seq<Seq<super::notation::StepV>>) -> Option<Seq<char>> {
    let sh = pattern_shape(p);
    let why = if sh.tokens.len() == 0 {
        Some("holds no value; a source needs at least one"@)
    } else if sh.stacked {
        Some("a stack is a chord, and a Part sounds one note per attack (chords are D9 step 2)"@)
    } else if sh.ratchet || sh.draw {
        Some("`*n` and `?` belong to the trigger pattern; a value pattern says what, not when"@)
    } else {
        None
    };
    match why {
        Some(w) => Some(name + ".pattern "@ + debug_str(pattern) + ": "@ + w),
        None => None,
    }
}

pub open spec fn tokens_view(v: Seq<Token>) -> Seq<TokenV> {
    Seq::new(v.len(), |i: int| v[i]@)
}

impl ValueLane {
    /// Parses a value lane of `cycle_bars` bars, 1 to 1024.
    pub fn parse(pattern: &str, cycle_bars: u32) -> (r: Result<ValueLane, String>)
        ensures
            r is Ok <==> 1 <= cycle_bars <= 1024 && parse_pattern(pattern@) is Ok,
            r matches Ok(l) ==> l.text() == pattern@ && l.bars() == cycle_bars
                && (parse_pattern(pattern@) matches Ok(q) && q.0 == l.material()),
            r matches Err(e) ==> (if !(1 <= cycle_bars <= 1024) {
                e@ == "cycle_bars must be 1..1024"@
            } else {
                (parse_pattern(pattern@) matches Err(m) && e@ == lane_error(pattern@, m))
            }),
    {
        if cycle_bars < 1 || cycle_bars > 1024 {
            proof {
                reveal_strlit("cycle_bars must be 1..1024");
            }
            return Err(String::from_str("cycle_bars must be 1..1024"));
        }
        match Pattern::parse(pattern) {
            Ok(parsed) => Ok(ValueLane { pattern: String::from_str(pattern), cycle_bars, parsed }),
            Err(e) => {
                let mut m = String::from_str("pattern ");
                let q = quoted(pattern);
                m.append(q.as_str());
                m.append(": ");
                m.append(e.as_str());
                proof {
                    reveal_strlit("pattern ");
                    reveal_strlit(": ");
                    assert(m@ =~= lane_error(pattern@, e@));
                }
                Err(m)
            },
        }
    }

    pub fn cycle_ticks(&self) -> (r: u64)
        ensures
            r == self.bars() as nat * 3840,
    {
        (self.cycle_bars as u64) * BAR_TICKS
    }

    /// The held value at `tick`.
    pub fn sample(&self, tick: u64) -> (r: Option<Token>)
        requires
            self.bars() >= 1,
        ensures
            match held_value(self.material(), (self.bars() as u64 * 3840) as u64, tick) {
                Some(t) => r matches Some(x) && x@ == t,
                None => r is None,
            },
    {
        let ct = self.cycle_ticks();
        let k = tick / ct;
        let position = tick % ct;
        let ghost p = self.parsed@;
        let ghost hv = held_value(p, ct, tick);
        proof {
            assert(ct == (self.bars() as u64 * 3840) as u64);
        }
        let evs = self.parsed.cycle(k);
        let ghost ev = cycle_events(p, k as nat);
        proof {
            assert(events_view(evs@).len() == evs@.len());
        }
        let mut i = evs.len();
        while i > 0
            invariant
                i <= evs@.len(),
                events_view(evs@) == ev,
                ev == cycle_events(p, k as nat),
                p == self.parsed@,
                ct == (self.bars() as u64 * 3840) as u64,
                k == tick / ct,
                position == tick % ct,
                hv == held_value(p, ct, tick),
                forall|j: int| 0 <= j < evs@.len() ==> 0 < (#[trigger] evs@[j]).onset.den,
                last_at_or_before(ev, ct, position as nat, evs@.len() as int)
                    == last_at_or_before(ev, ct, position as nat, i as int),
            decreases i,
        {
            proof {
                assert(events_view(evs@)[i - 1] == evs@[i - 1]@);
            }
            if evs[i - 1].onset.ticks(ct) <= position {
                proof {
                    assert(last_at_or_before(ev, ct, position as nat, i as int) == Some(i - 1));
                    assert(hv == Some(ev[i - 1].token));
                }
                return Some(evs[i - 1].token.copy());
            }
            i -= 1;
        }
        let reach: u64 = match self.parsed.period_cycles() {
            Some(n) => if n < MAX_HELD_CYCLES { n } else { MAX_HELD_CYCLES },
            None => MAX_HELD_CYCLES,
        };
        let lowest: u64 = if k >= reach { k - reach } else { 0 };
        let mut j = k;
        proof {
            assert(hv == held_back(p, k - 1, lowest as int));
        }
        while j > lowest
            invariant
                lowest <= j <= k,
                p == self.parsed@,
                ct == (self.bars() as u64 * 3840) as u64,
                hv == held_value(p, ct, tick),
                hv == held_back(p, j - 1, lowest as int),
            decreases j,
        {
            j -= 1;
            let c = self.parsed.cycle(j);
            proof {
                assert(events_view(c@).len() == c@.len());
            }
            if c.len() > 0 {
                proof {
                    assert(events_view(c@)[c@.len() - 1] == c@[c@.len() - 1]@);
                    assert(cycle_events(p, j as nat).len() > 0);
                    assert(hv == Some(cycle_events(p, j as nat).last().token));
                }
                return Some(c[c.len() - 1].token.copy());
            }
        }
        None
    }
}

/// The tokens of a closed value lane: one value per attack, with `*n` and `?` left to the
/// trigger.
pub fn closed(lane: &ValueLane, name: &str) -> (r: Result<Vec<Token>, String>)
    ensures
        match closed_check(name@, lane.text(), lane.material()) {
            Some(m) => r matches Err(e) && e@ == m,
            None => r matches Ok(v) && tokens_view(v@) == pattern_shape(lane.material()).tokens,
        },
{
    let shape = lane.parsed.shape();
    proof {
        reveal_strlit("holds no value; a source needs at least one");
        reveal_strlit("a stack is a chord, and a Part sounds one note per attack (chords are D9 step 2)");
        reveal_strlit("`*n` and `?` belong to the trigger pattern; a value pattern says what, not when");
    }
    let why: &str = if shape.tokens.len() == 0 {
        "holds no value; a source needs at least one"
    } else if shape.stacked {
        "a stack is a chord, and a Part sounds one note per attack (chords are D9 step 2)"
    } else if shape.ratchet || shape.draw {
        "`*n` and `?` belong to the trigger pattern; a value pattern says what, not when"
    } else {
        proof {
            assert(tokens_view(shape.tokens@) =~= shape@.tokens);
        }
        return Ok(shape.tokens);
    };
    let mut m = String::from_str(name);
    m.append(".pattern ");
    let q = quoted(lane.pattern.as_str());
    m.append(q.as_str());
    m.append(": ");
    m.append(why);
    proof {
        reveal_strlit(".pattern ");
        reveal_strlit(": ");
        assert(m@ =~= name@ + ".pattern "@ + debug_str(lane.pattern@) + ": "@ + why@);
    }
    Err(m)
}

/// Note `note` moved by `offset` semitones is a MIDI note.
pub open spec fn sounds(note: u8, offset: i32) -> bool {
    0 <= note + offset <= 127
}

/// The pair `(a, b)`, offset `a` over note `b`, comes before `(c, d)`: offsets outermost.
pub open spec fn pair_before(a: int, b: int, c: int, d: int) -> bool {
    a < c || (a == c && b < d)
}

pub open spec fn range_message(pattern: Seq<char>, offset: i32, note: u8) -> Seq<char> {
    "pitch.pattern "@ + debug_str(pattern) + ": offset "@ + signed_decimal(offset as int) + " from note "@
        + decimal(note as nat) + " leaves MIDI 0..=127"@
}

/// Every note a Part can hold, moved by every offset its pitch lane can give, stays a MIDI
/// note. The first pair that leaves 0..=127, offsets outermost, is named.
pub fn check_pitch_range(pattern: &str, notes: &Vec<u8>, offsets: &Vec<i32>) -> (r: Result<(), String>)
    ensures
        r is Ok <==> forall|a: int, b: int| 0 <= a < offsets@.len() && 0 <= b < notes@.len()
            ==> #[trigger] sounds(notes@[b], offsets@[a]),
        r matches Err(e) ==> exists|a: int, b: int| 0 <= a < offsets@.len() && 0 <= b < notes@.len()
            && !#[trigger] sounds(notes@[b], offsets@[a])
            && (forall|c: int, d: int| 0 <= c < offsets@.len() && 0 <= d < notes@.len() && pair_before(c, d, a, b)
                ==> #[trigger] sounds(notes@[d], offsets@[c]))
            && e@ == range_message(pattern@, offsets@[a], notes@[b]),
{
    let mut a: usize = 0;
    while a < offsets.len()
        invariant
            a <= offsets@.len(),
            forall|c: int, d: int| 0 <= c < a && 0 <= d < notes@.len() ==> #[trigger] sounds(notes@[d], offsets@[c]),
        decreases offsets@.len() - a,
    {
        let mut b: usize = 0;
        while b < notes.len()
            invariant
                a < offsets@.len(),
                b <= notes@.len(),
                forall|c: int, d: int| 0 <= c < a && 0 <= d < notes@.len() ==> #[trigger] sounds(notes@[d], offsets@[c]),
                forall|d: int| 0 <= d < b ==> #[trigger] sounds(notes@[d], offsets@[a as int]),
            decreases notes@.len() - b,
        {
            let moved: i64 = notes[b] as i64 + offsets[a] as i64;
            if moved < 0 || moved > 127 {
                let mut m = String::from_str("pitch.pattern ");
                let q = quoted(pattern);
                m.append(q.as_str());
                m.append(": offset ");
                push_signed(&mut m, offsets[a] as i128);
                m.append(" from note ");
                push_decimal(&mut m, notes[b] as u128);
                m.append(" leaves MIDI 0..=127");
                proof {
                    reveal_strlit("pitch.pattern ");
                    reveal_strlit(": offset ");
                    reveal_strlit(" from note ");
                    reveal_strlit(" leaves MIDI 0..=127");
                    assert(m@ =~= range_message(pattern@, offsets@[a as int], notes@[b as int]));
                    assert forall|c: int, d: int| 0 <= c < offsets@.len() && 0 <= d < notes@.len()
                        && pair_before(c, d, a as int, b as int) implies #[trigger] sounds(notes@[d], offsets@[c]) by {
                        if c == a {
                            assert(sounds(notes@[d], offsets@[a as int]));
                        }
                    }
                    assert(!sounds(notes@[b as int], offsets@[a as int]));
                }
                return Err(m);
            }
            b += 1;
        }
        a += 1;
    }
    Ok(())
}

} // verus!
