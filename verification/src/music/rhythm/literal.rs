//! A fully prepared literal trigger schedule. Preparation belongs off the transport path;
//! lookup never parses, renders a cycle, allocates, or fills a cache.
use vstd::prelude::*;

use crate::music::notation::pattern::{
    cycle_events, cycle_tick_events, lemma_tail_within, no_kinds, parse_pattern, stack_kinds,
    stack_period, EventV, TickEventV,
};
use crate::music::notation::render::euclid_mod;
use crate::music::notation::{Draw, Pattern, StepV};
use crate::music::time::{is_note_value, lemma_note_value_positive, note_label, NoteValue};
use crate::music::PPQN;
use crate::text::{debug_str, decimal, push_decimal, quoted, same_text};

verus! {

/// Consumer policy limits, independent of the standalone notation grammar.
pub const MAX_CYCLES: u64 = 4096;
pub const MAX_PREPARE_WORK: u64 = 1048576;
pub const MAX_PREPARE_EVENTS: u64 = 65536;

/// Metadata of one main structural onset, before probability or timing.
#[derive(Clone, Copy, Debug, PartialEq, Eq, Structural)]
pub struct Attack {
    /// The event's own span, not the Part's subdivision cell.
    pub span_ticks: u64,
    /// Includes the main hit; a denied tail gate leaves the main hit intact.
    pub ratchet: u8,
    pub draw: Draw,
}

/// Child `child` of an attack: `floor(span * child / ratchet)`, written so it cannot overflow.
pub open spec fn child_offset_of(a: Attack, child: u8) -> Option<u64> {
    if child < a.ratchet {
        let n = a.ratchet as nat;
        let i = child as nat;
        Some((a.span_ticks as nat / n * i + a.span_ticks as nat % n * i / n) as u64)
    } else {
        None
    }
}

impl Attack {
    /// Structural child offset, using the notation renderer's floor rule. Child 0 is the
    /// main hit. This describes admission candidates, not emitted notes.
    pub fn child_offset(&self, child: u8) -> (r: Option<u64>)
        ensures
            r == child_offset_of(*self, child),
            r matches Some(o) ==> o <= self.span_ticks,
    {
        if child < self.ratchet {
            let n = self.ratchet as u64;
            let i = child as u64;
            proof {
                lemma_tail_within(self.span_ticks as nat, n as nat, i as nat);
                assert((self.span_ticks % n) * i <= 255 * 255) by (nonlinear_arith)
                    requires self.span_ticks % n < n, n <= 255, i < n;
            }
            Some(self.span_ticks / n * i + self.span_ticks % n * i / n)
        } else {
            None
        }
    }
}

/// One main onset of the schedule.
#[derive(Clone, Copy, Debug)]
struct Entry {
    tick: u64,
    attack: Attack,
}

/// A schedule as values: its period and rotation in ticks, and its onsets in tick order.
pub struct ScheduleV {
    pub period: nat,
    pub rotation: nat,
    pub entries: Seq<(nat, Attack)>,
}

spec fn entries_view(v: Seq<Entry>) -> Seq<(nat, Attack)> {
    Seq::new(v.len(), |i: int| (v[i].tick as nat, v[i].attack))
}

/// Complete finite structural period, stored sparsely. A positive rotation delays material
/// by that many Part cells, matching Euclidean rotation; it never changes the period or phase
/// origin. Rotation wraps over the complete period, not each individual bar.
#[derive(Debug)]
pub struct Schedule {
    period_ticks: u64,
    rotation_ticks: u64,
    entries: Vec<Entry>,
}

/// Whether the onsets come in strictly increasing tick order.
pub open spec fn strictly_ordered(e: Seq<(nat, Attack)>) -> bool {
    forall|i: int, j: int| 0 <= i < j < e.len() ==> (#[trigger] e[i]).0 < (#[trigger] e[j]).0
}

impl View for Schedule {
    type V = ScheduleV;

    closed spec fn view(&self) -> ScheduleV {
        ScheduleV {
            period: self.period_ticks as nat,
            rotation: self.rotation_ticks as nat,
            entries: entries_view(self.entries@),
        }
    }
}

/// The material phase a transport tick reads: the tick's phase in the period, moved back by
/// the rotation.
pub open spec fn source_phase(s: ScheduleV, tick: nat) -> nat {
    ((tick as int - s.rotation as int) % (s.period as int)) as nat
}

/// The attack whose onset is exactly `phase`, if any.
pub open spec fn attack_at(s: ScheduleV, phase: nat) -> Option<Attack> {
    if exists|i: int| 0 <= i < s.entries.len() && (#[trigger] s.entries[i]).0 == phase {
        Some(s.entries[choose|i: int| 0 <= i < s.entries.len() && (#[trigger] s.entries[i]).0 == phase].1)
    } else {
        None
    }
}

/// What one event of cycle `k` does to the entries so far: refuse it, or append its onset.
pub open spec fn take_event(
    e: EventV,
    t: TickEventV,
    k: nat,
    cycle_ticks: nat,
    cell: nat,
    label: Seq<char>,
    entries: Seq<(nat, Attack)>,
) -> Result<Seq<(nat, Attack)>, Seq<char>> {
    let numerator = k * cycle_ticks * (e.onset.den as nat) + cycle_ticks * (e.onset.num as nat);
    let grid = (e.onset.den as nat) * cell;
    if numerator % grid != 0 {
        Err(off_grid(numerator, e.onset.den as nat, k, t.tick, label))
    } else if entries.len() > 0 && entries.last().0 == t.tick {
        Err(duplicate(t.tick, k))
    } else if t.span_ticks < 2 * (t.ratchet as nat) {
        Err(too_short(t.tick, t.span_ticks, t.ratchet as nat))
    } else {
        Ok(entries.push((t.tick, Attack { span_ticks: t.span_ticks as u64, ratchet: t.ratchet, draw: t.draw })))
    }
}

/// Events `i..` of cycle `k`, admitted in order.
pub open spec fn scan_cycle(
    p: Seq<Seq<StepV>>,
    k: nat,
    i: int,
    cycle_ticks: nat,
    cell: nat,
    label: Seq<char>,
    entries: Seq<(nat, Attack)>,
) -> Result<Seq<(nat, Attack)>, Seq<char>>
    decreases cycle_events(p, k).len() - i,
{
    if i < 0 || i >= cycle_events(p, k).len() {
        Ok(entries)
    } else {
        match take_event(cycle_events(p, k)[i], cycle_tick_events(p, k, cycle_ticks)[i], k, cycle_ticks, cell, label, entries) {
            Err(m) => Err(m),
            Ok(next) => scan_cycle(p, k, i + 1, cycle_ticks, cell, label, next),
        }
    }
}

/// Cycles `k..cycles`, scanned in order.
pub open spec fn scan_cycles(
    p: Seq<Seq<StepV>>,
    k: nat,
    cycles: nat,
    cycle_ticks: nat,
    cell: nat,
    label: Seq<char>,
    entries: Seq<(nat, Attack)>,
) -> Result<Seq<(nat, Attack)>, Seq<char>>
    decreases cycles - k,
{
    if k >= cycles {
        Ok(entries)
    } else {
        match scan_cycle(p, k, 0, cycle_ticks, cell, label, entries) {
            Err(m) => Err(m),
            Ok(next) => scan_cycles(p, k + 1, cycles, cycle_ticks, cell, label, next),
        }
    }
}

/// The schedule once every onset was admitted: the material must return to the Part grid at
/// the period's end, and the rotation is `rotate` cells, wrapped over the period.
pub open spec fn finish(
    scanned: Result<Seq<(nat, Attack)>, Seq<char>>,
    period: nat,
    cell: nat,
    rotate: i32,
    label: Seq<char>,
) -> Result<ScheduleV, Seq<char>> {
    match scanned {
        Err(m) => Err(m),
        Ok(entries) => if entries.len() > 0 && period % cell != 0 {
            Err(next_period_off_grid(period + entries[0].0, label))
        } else {
            Ok(ScheduleV { period, rotation: ((rotate as int * cell as int) % (period as int)) as nat, entries })
        },
    }
}

/// The schedule of literal `text` over `cycle_bars` bars per cycle on a grid of `cell` ticks,
/// or the message of the first check it fails.
pub open spec fn schedule_of(text: Seq<char>, cycle_bars: u32, cell: u64, rotate: i32) -> Result<ScheduleV, Seq<char>> {
    if cycle_bars == 0 {
        Err("cycle_bars must be positive"@)
    } else if !is_note_value(cell as nat) {
        Err("subdivision must be a supported note value"@)
    } else {
        match parse_pattern(text) {
            Err(e) => Err(e),
            Ok((p, cost)) => {
                let kinds = stack_kinds(p, 0, no_kinds());
                if kinds.numbers || kinds.notes || kinds.names {
                    Err(only_hits())
                } else {
                    match stack_period(p, 0, 1) {
                        None => Err(too_many_cycles()),
                        Some(cycles) => if cycles > MAX_CYCLES {
                            Err(too_many_cycles())
                        } else if (cost.work as nat) * cycles > MAX_PREPARE_WORK {
                            Err(too_much_work())
                        } else if (cost.events as nat) * cycles > MAX_PREPARE_EVENTS {
                            Err(too_many_events())
                        } else {
                            let cycle_ticks = (cycle_bars as nat) * 4 * (PPQN as nat);
                            if cycle_ticks * cycles > u64::MAX {
                                Err("prepared period exceeds the u64 tick grid"@)
                            } else {
                                let label = note_label(cell as nat);
                                finish(
                                    scan_cycles(p, 0, cycles, cycle_ticks, cell as nat, label, Seq::empty()),
                                    cycle_ticks * cycles,
                                    cell as nat,
                                    rotate,
                                    label,
                                )
                            }
                        },
                    }
                }
            },
        }
    }
}

pub open spec fn only_hits() -> Seq<char> {
    "a trigger schedule accepts only hits (x) and rests (~)"@
}

pub open spec fn too_many_cycles() -> Seq<char> {
    "prepared period exceeds 4096 cycles"@
}

pub open spec fn too_much_work() -> Seq<char> {
    "preparation work bound exceeds 1048576 renderer visits; simplify the pattern or shorten its period"@
}

pub open spec fn too_many_events() -> Seq<char> {
    "prepared event bound exceeds 65536; simplify the pattern or shorten its period"@
}

pub open spec fn off_grid(numerator: nat, den: nat, k: nat, tick: nat, label: Seq<char>) -> Seq<char> {
    "onset "@ + decimal(numerator) + "/"@ + decimal(den) + " ticks (cycle "@ + decimal(k) + ", floored tick "@
        + decimal(tick) + ") is off subdivision "@ + label + "; set subdivision finer, or write *n"@
}

pub open spec fn duplicate(tick: nat, k: nat) -> Seq<char> {
    "duplicate trigger onset at tick "@ + decimal(tick) + " (cycle "@ + decimal(k)
        + "); a trigger cannot stack simultaneous hits"@
}

pub open spec fn too_short(tick: nat, span: nat, ratchet: nat) -> Seq<char> {
    "onset at tick "@ + decimal(tick) + " has span "@ + decimal(span) + " with ratchet "@ + decimal(ratchet)
        + "; at least two ticks per attack are required"@
}

pub open spec fn next_period_off_grid(tick: nat, label: Seq<char>) -> Seq<char> {
    "onset at tick "@ + decimal(tick) + " in the next period is off subdivision "@ + label
        + "; set subdivision finer, or change cycle_bars"@
}

/// A preparation error, named after the literal it came from.
pub open spec fn prepare_error(text: Seq<char>, why: Seq<char>) -> Seq<char> {
    "literal pattern "@ + debug_str(text) + ": "@ + why
}

fn off_grid_message(numerator: u128, den: u64, k: u64, tick: u64, label: &String) -> (m: String)
    ensures
        m@ == off_grid(numerator as nat, den as nat, k as nat, tick as nat, label@),
{
    let mut m = String::from_str("onset ");
    push_decimal(&mut m, numerator);
    m.append("/");
    push_decimal(&mut m, den as u128);
    m.append(" ticks (cycle ");
    push_decimal(&mut m, k as u128);
    m.append(", floored tick ");
    push_decimal(&mut m, tick as u128);
    m.append(") is off subdivision ");
    m.append(label.as_str());
    m.append("; set subdivision finer, or write *n");
    proof {
        reveal_strlit("onset ");
        reveal_strlit("/");
        reveal_strlit(" ticks (cycle ");
        reveal_strlit(", floored tick ");
        reveal_strlit(") is off subdivision ");
        reveal_strlit("; set subdivision finer, or write *n");
        assert(m@ =~= off_grid(numerator as nat, den as nat, k as nat, tick as nat, label@));
    }
    m
}

fn duplicate_message(tick: u64, k: u64) -> (m: String)
    ensures
        m@ == duplicate(tick as nat, k as nat),
{
    let mut m = String::from_str("duplicate trigger onset at tick ");
    push_decimal(&mut m, tick as u128);
    m.append(" (cycle ");
    push_decimal(&mut m, k as u128);
    m.append("); a trigger cannot stack simultaneous hits");
    proof {
        reveal_strlit("duplicate trigger onset at tick ");
        reveal_strlit(" (cycle ");
        reveal_strlit("); a trigger cannot stack simultaneous hits");
        assert(m@ =~= duplicate(tick as nat, k as nat));
    }
    m
}

fn too_short_message(tick: u64, span: u64, ratchet: u8) -> (m: String)
    ensures
        m@ == too_short(tick as nat, span as nat, ratchet as nat),
{
    let mut m = String::from_str("onset at tick ");
    push_decimal(&mut m, tick as u128);
    m.append(" has span ");
    push_decimal(&mut m, span as u128);
    m.append(" with ratchet ");
    push_decimal(&mut m, ratchet as u128);
    m.append("; at least two ticks per attack are required");
    proof {
        reveal_strlit("onset at tick ");
        reveal_strlit(" has span ");
        reveal_strlit(" with ratchet ");
        reveal_strlit("; at least two ticks per attack are required");
        assert(m@ =~= too_short(tick as nat, span as nat, ratchet as nat));
    }
    m
}

fn next_period_message(tick: u128, label: &String) -> (m: String)
    ensures
        m@ == next_period_off_grid(tick as nat, label@),
{
    let mut m = String::from_str("onset at tick ");
    push_decimal(&mut m, tick);
    m.append(" in the next period is off subdivision ");
    m.append(label.as_str());
    m.append("; set subdivision finer, or change cycle_bars");
    proof {
        reveal_strlit("onset at tick ");
        reveal_strlit(" in the next period is off subdivision ");
        reveal_strlit("; set subdivision finer, or change cycle_bars");
        assert(m@ =~= next_period_off_grid(tick as nat, label@));
    }
    m
}

fn owned(s: &'static str) -> (m: String)
    ensures
        m@ == s@,
{
    String::from_str(s)
}

/// Admits one event of cycle `k` into the entries, or refuses it with the spec's message.
fn take_one(
    e: &crate::music::notation::Event,
    t: &crate::music::notation::TickEvent,
    k: u64,
    base: u64,
    cycle_ticks: u64,
    cell: u64,
    label: &String,
    entries: &mut Vec<Entry>,
) -> (r: Result<(), String>)
    requires
        base == k * cycle_ticks,
        base + cycle_ticks <= u64::MAX,
        cell > 0,
        0 < e.onset.den,
        e.onset.num <= e.onset.den,
        strictly_ordered(entries_view(old(entries)@)),
        old(entries)@.len() > 0 ==> old(entries)@.last().tick <= t.tick,
    ensures
        match take_event(e@, t@, k as nat, cycle_ticks as nat, cell as nat, label@, entries_view(old(entries)@)) {
            Ok(next) => r is Ok && entries_view(final(entries)@) == next,
            Err(m) => r matches Err(x) && x@ == m,
        },
        strictly_ordered(entries_view(final(entries)@)),
        final(entries)@.len() > 0 ==> final(entries)@.last().tick <= t.tick,
{
    let ghost before = entries_view(entries@);
    proof {
        let den = e.onset.den as nat;
        let num = e.onset.num as nat;
        assert(base * den + cycle_ticks * num <= (base + cycle_ticks) * den) by (nonlinear_arith)
            requires num <= den;
        assert((base + cycle_ticks) * den <= u64::MAX * u64::MAX) by (nonlinear_arith)
            requires base + cycle_ticks <= u64::MAX, den <= u64::MAX;
        assert(den * cell <= u64::MAX * u64::MAX) by (nonlinear_arith)
            requires den <= u64::MAX, cell <= u64::MAX;
        assert(den * cell > 0) by (nonlinear_arith) requires den > 0, cell > 0;
        assert(k * cycle_ticks * den == base * den);
    }
    let numerator: u128 = (base as u128) * (e.onset.den as u128) + (cycle_ticks as u128) * (e.onset.num as u128);
    let grid: u128 = (e.onset.den as u128) * (cell as u128);
    let tick = t.tick;
    if numerator % grid != 0 {
        return Err(off_grid_message(numerator, e.onset.den, k, tick, label));
    }
    if entries.len() > 0 && entries[entries.len() - 1].tick == tick {
        proof {
            assert(before.last().0 == entries@.last().tick);
        }
        return Err(duplicate_message(tick, k));
    }
    proof {
        if entries@.len() > 0 {
            assert(before.last().0 == entries@.last().tick);
        }
    }
    if (t.span_ticks as u128) < 2 * (t.ratchet as u128) {
        return Err(too_short_message(tick, t.span_ticks, t.ratchet));
    }
    entries.push(Entry { tick, attack: Attack { span_ticks: t.span_ticks, ratchet: t.ratchet, draw: t.draw } });
    proof {
        let after = entries_view(entries@);
        assert(after =~= before.push((tick as nat, Attack { span_ticks: t.span_ticks, ratchet: t.ratchet, draw: t.draw })));
        assert forall|a: int, b: int| 0 <= a < b < after.len() implies (#[trigger] after[a]).0 < (#[trigger] after[b]).0 by {
            if b < before.len() {
                assert(after[a] == before[a] && after[b] == before[b]);
            } else {
                assert(after[a] == before[a]);
                if a < before.len() - 1 {
                    assert(before[a].0 < before[before.len() - 1].0);
                }
            }
        }
    }
    Ok(())
}

/// Scans every event of cycle `k` into the entries, or refuses the first that fails.
fn scan_one_cycle(
    pattern: &Pattern,
    k: u64,
    cycle_ticks: u64,
    cell: u64,
    label: &String,
    entries: &mut Vec<Entry>,
) -> (r: Result<(), String>)
    requires
        (k + 1) * cycle_ticks <= u64::MAX,
        cell > 0,
        strictly_ordered(entries_view(old(entries)@)),
        old(entries)@.len() > 0 ==> old(entries)@.last().tick <= k * cycle_ticks,
    ensures
        match scan_cycle(pattern@, k as nat, 0, cycle_ticks as nat, cell as nat, label@, entries_view(old(entries)@)) {
            Ok(next) => r is Ok && entries_view(final(entries)@) == next,
            Err(m) => r matches Err(x) && x@ == m,
        },
        strictly_ordered(entries_view(final(entries)@)),
        final(entries)@.len() > 0 ==> final(entries)@.last().tick <= (k + 1) * cycle_ticks,
{
    let ghost p = pattern@;
    let ghost ct = cycle_ticks as nat;
    proof {
        assert(k * cycle_ticks + cycle_ticks == (k + 1) * cycle_ticks) by (nonlinear_arith);
        assert(k * cycle_ticks <= (k + 1) * cycle_ticks) by (nonlinear_arith);
    }
    let base = k * cycle_ticks;
    let evs = pattern.cycle(k);
    let tevs = match pattern.ticks(k, cycle_ticks) {
        Ok(v) => v,
        Err(e) => {
            proof {
                assert(false);
            }
            return Err(e);
        },
    };
    let ghost start_entries = entries_view(entries@);
    proof {
        assert(crate::music::notation::pattern::events_view(evs@).len() == evs@.len());
        assert(crate::music::notation::pattern::tick_events_view(tevs@).len() == tevs@.len());
    }
    let mut i: usize = 0;
    while i < evs.len()
        invariant
            i <= evs@.len(),
            evs@.len() == tevs@.len(),
            p == pattern@,
            ct == cycle_ticks,
            cell > 0,
            base == k * cycle_ticks,
            base + cycle_ticks <= u64::MAX,
            crate::music::notation::pattern::events_view(evs@) == cycle_events(p, k as nat),
            crate::music::notation::pattern::tick_events_view(tevs@) == cycle_tick_events(p, k as nat, ct),
            forall|j: int| 0 <= j < evs@.len() ==> 0 < (#[trigger] evs@[j]).onset.den && evs@[j].onset.num <= evs@[j].onset.den,
            forall|j: int| 0 <= j < tevs@.len() ==> k * cycle_ticks <= (#[trigger] tevs@[j]).tick <= (k + 1) * cycle_ticks,
            forall|a: int, b: int| 0 <= a < b < tevs@.len() ==> (#[trigger] tevs@[a]).tick <= (#[trigger] tevs@[b]).tick,
            start_entries == entries_view(old(entries)@),
            scan_cycle(p, k as nat, 0, ct, cell as nat, label@, start_entries)
                == scan_cycle(p, k as nat, i as int, ct, cell as nat, label@, entries_view(entries@)),
            strictly_ordered(entries_view(entries@)),
            entries@.len() > 0 ==> entries@.last().tick <= (if i == 0 { base } else { tevs@[i - 1].tick }),
        decreases evs@.len() - i,
    {
        proof {
            assert(crate::music::notation::pattern::events_view(evs@)[i as int] == evs@[i as int]@);
            assert(crate::music::notation::pattern::tick_events_view(tevs@)[i as int] == tevs@[i as int]@);
            if entries@.len() > 0 && i > 0 {
                assert(tevs@[i - 1].tick <= tevs@[i as int].tick);
            }
        }
        let ghost cur = entries_view(entries@);
        match take_one(&evs[i], &tevs[i], k, base, cycle_ticks, cell, label, entries) {
            Ok(()) => {},
            Err(m) => {
                proof {
                    assert(scan_cycle(p, k as nat, i as int, ct, cell as nat, label@, cur) == Err::<Seq<(nat, Attack)>, Seq<char>>(m@));
                }
                return Err(m);
            },
        }
        i += 1;
    }
    proof {
        if entries@.len() > 0 && i > 0 {
            assert(tevs@[i - 1].tick <= (k + 1) * cycle_ticks);
        }
    }
    Ok(())
}

impl Clone for Schedule {
    fn clone(&self) -> (r: Schedule)
        ensures
            r@ == self@,
    {
        proof {
            use_type_invariant(self);
        }
        let mut entries: Vec<Entry> = Vec::new();
        let mut i: usize = 0;
        while i < self.entries.len()
            invariant
                i <= self.entries@.len(),
                entries@.len() == i,
                forall|j: int| 0 <= j < i ==> #[trigger] entries@[j] == self.entries@[j],
            decreases self.entries@.len() - i,
        {
            entries.push(Entry { tick: self.entries[i].tick, attack: self.entries[i].attack });
            i += 1;
        }
        proof {
            assert(entries@ =~= self.entries@);
        }
        Schedule { period_ticks: self.period_ticks, rotation_ticks: self.rotation_ticks, entries }
    }
}

impl Schedule {
    #[verifier::type_invariant]
    closed spec fn well_formed(self) -> bool {
        &&& self.period_ticks > 0
        &&& self.rotation_ticks < self.period_ticks
        &&& strictly_ordered(entries_view(self.entries@))
    }

    /// Prepares literal `text`; an error names the literal it came from.
    pub fn prepare(text: &str, cycle_bars: u32, subdivision: NoteValue, rotate: i32) -> (r: Result<Schedule, String>)
        ensures
            r matches Ok(s) ==> schedule_of(text@, cycle_bars, subdivision.0, rotate) == Ok::<ScheduleV, Seq<char>>(s@),
            r matches Ok(s) ==> s@.period > 0 && s@.rotation < s@.period && strictly_ordered(s@.entries),
            r matches Err(e) ==> exists|why: Seq<char>| schedule_of(text@, cycle_bars, subdivision.0, rotate) == Err::<ScheduleV, Seq<char>>(why)
                && e@ == prepare_error(text@, why),
    {
        match Self::build(text, cycle_bars, subdivision, rotate) {
            Ok(s) => Ok(s),
            Err(why) => {
                let mut m = String::from_str("literal pattern ");
                let q = quoted(text);
                m.append(q.as_str());
                m.append(": ");
                m.append(why.as_str());
                proof {
                    reveal_strlit("literal pattern ");
                    reveal_strlit(": ");
                    assert(m@ =~= prepare_error(text@, why@));
                }
                Err(m)
            },
        }
    }

    fn build(text: &str, cycle_bars: u32, subdivision: NoteValue, rotate: i32) -> (r: Result<Schedule, String>)
        ensures
            r matches Ok(s) ==> schedule_of(text@, cycle_bars, subdivision.0, rotate) == Ok::<ScheduleV, Seq<char>>(s@),
            r matches Ok(s) ==> s@.period > 0 && s@.rotation < s@.period && strictly_ordered(s@.entries),
            r matches Err(e) ==> schedule_of(text@, cycle_bars, subdivision.0, rotate) == Err::<ScheduleV, Seq<char>>(e@),
    {
        proof {
            reveal_strlit("cycle_bars must be positive");
            reveal_strlit("subdivision must be a supported note value");
            reveal_strlit("a trigger schedule accepts only hits (x) and rests (~)");
            reveal_strlit("prepared period exceeds 4096 cycles");
            reveal_strlit("preparation work bound exceeds 1048576 renderer visits; simplify the pattern or shorten its period");
            reveal_strlit("prepared event bound exceeds 65536; simplify the pattern or shorten its period");
            reveal_strlit("prepared period exceeds the u64 tick grid");
        }
        if cycle_bars == 0 {
            return Err(owned("cycle_bars must be positive"));
        }
        if !subdivision.valid() {
            return Err(owned("subdivision must be a supported note value"));
        }
        let pattern = match Pattern::parse(text) {
            Ok(p) => p,
            Err(e) => return Err(e),
        };
        let kinds = pattern.kinds();
        if kinds.numbers || kinds.notes || kinds.names {
            return Err(owned("a trigger schedule accepts only hits (x) and rests (~)"));
        }
        let cycles = match pattern.period_cycles() {
            Some(n) => {
                if n > MAX_CYCLES {
                    return Err(owned("prepared period exceeds 4096 cycles"));
                }
                n
            },
            None => return Err(owned("prepared period exceeds 4096 cycles")),
        };
        let (work, events) = pattern.render_bounds();
        let too_much = match work.checked_mul(cycles) {
            Some(n) => n > MAX_PREPARE_WORK,
            None => true,
        };
        if too_much {
            return Err(owned("preparation work bound exceeds 1048576 renderer visits; simplify the pattern or shorten its period"));
        }
        let too_many = match events.checked_mul(cycles) {
            Some(n) => n > MAX_PREPARE_EVENTS,
            None => true,
        };
        if too_many {
            return Err(owned("prepared event bound exceeds 65536; simplify the pattern or shorten its period"));
        }
        let cycle_ticks = (cycle_bars as u64) * 4 * PPQN;
        let period_ticks = match cycle_ticks.checked_mul(cycles) {
            Some(p) => p,
            None => return Err(owned("prepared period exceeds the u64 tick grid")),
        };
        let cell = subdivision.0;
        let label = subdivision.label();
        proof {
            lemma_note_value_positive(cell as nat);
        }
        let ghost p = pattern@;
        let ghost ct = cycle_ticks as nat;
        let ghost lab = label@;
        let mut entries: Vec<Entry> = Vec::new();
        let mut k: u64 = 0;
        proof {
            assert(entries_view(entries@) =~= Seq::<(nat, Attack)>::empty());
            assert(cell == subdivision.0);
            assert(lab == note_label(cell as nat));
            assert(ct == (cycle_bars as nat) * 4 * (PPQN as nat));
            assert(schedule_of(text@, cycle_bars, subdivision.0, rotate)
                == finish(scan_cycles(p, 0, cycles as nat, ct, cell as nat, lab, Seq::empty()), period_ticks as nat, cell as nat, rotate, lab));
        }
        while k < cycles
            invariant
                k <= cycles,
                cycles <= MAX_CYCLES,
                p == pattern@,
                ct == cycle_ticks,
                lab == label@,
                cell > 0,
                period_ticks == cycle_ticks * cycles,
                scan_cycles(p, 0, cycles as nat, ct, cell as nat, lab, Seq::empty())
                    == scan_cycles(p, k as nat, cycles as nat, ct, cell as nat, lab, entries_view(entries@)),
                schedule_of(text@, cycle_bars, subdivision.0, rotate)
                    == finish(scan_cycles(p, 0, cycles as nat, ct, cell as nat, lab, Seq::empty()), period_ticks as nat, cell as nat, rotate, lab),
                strictly_ordered(entries_view(entries@)),
                entries@.len() > 0 ==> entries@.last().tick <= k * cycle_ticks,
            decreases cycles - k,
        {
            proof {
                assert((k + 1) * cycle_ticks <= cycles * cycle_ticks) by (nonlinear_arith)
                    requires k < cycles;
                assert(k * cycle_ticks + cycle_ticks == (k + 1) * cycle_ticks) by (nonlinear_arith);
            }
            let ghost cur = entries_view(entries@);
            match scan_one_cycle(&pattern, k, cycle_ticks, cell, &label, &mut entries) {
                Ok(()) => {},
                Err(m) => {
                    proof {
                        assert(scan_cycles(p, k as nat, cycles as nat, ct, cell as nat, lab, cur) == Err::<Seq<(nat, Attack)>, Seq<char>>(m@));
                    }
                    return Err(m);
                },
            }
            proof {
                assert(k * cycle_ticks <= (k + 1) * cycle_ticks) by (nonlinear_arith);
            }
            k += 1;
        }
        proof {
            assert(scan_cycles(p, 0, cycles as nat, ct, cell as nat, lab, Seq::empty())
                == Ok::<Seq<(nat, Attack)>, Seq<char>>(entries_view(entries@)));
        }
        if entries.len() > 0 && period_ticks % cell != 0 {
            proof {
                assert(entries_view(entries@)[0].0 == entries@[0].tick);
            }
            return Err(next_period_message(period_ticks as u128 + entries[0].tick as u128, &label));
        }
        proof {
            assert((rotate as int) * (cell as int) <= i32::MAX * u64::MAX) by (nonlinear_arith)
                requires rotate <= i32::MAX, cell <= u64::MAX, cell > 0;
            assert((rotate as int) * (cell as int) >= i32::MIN * u64::MAX) by (nonlinear_arith)
                requires rotate >= i32::MIN, cell <= u64::MAX, cell > 0;
            assert(cycle_ticks * cycles > 0) by (nonlinear_arith) requires cycle_ticks > 0, cycles > 0;
        }
        let rotation_ticks = euclid_mod((rotate as i128) * (cell as i128), period_ticks) as u64;
        Ok(Schedule { period_ticks, rotation_ticks, entries })
    }

    pub fn period_ticks(&self) -> (r: u64)
        ensures
            r == self@.period,
            r > 0,
    {
        proof {
            use_type_invariant(self);
        }
        self.period_ticks
    }

    /// Exact main onset lookup at an absolute transport tick. Tails are metadata of their
    /// source attack and do not become new main onsets in this schedule.
    pub fn at(&self, tick: u64) -> (r: Option<Attack>)
        ensures
            r == attack_at(self@, source_phase(self@, tick as nat)),
    {
        self.at_wide(tick as u128)
    }

    /// The lookup of `at`, for a tick that may lie past the `u64` grid.
    fn at_wide(&self, tick: u128) -> (r: Option<Attack>)
        ensures
            r == attack_at(self@, source_phase(self@, tick as nat)),
    {
        proof {
            use_type_invariant(self);
        }
        let phase = (tick % (self.period_ticks as u128)) as u64;
        let source = if phase >= self.rotation_ticks {
            phase - self.rotation_ticks
        } else {
            self.period_ticks - (self.rotation_ticks - phase)
        };
        proof {
            let t = tick as int;
            let r = self.rotation_ticks as int;
            let n = self.period_ticks as int;
            vstd::arithmetic::div_mod::lemma_fundamental_div_mod(t, n);
            assert((t / n) * n == n * (t / n)) by (nonlinear_arith);
            assert((t / n - 1) * n == n * (t / n) - n) by (nonlinear_arith);
            assert(phase as int == t % n);
            if phase >= self.rotation_ticks {
                vstd::arithmetic::div_mod::lemma_fundamental_div_mod_converse(t - r, n, t / n, phase - r);
            } else {
                vstd::arithmetic::div_mod::lemma_fundamental_div_mod_converse(t - r, n, t / n - 1, n - (r - phase));
            }
        }
        self.lookup(source)
    }

    /// The attack whose onset is exactly `phase`, by binary search over the ordered onsets.
    fn lookup(&self, phase: u64) -> (r: Option<Attack>)
        ensures
            r == attack_at(self@, phase as nat),
    {
        proof {
            use_type_invariant(self);
        }
        let ghost e = entries_view(self.entries@);
        let mut lo: usize = 0;
        let mut hi: usize = self.entries.len();
        while lo < hi
            invariant
                e == entries_view(self.entries@),
                strictly_ordered(e),
                lo <= hi <= e.len(),
                forall|i: int| 0 <= i < lo ==> (#[trigger] e[i]).0 < phase,
                forall|i: int| hi <= i < e.len() ==> (#[trigger] e[i]).0 > phase,
            decreases hi - lo,
        {
            let mid = lo + (hi - lo) / 2;
            let t = self.entries[mid].tick;
            proof {
                assert(e[mid as int].0 == t);
            }
            if t == phase {
                proof {
                    assert(self@.entries == e);
                    assert(e[mid as int].1 == self.entries@[mid as int].attack);
                    assert(0 <= mid < e.len() && e[mid as int].0 == phase);
                    let w = choose|i: int| 0 <= i < e.len() && (#[trigger] e[i]).0 == phase;
                    if w < mid {
                        assert(e[w].0 < e[mid as int].0);
                    } else if w > mid {
                        assert(e[mid as int].0 < e[w].0);
                    }
                }
                return Some(self.entries[mid].attack);
            } else if t < phase {
                proof {
                    assert forall|i: int| 0 <= i < mid + 1 implies (#[trigger] e[i]).0 < phase by {
                        if i < mid {
                            assert(e[i].0 < e[mid as int].0);
                        }
                    }
                }
                lo = mid + 1;
            } else {
                proof {
                    assert forall|i: int| mid <= i < e.len() implies (#[trigger] e[i]).0 > phase by {
                        if i > mid {
                            assert(e[mid as int].0 < e[i].0);
                        }
                    }
                }
                hi = mid;
            }
        }
        proof {
            assert(self@.entries == e);
            assert(!exists|i: int| 0 <= i < e.len() && (#[trigger] e[i]).0 == phase);
        }
        None
    }
}

/// A literal's schedule, with the authored fields it was prepared from.
#[derive(Clone, Debug)]
pub struct Prepared {
    pattern: String,
    cycle_bars: u32,
    rotate: i32,
    cell: NoteValue,
    schedule: Schedule,
}

/// A prepared literal as values.
pub struct PreparedV {
    pub pattern: Seq<char>,
    pub cycle_bars: u32,
    pub rotate: i32,
    pub cell: u64,
    pub schedule: ScheduleV,
}

impl View for Prepared {
    type V = PreparedV;

    closed spec fn view(&self) -> PreparedV {
        PreparedV {
            pattern: self.pattern@,
            cycle_bars: self.cycle_bars,
            rotate: self.rotate,
            cell: self.cell.0,
            schedule: self.schedule@,
        }
    }
}

/// The main onset a prepared literal holds at Part step `step`, whose tick is `step * cell`.
pub open spec fn step_attack(p: PreparedV, step: nat) -> Option<Attack> {
    attack_at(p.schedule, source_phase(p.schedule, step * (p.cell as nat)))
}

impl Prepared {
    /// Prepares `pattern` at composition load, on a grid of `cell` ticks.
    pub fn new(pattern: &str, cycle_bars: u32, cell: NoteValue, rotate: i32) -> (r: Result<Prepared, String>)
        ensures
            r matches Ok(p) ==> p@.pattern == pattern@ && p@.cycle_bars == cycle_bars && p@.rotate == rotate
                && p@.cell == cell.0 && schedule_of(pattern@, cycle_bars, cell.0, rotate) == Ok::<ScheduleV, Seq<char>>(p@.schedule),
            r matches Err(e) ==> exists|why: Seq<char>| schedule_of(pattern@, cycle_bars, cell.0, rotate) == Err::<ScheduleV, Seq<char>>(why)
                && e@ == prepare_error(pattern@, why),
    {
        match Schedule::prepare(pattern, cycle_bars, cell, rotate) {
            Ok(schedule) => Ok(Prepared { pattern: String::from_str(pattern), cycle_bars, rotate, cell, schedule }),
            Err(e) => Err(e),
        }
    }

    /// Whether this preparation was made from exactly these authored fields.
    pub fn matches(&self, pattern: &str, cycle_bars: u32, rotate: i32) -> (r: bool)
        ensures
            r == (self@.pattern == pattern@ && self@.cycle_bars == cycle_bars && self@.rotate == rotate),
    {
        self.cycle_bars == cycle_bars && self.rotate == rotate && same_text(self.pattern.as_str(), pattern)
    }

    pub fn schedule(&self) -> (r: &Schedule)
        ensures
            r@ == self@.schedule,
    {
        &self.schedule
    }

    /// The main onset at Part step `step`; the tick `step * cell` may lie past the `u64` grid.
    pub fn at_step(&self, step: u64) -> (r: Option<Attack>)
        ensures
            r == step_attack(self@, step as nat),
    {
        proof {
            assert((step as nat) * (self.cell.0 as nat) <= u64::MAX * u64::MAX) by (nonlinear_arith)
                requires step <= u64::MAX, self.cell.0 <= u64::MAX;
        }
        self.schedule.at_wide((step as u128) * (self.cell.0 as u128))
    }
}

} // verus!
