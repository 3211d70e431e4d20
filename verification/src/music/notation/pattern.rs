//! One cycle of material, parsed once and rendered per cycle index.
use vstd::prelude::*;

use super::{
    atom_view, lemma_alt_view, lemma_poly_view, lemma_stack_view, seq_view, stack_view, step_view,
    Atom, AtomV, Draw, Event, Shape, Step, StepV, TickEvent, Token, TokenKinds, TokenV,
};
use super::bounds::{check_bounds, lcm, lcm128, stack_bounds_from, zero_cost, Cost, seq_bounds,
    cost_add, agrees_cost, MAX_EVENTS};
use super::grammar::{fail_at, here, skip_ws, stack};
use super::marks::{lemma_cycle_placed, lemma_parsed_marked, stack_marked};
use super::size::lemma_cycle_size;
use super::parser::{lemma_skip_ws, Parser};
use super::render::{
    all_ok, lemma_stack_from_ok, placement_ok, placements_view, render_seq, render_seq_exec, render_top,
    insert_by_onset, sort_by_onset, onset_le, Inherit, Placed, Placement,
};
use crate::music::ratio::{divisor, lemma_div_le, lemma_gcd_divides, reduced, Ratio};
use crate::text::push_decimal;

verus! {

/// One sounding position, as a value.
pub struct EventV {
    pub onset: Ratio,
    pub span: Ratio,
    pub token: TokenV,
    pub ratchet: u8,
    pub draw: Draw,
}

impl View for Event {
    type V = EventV;

    open spec fn view(&self) -> EventV {
        EventV { onset: self.onset, span: self.span, token: self.token@, ratchet: self.ratchet, draw: self.draw }
    }
}

pub open spec fn events_view(v: Seq<Event>) -> Seq<EventV> {
    Seq::new(v.len(), |i: int| v[i]@)
}

/// A placement as an event: onset and span in lowest terms.
pub open spec fn to_event(p: Placed) -> EventV {
    EventV {
        onset: reduced(p.start, p.acc),
        span: reduced(p.span, p.acc),
        token: p.token,
        ratchet: p.ratchet,
        draw: p.draw,
    }
}

/// The events of cycle `k` of a parsed pattern, ordered by onset, simultaneous events in
/// source order.
pub open spec fn cycle_events(p: Seq<Seq<StepV>>, k: nat) -> Seq<EventV> {
    let s = sort_by_onset(render_top(p, 0, k));
    Seq::new(s.len(), |i: int| to_event(s[i]))
}

/// One event on the tick grid, as a value.
pub struct TickEventV {
    pub tick: nat,
    pub span_ticks: nat,
    pub token: TokenV,
    pub ratchet: u8,
    pub draw: Draw,
    pub tails: Seq<nat>,
}

impl View for TickEvent {
    type V = TickEventV;

    open spec fn view(&self) -> TickEventV {
        TickEventV {
            tick: self.tick as nat,
            span_ticks: self.span_ticks as nat,
            token: self.token@,
            ratchet: self.ratchet,
            draw: self.draw,
            tails: Seq::new(self.tails@.len(), |i: int| self.tails@[i] as nat),
        }
    }
}

pub open spec fn tick_events_view(v: Seq<TickEvent>) -> Seq<TickEventV> {
    Seq::new(v.len(), |i: int| v[i]@)
}

/// A placement on the tick grid of cycle `k`: `tick = k * cycle + floor(cycle * onset)`, the
/// span from the floored onset to the floored end, and ratchet tails spread over that span.
pub open spec fn to_tick_event(p: Placed, k: nat, cycle_ticks: nat) -> TickEventV {
    let onset = cycle_ticks * p.start / p.acc;
    let end = cycle_ticks * (p.start + p.span) / p.acc;
    let tick = k * cycle_ticks + onset;
    let span_ticks = (end - onset) as nat;
    let n: nat = if p.ratchet >= 1 { p.ratchet as nat } else { 1 };
    TickEventV {
        tick,
        span_ticks,
        token: p.token,
        ratchet: p.ratchet,
        draw: p.draw,
        tails: Seq::new(
            (n - 1) as nat,
            |i: int| tick + span_ticks / n * ((i + 1) as nat) + span_ticks % n * ((i + 1) as nat) / n,
        ),
    }
}

pub open spec fn cycle_tick_events(p: Seq<Seq<StepV>>, k: nat, cycle_ticks: nat) -> Seq<TickEventV> {
    let s = sort_by_onset(render_top(p, 0, k));
    Seq::new(s.len(), |i: int| to_tick_event(s[i], k, cycle_ticks))
}

/// The message for a cycle whose end is not on the `u64` tick grid.
pub open spec fn past_grid(k: u64, cycle_ticks: u64) -> Seq<char> {
    "cycle "@ + crate::text::decimal(k as nat) + " at "@ + crate::text::decimal(cycle_ticks as nat)
        + " ticks per cycle is past the end of the u64 tick grid"@
}

/// The whole text parsed as a pattern, then its cost checked: the material and its cost, or
/// the message of the first error.
pub open spec fn parse_pattern(s: Seq<char>) -> Result<(Seq<Seq<StepV>>, Cost), Seq<char>> {
    match stack(s, 0, 0) {
        Err(e) => Err(e),
        Ok((seqs, p)) => {
            let q = skip_ws(s, p);
            if q < s.len() {
                Err(fail_at(q, "unexpected "@ + here(s, q)))
            } else {
                match stack_bounds_from(seqs, 0, 1, zero_cost()) {
                    Err(e) => Err(e),
                    Ok(c) => Ok((seqs, c)),
                }
            }
        },
    }
}

/// The token kinds of steps `i..`, added to `k`.
pub open spec fn seq_kinds(steps: Seq<StepV>, i: int, k: TokenKinds) -> TokenKinds
    decreases steps, steps.len() - i,
{
    if i < 0 || i >= steps.len() {
        k
    } else {
        seq_kinds(steps, i + 1, atom_kinds(steps[i].atom, k))
    }
}

/// The token kinds of a step's material, added to `k`.
pub open spec fn atom_kinds(a: AtomV, k: TokenKinds) -> TokenKinds
    decreases a, 0int,
{
    match a {
        AtomV::Rest => k,
        AtomV::Token(TokenV::Hit) => TokenKinds { hits: true, ..k },
        AtomV::Token(TokenV::Number(_)) => TokenKinds { numbers: true, ..k },
        AtomV::Token(TokenV::Note { .. }) => TokenKinds { notes: true, ..k },
        AtomV::Token(TokenV::Name(_)) => TokenKinds { names: true, ..k },
        AtomV::Stack(seqs) => stack_kinds(seqs, 0, k),
        AtomV::Alt(elems) => seq_kinds(elems, 0, k),
        AtomV::Poly { steps, .. } => seq_kinds(steps, 0, k),
    }
}

/// The token kinds of stacked sequences `j..`, added to `k`.
pub open spec fn stack_kinds(seqs: Seq<Seq<StepV>>, j: int, k: TokenKinds) -> TokenKinds
    decreases seqs, seqs.len() - j,
{
    if j < 0 || j >= seqs.len() {
        k
    } else {
        stack_kinds(seqs, j + 1, seq_kinds(seqs[j], 0, k))
    }
}

pub open spec fn no_kinds() -> TokenKinds {
    TokenKinds { hits: false, numbers: false, notes: false, names: false }
}

/// What a pattern is made of, as a value.
pub struct ShapeV {
    pub tokens: Seq<TokenV>,
    pub stacked: bool,
    pub ratchet: bool,
    pub draw: bool,
}

/// The shape of steps `i..`, added to `sh`.
pub open spec fn seq_shape(steps: Seq<StepV>, i: int, sh: ShapeV) -> ShapeV
    decreases steps, steps.len() - i,
{
    if i < 0 || i >= steps.len() {
        sh
    } else {
        let s = steps[i];
        let sh1 = ShapeV { ratchet: sh.ratchet || s.ratchet is Some, draw: sh.draw || s.draw, ..sh };
        seq_shape(steps, i + 1, atom_shape(s.atom, sh1))
    }
}

pub open spec fn atom_shape(a: AtomV, sh: ShapeV) -> ShapeV
    decreases a, 0int,
{
    match a {
        AtomV::Rest => sh,
        AtomV::Token(t) => ShapeV { tokens: sh.tokens.push(t), ..sh },
        AtomV::Stack(seqs) => stack_shape(seqs, 0, ShapeV { stacked: sh.stacked || seqs.len() > 1, ..sh }),
        AtomV::Alt(elems) => seq_shape(elems, 0, sh),
        AtomV::Poly { steps, .. } => seq_shape(steps, 0, sh),
    }
}

pub open spec fn stack_shape(seqs: Seq<Seq<StepV>>, j: int, sh: ShapeV) -> ShapeV
    decreases seqs, seqs.len() - j,
{
    if j < 0 || j >= seqs.len() {
        sh
    } else {
        stack_shape(seqs, j + 1, seq_shape(seqs[j], 0, sh))
    }
}

/// The shape of a whole pattern: every token it can ever produce, in source order, and
/// which constructs it uses.
pub open spec fn pattern_shape(p: Seq<Seq<StepV>>) -> ShapeV {
    stack_shape(p, 0, ShapeV { tokens: Seq::empty(), stacked: p.len() > 1, ratchet: false, draw: false })
}

/// `lcm(a, b)` when it fits in `u64`.
pub open spec fn lcm64_spec(a: nat, b: nat) -> Option<nat> {
    match lcm128(a, b) {
        Some(v) => if v <= u64::MAX { Some(v) } else { None },
        None => None,
    }
}

/// The period of steps `i..`, folded into `acc`; none when it leaves `u64`.
pub open spec fn seq_period(steps: Seq<StepV>, i: int, acc: nat) -> Option<nat>
    decreases steps, steps.len() - i,
{
    if i < 0 || i >= steps.len() {
        Some(acc)
    } else {
        match atom_period(steps[i].atom, acc) {
            None => None,
            Some(a) => seq_period(steps, i + 1, a),
        }
    }
}

pub open spec fn atom_period(a: AtomV, acc: nat) -> Option<nat>
    decreases a, 0int,
{
    match a {
        AtomV::Rest => Some(acc),
        AtomV::Token(_) => Some(acc),
        AtomV::Stack(seqs) => stack_period(seqs, 0, acc),
        AtomV::Alt(elems) => match lcm64_spec(acc, elems.len()) {
            None => None,
            Some(a) => seq_period(elems, 0, a),
        },
        AtomV::Poly { steps, per_cycle } => match lcm64_spec(steps.len(), per_cycle as nat) {
            None => None,
            Some(l) => match lcm64_spec(acc, l / (per_cycle as nat)) {
                None => None,
                Some(a) => seq_period(steps, 0, a),
            },
        },
    }
}

pub open spec fn stack_period(seqs: Seq<Seq<StepV>>, j: int, acc: nat) -> Option<nat>
    decreases seqs, seqs.len() - j,
{
    if j < 0 || j >= seqs.len() {
        Some(acc)
    } else {
        match seq_period(seqs[j], 0, acc) {
            None => None,
            Some(a) => stack_period(seqs, j + 1, a),
        }
    }
}

/// One cycle of material, parsed once and rendered per cycle index.
#[derive(Debug)]
pub struct Pattern {
    stack: Vec<Vec<Step>>,
    cost: Cost,
}

impl View for Pattern {
    type V = Seq<Seq<StepV>>;

    closed spec fn view(&self) -> Seq<Seq<StepV>> {
        stack_view(self.stack@)
    }
}

impl Pattern {
    #[verifier::type_invariant]
    closed spec fn renders(self) -> bool {
        &&& forall|i: int| 0 <= i < self.stack@.len() ==> (#[trigger] seq_bounds(seq_view(self.stack@[i]@), 1)) is Ok
        &&& stack_marked(stack_view(self.stack@), 0)
        &&& stack_bounds_from(stack_view(self.stack@), 0, 1, zero_cost()) == Ok::<Cost, Seq<char>>(self.cost)
    }

    /// The worst-case cost of one cycle, as proved at parse.
    pub closed spec fn cost_spec(self) -> Cost {
        self.cost
    }

    /// Parses a complete pattern and proves its cost is bounded.
    pub fn parse(text: &str) -> (r: Result<Pattern, String>)
        ensures
            r matches Ok(p) ==> parse_pattern(text@) == Ok::<(Seq<Seq<StepV>>, Cost), Seq<char>>((p@, p.cost_spec())),
            r matches Ok(p) ==> stack_marked(p@, 0),
            r matches Err(e) ==> parse_pattern(text@) == Err::<(Seq<Seq<StepV>>, Cost), Seq<char>>(e@),
    {
        let mut p = Parser::new(text);
        let ghost src = p.src@;
        let stack = match p.parse_stack() {
            Ok(s) => s,
            Err(e) => return Err(e),
        };
        proof {
            lemma_parsed_marked(src);
        }
        let ghost p1 = p.pos as int;
        p.skip_whitespace();
        proof {
            lemma_skip_ws(p.src@, p1);
        }
        if p.pos < p.src.len() {
            return Err(p.fail_unexpected());
        }
        let cost = match stack_cost(&stack) {
            Ok(c) => c,
            Err(e) => return Err(e),
        };
        proof {
            let v = stack_view(stack@);
            lemma_stack_from_ok(v, 0, 1, zero_cost());
            assert forall|j: int| 0 <= j < stack@.len() implies (#[trigger] seq_bounds(seq_view(stack@[j]@), 1)) is Ok by {
                assert(v[j] == seq_view(stack@[j]@));
            }
        }
        Ok(Pattern { stack, cost })
    }

    /// Events of cycle `k`, sorted by onset; simultaneous events keep source order.
    pub fn cycle(&self, k: u64) -> (events: Vec<Event>)
        ensures
            events_view(events@) == cycle_events(self@, k as nat),
            forall|i: int| 0 <= i < events@.len() ==> 0 < (#[trigger] events@[i]).onset.den && events@[i].onset.num <= events@[i].onset.den,
            forall|i: int, j: int| 0 <= i < j < events@.len() ==>
                (#[trigger] events@[i]).onset.num * (#[trigger] events@[j]).onset.den <= events@[j].onset.num * events@[i].onset.den,
            forall|i: int| 0 <= i < events@.len() ==> 0 < (#[trigger] events@[i]).span.den
                && events@[i].onset.num * events@[i].span.den + events@[i].span.num * events@[i].onset.den
                    <= events@[i].onset.den * events@[i].span.den,
            forall|i: int| 0 <= i < events@.len() ==> ((#[trigger] events@[i]).draw == Draw::Hit ==> events@[i].ratchet == 1)
                && (events@[i].draw == Draw::Tail ==> events@[i].ratchet >= 2),
            forall|i: int| 0 <= i < events@.len() ==> 0 < (#[trigger] events@[i]).span.num,
            events@.len() <= self.cost_spec().events,
            events@.len() <= MAX_EVENTS,
    {
        proof {
            use_type_invariant(self);
            lemma_cycle_placed(self@, k as nat);
            lemma_cycle_size(self@, k as nat);
        }
        let placed = self.placements(k);
        let mut events: Vec<Event> = Vec::new();
        let mut i: usize = 0;
        while i < placed.len()
            invariant
                i <= placed@.len(),
                all_ok(placed@),
                placements_view(placed@) == sort_by_onset(render_top(self@, 0, k as nat)),
                events@.len() == i,
                forall|j: int| 0 <= j < i ==> #[trigger] events@[j]@ == to_event(placed@[j]@),
            decreases placed@.len() - i,
        {
            let p = &placed[i];
            proof {
                assert(placement_ok(placed@[i as int]));
                lemma_gcd_divides(p.start as nat, p.acc as nat);
                lemma_div_le(p.start as nat, divisor(p.start as nat, p.acc as nat));
                lemma_div_le(p.acc as nat, divisor(p.start as nat, p.acc as nat));
                lemma_gcd_divides(p.span as nat, p.acc as nat);
                lemma_div_le(p.span as nat, divisor(p.span as nat, p.acc as nat));
                lemma_div_le(p.acc as nat, divisor(p.span as nat, p.acc as nat));
            }
            let e = Event {
                onset: Ratio::reduce(p.start as u128, p.acc as u128),
                span: Ratio::reduce(p.span as u128, p.acc as u128),
                token: p.token.copy(),
                ratchet: p.ratchet,
                draw: p.draw,
            };
            events.push(e);
            i += 1;
        }
        proof {
            let s = sort_by_onset(render_top(self@, 0, k as nat));
            assert(events_view(events@) =~= Seq::new(s.len(), |i: int| to_event(s[i])));
            assert forall|i: int| 0 <= i < events@.len() implies ((#[trigger] events@[i]).draw == Draw::Hit ==> events@[i].ratchet == 1)
                && (events@[i].draw == Draw::Tail ==> events@[i].ratchet >= 2) by {
                assert(events@[i]@ == to_event(placed@[i]@));
                assert(placements_view(placed@)[i] == s[i]);
                assert(crate::music::notation::marks::placed_ok(s[i]));
            }
            assert forall|i: int| 0 <= i < events@.len() implies 0 < (#[trigger] events@[i]).span.num by {
                let c = placed@[i].span as nat;
                let b = placed@[i].acc as nat;
                assert(events@[i]@ == to_event(placed@[i]@));
                assert(placements_view(placed@)[i] == s[i]);
                assert(crate::music::notation::marks::placed_ok(s[i]));
                assert(placement_ok(placed@[i]));
                lemma_gcd_divides(c, b);
                lemma_div_le(c, divisor(c, b));
                lemma_div_le(b, divisor(c, b));
                crate::music::ratio::lemma_reduced_lowest_terms(c, b);
                let u = events@[i].span.num as nat;
                let v = events@[i].span.den as nat;
                assert(u > 0) by (nonlinear_arith)
                    requires
                        u * b == c * v,
                        c > 0,
                        v >= 1;
            }
            assert forall|i: int| 0 <= i < events@.len() implies 0 < (#[trigger] events@[i]).onset.den && events@[i].onset.num <= events@[i].onset.den by {
                assert(placement_ok(placed@[i]));
                assert(events@[i]@ == to_event(placed@[i]@));
                lemma_reduced_terms(placed@[i].start as nat, placed@[i].acc as nat);
            }
            assert forall|i: int, j: int| 0 <= i < j < events@.len() implies
                (#[trigger] events@[i]).onset.num * (#[trigger] events@[j]).onset.den <= events@[j].onset.num * events@[i].onset.den by {
                let pv = placements_view(placed@);
                assert(onset_le(pv[i], pv[j]));
                assert(placement_ok(placed@[i]) && placement_ok(placed@[j]));
                assert(events@[i]@ == to_event(placed@[i]@));
                assert(events@[j]@ == to_event(placed@[j]@));
                lemma_reduced_order(placed@[i].start as nat, placed@[i].acc as nat, placed@[j].start as nat, placed@[j].acc as nat);
            }
            assert forall|i: int| 0 <= i < events@.len() implies 0 < (#[trigger] events@[i]).span.den
                && events@[i].onset.num * events@[i].span.den + events@[i].span.num * events@[i].onset.den
                    <= events@[i].onset.den * events@[i].span.den by {
                let a = placed@[i].start as nat;
                let c = placed@[i].span as nat;
                let b = placed@[i].acc as nat;
                assert(placement_ok(placed@[i]));
                assert(events@[i]@ == to_event(placed@[i]@));
                lemma_gcd_divides(a, b);
                lemma_gcd_divides(c, b);
                lemma_div_le(a, divisor(a, b));
                lemma_div_le(b, divisor(a, b));
                lemma_div_le(c, divisor(c, b));
                lemma_div_le(b, divisor(c, b));
                crate::music::ratio::lemma_reduced_lowest_terms(a, b);
                crate::music::ratio::lemma_reduced_lowest_terms(c, b);
                let x = events@[i].onset.num as int;
                let y = events@[i].onset.den as int;
                let u = events@[i].span.num as int;
                let v = events@[i].span.den as int;
                assert(x * v + u * y <= y * v) by (nonlinear_arith)
                    requires
                        x * b == a * y,
                        u * b == c * v,
                        a + c <= b,
                        b > 0,
                        y >= 1,
                        v >= 1,
                        x >= 0,
                        u >= 0,
                {
                    assert((x * v + u * y) * b == (a + c) * y * v);
                    assert((a + c) * y * v <= b * y * v);
                }
            }
        }
        events
    }

    /// Cycle `k` on the tick grid: `tick = k * cycle_ticks + floor(cycle_ticks * onset)`.
    ///
    /// Fails when cycle `k` is not representable — when `(k + 1) * cycle_ticks` exceeds
    /// `u64`. Every event of a cycle ends within it, so that one check proves no tick, span or
    /// tail can overflow. Refusing is the contract: a saturated tick is a mistimed event that
    /// no consumer can tell from a real one.
    pub fn ticks(&self, k: u64, cycle_ticks: u64) -> (r: Result<Vec<TickEvent>, String>)
        ensures
            r is Err <==> (k as nat + 1) * (cycle_ticks as nat) > u64::MAX,
            r matches Err(e) ==> e@ == past_grid(k, cycle_ticks),
            r matches Ok(v) ==> tick_events_view(v@) == cycle_tick_events(self@, k as nat, cycle_ticks as nat),
            r matches Ok(v) ==> forall|i: int| 0 <= i < v@.len() ==>
                k * cycle_ticks <= (#[trigger] v@[i]).tick <= (k + 1) * cycle_ticks,
            r matches Ok(v) ==> forall|i: int, j: int| 0 <= i < j < v@.len() ==> (#[trigger] v@[i]).tick <= (#[trigger] v@[j]).tick,
    {
        proof {
            assert((k as nat + 1) * (cycle_ticks as nat) == k * cycle_ticks + cycle_ticks) by (nonlinear_arith);
        }
        if cycle_ticks != 0 && k > (u64::MAX - cycle_ticks) / cycle_ticks {
            proof {
                assert(k * cycle_ticks + cycle_ticks > u64::MAX) by (nonlinear_arith)
                    requires cycle_ticks > 0, k > (u64::MAX - cycle_ticks) as int / (cycle_ticks as int);
            }
            let mut e = String::from_str("cycle ");
            push_decimal(&mut e, k as u128);
            e.append(" at ");
            push_decimal(&mut e, cycle_ticks as u128);
            e.append(" ticks per cycle is past the end of the u64 tick grid");
            proof {
                assert(e@ =~= past_grid(k, cycle_ticks));
            }
            return Err(e);
        }
        proof {
            assert(k * cycle_ticks + cycle_ticks <= u64::MAX) by (nonlinear_arith)
                requires cycle_ticks == 0 || k <= (u64::MAX - cycle_ticks) as int / (cycle_ticks as int);
        }
        let base = k * cycle_ticks;
        let placed = self.placements(k);
        let mut events: Vec<TickEvent> = Vec::new();
        let mut i: usize = 0;
        while i < placed.len()
            invariant
                i <= placed@.len(),
                all_ok(placed@),
                base == k * cycle_ticks,
                base + cycle_ticks <= u64::MAX,
                placements_view(placed@) == sort_by_onset(render_top(self@, 0, k as nat)),
                events@.len() == i,
                forall|j: int| 0 <= j < i ==> #[trigger] events@[j]@ == to_tick_event(placed@[j]@, k as nat, cycle_ticks as nat),
            decreases placed@.len() - i,
        {
            let p = &placed[i];
            let e = tick_event(p, base, k, cycle_ticks);
            events.push(e);
            i += 1;
        }
        proof {
            let s = sort_by_onset(render_top(self@, 0, k as nat));
            assert(tick_events_view(events@) =~= Seq::new(s.len(), |i: int| to_tick_event(s[i], k as nat, cycle_ticks as nat)));
            assert((k + 1) * cycle_ticks == k * cycle_ticks + cycle_ticks) by (nonlinear_arith);
            assert forall|i: int| 0 <= i < events@.len() implies
                k * cycle_ticks <= (#[trigger] events@[i]).tick <= (k + 1) * cycle_ticks by {
                let q = placed@[i];
                assert(placement_ok(q));
                assert(events@[i]@ == to_tick_event(q@, k as nat, cycle_ticks as nat));
                assert(cycle_ticks * q.start <= cycle_ticks * q.acc) by (nonlinear_arith)
                    requires q.start <= q.acc;
                vstd::arithmetic::div_mod::lemma_div_is_ordered((cycle_ticks * q.start) as int, (cycle_ticks * q.acc) as int, q.acc as int);
                vstd::arithmetic::div_mod::lemma_div_by_multiple(cycle_ticks as int, q.acc as int);
            }
            assert forall|i: int, j: int| 0 <= i < j < events@.len() implies (#[trigger] events@[i]).tick <= (#[trigger] events@[j]).tick by {
                let pv = placements_view(placed@);
                assert(onset_le(pv[i], pv[j]));
                assert(placement_ok(placed@[i]) && placement_ok(placed@[j]));
                assert(events@[i]@ == to_tick_event(placed@[i]@, k as nat, cycle_ticks as nat));
                assert(events@[j]@ == to_tick_event(placed@[j]@, k as nat, cycle_ticks as nat));
                lemma_floor_order(cycle_ticks as nat, placed@[i].start as nat, placed@[i].acc as nat, placed@[j].start as nat, placed@[j].acc as nat);
            }
        }
        Ok(events)
    }

    pub fn kinds(&self) -> (k: TokenKinds)
        ensures
            k == stack_kinds(self@, 0, no_kinds()),
    {
        let mut k = TokenKinds { hits: false, numbers: false, notes: false, names: false };
        let ghost v = self@;
        let mut j: usize = 0;
        while j < self.stack.len()
            invariant
                j <= self.stack@.len(),
                v == stack_view(self.stack@),
                stack_kinds(v, 0, no_kinds()) == stack_kinds(v, j as int, k),
            decreases self.stack@.len() - j,
        {
            proof {
                assert(v[j as int] == seq_view(self.stack@[j as int]@));
            }
            k = kinds_of_steps(&self.stack[j], k);
            j += 1;
        }
        k
    }

    /// Every token the pattern can ever produce (each `< >` and `{ }` element, in source
    /// order), and which constructs it uses.
    pub fn shape(&self) -> (sh: Shape)
        ensures
            sh@ == pattern_shape(self@),
    {
        let mut sh = Shape { tokens: Vec::new(), stacked: self.stack.len() > 1, ratchet: false, draw: false };
        let ghost v = self@;
        proof {
            assert(sh@.tokens =~= Seq::<TokenV>::empty());
        }
        let ghost sh0 = sh@;
        let mut j: usize = 0;
        while j < self.stack.len()
            invariant
                j <= self.stack@.len(),
                v == stack_view(self.stack@),
                sh0 == (ShapeV { tokens: Seq::empty(), stacked: v.len() > 1, ratchet: false, draw: false }),
                stack_shape(v, 0, sh0) == stack_shape(v, j as int, sh@),
            decreases self.stack@.len() - j,
        {
            proof {
                assert(v[j as int] == seq_view(self.stack@[j as int]@));
            }
            shape_of_steps(&self.stack[j], &mut sh);
            j += 1;
        }
        sh
    }

    /// Cycles after which the pattern repeats: the lcm of every `< >` length and `{ }%n`
    /// period. None when that lcm exceeds `u64`.
    pub fn period_cycles(&self) -> (r: Option<u64>)
        ensures
            match r {
                Some(v) => stack_period(self@, 0, 1) == Some(v as nat) && v > 0,
                None => stack_period(self@, 0, 1) is None,
            },
    {
        let ghost v = self@;
        let mut acc: u64 = 1;
        let mut j: usize = 0;
        while j < self.stack.len()
            invariant
                j <= self.stack@.len(),
                v == stack_view(self.stack@),
                stack_period(v, 0, 1) == stack_period(v, j as int, acc as nat),
                acc > 0,
            decreases self.stack@.len() - j,
        {
            proof {
                assert(v[j as int] == seq_view(self.stack@[j as int]@));
            }
            acc = match period_of_steps(&self.stack[j], acc) {
                Some(a) => a,
                None => return None,
            };
            j += 1;
        }
        Some(acc)
    }

    /// The worst-case `(work, events)` of one cycle, as proved at parse.
    pub fn render_bounds(&self) -> (r: (u64, u64))
        ensures
            r == (self.cost_spec().work, self.cost_spec().events),
    {
        (self.cost.work, self.cost.events)
    }

    /// Every placement of cycle `k`, ordered by onset.
    fn placements(&self, k: u64) -> (v: Vec<Placement>)
        ensures
            all_ok(v@),
            placements_view(v@) == sort_by_onset(render_top(self@, 0, k as nat)),
            onset_sorted(placements_view(v@)),
    {
        proof {
            use_type_invariant(self);
        }
        let mut out: Vec<Placement> = Vec::new();
        let ghost sv = self@;
        let mut j: usize = 0;
        proof {
            assert(placements_view(out@) =~= Seq::<Placed>::empty());
        }
        while j < self.stack.len()
            invariant
                j <= self.stack@.len(),
                sv == stack_view(self.stack@),
                forall|i: int| 0 <= i < self.stack@.len() ==> (#[trigger] seq_bounds(seq_view(self.stack@[i]@), 1)) is Ok,
                all_ok(out@),
                placements_view(out@) + render_top(sv, j as int, k as nat) == render_top(sv, 0, k as nat),
            decreases self.stack@.len() - j,
        {
            let ghost before = placements_view(out@);
            proof {
                assert(sv[j as int] == seq_view(self.stack@[j as int]@));
                assert(seq_bounds(seq_view(self.stack@[j as int]@), 1) is Ok);
            }
            render_seq_exec(&self.stack[j], 0, 1, 1, k, Inherit { ratchet: None, draw: false }, &mut out);
            proof {
                let r = render_seq(sv[j as int], 0, 1, 1, k as nat, Inherit { ratchet: None, draw: false });
                let rest = render_top(sv, j + 1, k as nat);
                assert((before + r) + rest =~= before + (r + rest));
            }
            j += 1;
        }
        proof {
            assert(placements_view(out@) =~= render_top(sv, 0, k as nat));
        }
        sort_placements(&out)
    }
}

/// The cost of one cycle of every top-level sequence together.
fn stack_cost(stack: &Vec<Vec<Step>>) -> (r: Result<Cost, String>)
    ensures
        agrees_cost(r, stack_bounds_from(stack_view(stack@), 0, 1, zero_cost())),
{
    let ghost v = stack_view(stack@);
    let mut cost = Cost::zero();
    let mut i: usize = 0;
    while i < stack.len()
        invariant
            i <= stack@.len(),
            v == stack_view(stack@),
            stack_bounds_from(v, 0, 1, zero_cost()) == stack_bounds_from(v, i as int, 1, cost),
        decreases stack@.len() - i,
    {
        proof {
            assert(v[i as int] == seq_view(stack@[i as int]@));
        }
        let c = match check_bounds(&stack[i], 1) {
            Ok(c) => c,
            Err(e) => return Err(e),
        };
        cost = match cost.add(c) {
            Ok(c) => c,
            Err(e) => return Err(e),
        };
        i += 1;
    }
    Ok(cost)
}

impl View for Shape {
    type V = ShapeV;

    open spec fn view(&self) -> ShapeV {
        ShapeV {
            tokens: Seq::new(self.tokens@.len(), |i: int| self.tokens@[i]@),
            stacked: self.stacked,
            ratchet: self.ratchet,
            draw: self.draw,
        }
    }
}

fn kinds_of_steps(steps: &Vec<Step>, k: TokenKinds) -> (r: TokenKinds)
    ensures
        r == seq_kinds(seq_view(steps@), 0, k),
    decreases seq_view(steps@), 1int,
{
    let ghost v = seq_view(steps@);
    let ghost k0 = k;
    let mut k = k;
    let mut i: usize = 0;
    while i < steps.len()
        invariant
            i <= steps@.len(),
            v == seq_view(steps@),
            seq_kinds(v, 0, k0) == seq_kinds(v, i as int, k),
        decreases steps@.len() - i,
    {
        proof {
            assert(v[i as int] == step_view(steps@[i as int]));
            assert(v[i as int].atom == atom_view(steps@[i as int].atom));
            assert(decreases_to!(v => v[i as int]));
            assert(decreases_to!(v[i as int] => v[i as int].atom));
        }
        k = kinds_of_atom(&steps[i].atom, k);
        i += 1;
    }
    k
}

fn kinds_of_atom(a: &Atom, k: TokenKinds) -> (r: TokenKinds)
    ensures
        r == atom_kinds(atom_view(*a), k),
    decreases atom_view(*a), 0int,
{
    match a {
        Atom::Rest => k,
        Atom::Token(Token::Hit) => TokenKinds { hits: true, ..k },
        Atom::Token(Token::Number(_)) => TokenKinds { numbers: true, ..k },
        Atom::Token(Token::Note { .. }) => TokenKinds { notes: true, ..k },
        Atom::Token(Token::Name(_)) => TokenKinds { names: true, ..k },
        Atom::Stack(seqs) => {
            proof {
                lemma_stack_view(*seqs);
            }
            let ghost v = stack_view(seqs@);
            let ghost k0 = k;
            let mut k = k;
            let mut j: usize = 0;
            while j < seqs.len()
                invariant
                    j <= seqs@.len(),
                    v == stack_view(seqs@),
                    atom_view(*a) == AtomV::Stack(v),
                    stack_kinds(v, 0, k0) == stack_kinds(v, j as int, k),
                decreases seqs@.len() - j,
            {
                proof {
                    assert(v[j as int] == seq_view(seqs@[j as int]@));
                    assert(atom_view(*a)->Stack_0 == v);
                    assert(decreases_to!(atom_view(*a) => atom_view(*a)->Stack_0));
                    assert(decreases_to!(v => v[j as int]));
                }
                k = kinds_of_steps(&seqs[j], k);
                j += 1;
            }
            k
        },
        Atom::Alt(elems) => {
            proof {
                lemma_alt_view(*elems);
                assert(decreases_to!(atom_view(*a) => atom_view(*a)->Alt_0));
            }
            kinds_of_steps(elems, k)
        },
        Atom::Poly { steps, per_cycle } => {
            proof {
                lemma_poly_view(*steps, *per_cycle);
                assert(decreases_to!(atom_view(*a) => atom_view(*a)->steps));
            }
            kinds_of_steps(steps, k)
        },
    }
}

fn shape_of_steps(steps: &Vec<Step>, sh: &mut Shape)
    ensures
        final(sh)@ == seq_shape(seq_view(steps@), 0, old(sh)@),
    decreases seq_view(steps@), 1int,
{
    let ghost v = seq_view(steps@);
    let ghost sh0 = sh@;
    let mut i: usize = 0;
    while i < steps.len()
        invariant
            i <= steps@.len(),
            v == seq_view(steps@),
            seq_shape(v, 0, sh0) == seq_shape(v, i as int, sh@),
        decreases steps@.len() - i,
    {
        proof {
            assert(v[i as int] == step_view(steps@[i as int]));
            assert(v[i as int].atom == atom_view(steps@[i as int].atom));
            assert(decreases_to!(v => v[i as int]));
            assert(decreases_to!(v[i as int] => v[i as int].atom));
        }
        let s = &steps[i];
        let ghost before = sh@;
        sh.ratchet = sh.ratchet || s.ratchet.is_some();
        sh.draw = sh.draw || s.draw;
        proof {
            assert(sh@.tokens =~= before.tokens);
        }
        shape_of_atom(&s.atom, sh);
        i += 1;
    }
}

fn shape_of_atom(a: &Atom, sh: &mut Shape)
    ensures
        final(sh)@ == atom_shape(atom_view(*a), old(sh)@),
    decreases atom_view(*a), 0int,
{
    match a {
        Atom::Rest => {},
        Atom::Token(t) => {
            let ghost before = sh@;
            sh.tokens.push(t.copy());
            proof {
                assert(sh@.tokens =~= before.tokens.push(t@));
            }
        },
        Atom::Stack(seqs) => {
            proof {
                lemma_stack_view(*seqs);
            }
            let ghost v = stack_view(seqs@);
            sh.stacked = sh.stacked || seqs.len() > 1;
            proof {
                assert(sh@.tokens =~= old(sh)@.tokens);
            }
            let ghost sh0 = sh@;
            let mut j: usize = 0;
            while j < seqs.len()
                invariant
                    j <= seqs@.len(),
                    v == stack_view(seqs@),
                    atom_view(*a) == AtomV::Stack(v),
                    stack_shape(v, 0, sh0) == stack_shape(v, j as int, sh@),
                decreases seqs@.len() - j,
            {
                proof {
                    assert(v[j as int] == seq_view(seqs@[j as int]@));
                    assert(atom_view(*a)->Stack_0 == v);
                    assert(decreases_to!(atom_view(*a) => atom_view(*a)->Stack_0));
                    assert(decreases_to!(v => v[j as int]));
                }
                shape_of_steps(&seqs[j], sh);
                j += 1;
            }
        },
        Atom::Alt(elems) => {
            proof {
                lemma_alt_view(*elems);
                assert(decreases_to!(atom_view(*a) => atom_view(*a)->Alt_0));
            }
            shape_of_steps(elems, sh)
        },
        Atom::Poly { steps, per_cycle } => {
            proof {
                lemma_poly_view(*steps, *per_cycle);
                assert(decreases_to!(atom_view(*a) => atom_view(*a)->steps));
            }
            shape_of_steps(steps, sh)
        },
    }
}

fn lcm64_exec(a: u64, b: u64) -> (r: Option<u64>)
    ensures
        match r {
            Some(v) => lcm64_spec(a as nat, b as nat) == Some(v as nat) && v > 0,
            None => lcm64_spec(a as nat, b as nat) is None,
        },
{
    match lcm(a as u128, b as u128) {
        Some(v) => if v > u64::MAX as u128 { None } else { Some(v as u64) },
        None => None,
    }
}

fn period_of_steps(steps: &Vec<Step>, start: u64) -> (r: Option<u64>)
    ensures
        match r {
            Some(p) => seq_period(seq_view(steps@), 0, start as nat) == Some(p as nat) && (start > 0 ==> p > 0),
            None => seq_period(seq_view(steps@), 0, start as nat) is None,
        },
    decreases seq_view(steps@), 1int,
{
    let ghost v = seq_view(steps@);
    let mut acc = start;
    let mut i: usize = 0;
    while i < steps.len()
        invariant
            i <= steps@.len(),
            v == seq_view(steps@),
            seq_period(v, 0, start as nat) == seq_period(v, i as int, acc as nat),
            start > 0 ==> acc > 0,
        decreases steps@.len() - i,
    {
        proof {
            assert(v[i as int] == step_view(steps@[i as int]));
            assert(v[i as int].atom == atom_view(steps@[i as int].atom));
            assert(decreases_to!(v => v[i as int]));
            assert(decreases_to!(v[i as int] => v[i as int].atom));
        }
        match period_of_atom(&steps[i].atom, acc) {
            Some(a) => {
                acc = a;
            },
            None => {
                proof {
                    assert(seq_period(v, i as int, acc as nat) is None);
                }
                return None;
            },
        }
        i += 1;
    }
    Some(acc)
}

fn period_of_atom(a: &Atom, start: u64) -> (r: Option<u64>)
    ensures
        match r {
            Some(p) => atom_period(atom_view(*a), start as nat) == Some(p as nat) && (start > 0 ==> p > 0),
            None => atom_period(atom_view(*a), start as nat) is None,
        },
    decreases atom_view(*a), 0int,
{
    match a {
        Atom::Rest => Some(start),
        Atom::Token(_) => Some(start),
        Atom::Stack(seqs) => {
            proof {
                lemma_stack_view(*seqs);
            }
            let ghost v = stack_view(seqs@);
            let mut acc = start;
            let mut j: usize = 0;
            while j < seqs.len()
                invariant
                    j <= seqs@.len(),
                    v == stack_view(seqs@),
                    atom_view(*a) == AtomV::Stack(v),
                    stack_period(v, 0, start as nat) == stack_period(v, j as int, acc as nat),
                    start > 0 ==> acc > 0,
                decreases seqs@.len() - j,
            {
                proof {
                    assert(v[j as int] == seq_view(seqs@[j as int]@));
                    assert(atom_view(*a)->Stack_0 == v);
                    assert(decreases_to!(atom_view(*a) => atom_view(*a)->Stack_0));
                    assert(decreases_to!(v => v[j as int]));
                }
                match period_of_steps(&seqs[j], acc) {
                    Some(x) => {
                        acc = x;
                    },
                    None => {
                        proof {
                            assert(stack_period(v, j as int, acc as nat) is None);
                        }
                        return None;
                    },
                }
                j += 1;
            }
            Some(acc)
        },
        Atom::Alt(elems) => {
            proof {
                lemma_alt_view(*elems);
            }
            let a2 = match lcm64_exec(start, elems.len() as u64) {
                Some(x) => x,
                None => return None,
            };
            period_of_steps(elems, a2)
        },
        Atom::Poly { steps, per_cycle } => {
            proof {
                lemma_poly_view(*steps, *per_cycle);
            }
            let l = match lcm64_exec(steps.len() as u64, *per_cycle) {
                Some(x) => x,
                None => return None,
            };
            let a2 = match lcm64_exec(start, l / *per_cycle) {
                Some(x) => x,
                None => return None,
            };
            period_of_steps(steps, a2)
        },
    }
}

/// A placement on the tick grid of cycle `k`, whose first tick is `base`.
fn tick_event(p: &Placement, base: u64, k: u64, cycle_ticks: u64) -> (e: TickEvent)
    requires
        placement_ok(*p),
        base == k * cycle_ticks,
        base + cycle_ticks <= u64::MAX,
    ensures
        e@ == to_tick_event(p@, k as nat, cycle_ticks as nat),
{
    proof {
        assert(cycle_ticks * p.start <= cycle_ticks * p.acc) by (nonlinear_arith)
            requires p.start <= p.acc;
        assert(cycle_ticks * (p.start + p.span) <= cycle_ticks * p.acc) by (nonlinear_arith)
            requires p.start + p.span <= p.acc;
        assert(cycle_ticks * p.acc <= u64::MAX * u64::MAX) by (nonlinear_arith)
            requires cycle_ticks <= u64::MAX, p.acc <= u64::MAX;
        assert(cycle_ticks * p.start <= cycle_ticks * (p.start + p.span)) by (nonlinear_arith);
        vstd::arithmetic::div_mod::lemma_div_is_ordered((cycle_ticks * p.start) as int, (cycle_ticks * (p.start + p.span)) as int, p.acc as int);
        vstd::arithmetic::div_mod::lemma_div_is_ordered((cycle_ticks * (p.start + p.span)) as int, (cycle_ticks * p.acc) as int, p.acc as int);
        vstd::arithmetic::div_mod::lemma_div_by_multiple(cycle_ticks as int, p.acc as int);
    }
    let onset = ((cycle_ticks as u128) * (p.start as u128) / (p.acc as u128)) as u64;
    let end = ((cycle_ticks as u128) * ((p.start + p.span) as u128) / (p.acc as u128)) as u64;
    let span_ticks = end - onset;
    let tick = base + onset;
    let n: u64 = if p.ratchet >= 1 { p.ratchet as u64 } else { 1 };
    let mut tails: Vec<u64> = Vec::new();
    let mut i: u64 = 1;
    while i < n
        invariant
            1 <= i <= n,
            n >= 1,
            n <= 255,
            tick as nat + span_ticks as nat <= u64::MAX,
            tails@.len() == i - 1,
            forall|j: int| 0 <= j < i - 1 ==> #[trigger] tails@[j] as nat == (tick as nat) + (span_ticks as nat) / (n as nat) * ((j + 1) as nat)
                + (span_ticks as nat) % (n as nat) * ((j + 1) as nat) / (n as nat),
        decreases n - i,
    {
        proof {
            lemma_tail_within(span_ticks as nat, n as nat, i as nat);
            assert(n * n <= 255 * 255) by (nonlinear_arith) requires n <= 255;
        }
        tails.push(tick + span_ticks / n * i + span_ticks % n * i / n);
        i += 1;
    }
    let e = TickEvent { tick, span_ticks, token: p.token.copy(), ratchet: p.ratchet, draw: p.draw, tails };
    proof {
        let v = e@;
        let w = to_tick_event(p@, k as nat, cycle_ticks as nat);
        assert(v.tails =~= w.tails);
    }
    e
}

/// A tail stays within the span it divides.
pub proof fn lemma_tail_within(s: nat, n: nat, i: nat)
    requires
        n >= 1,
        i < n,
    ensures
        s / n * i + s % n * i / n <= s,
        s % n * i < n * n,
{
    let q = s / n;
    let r = s % n;
    vstd::arithmetic::div_mod::lemma_fundamental_div_mod(s as int, n as int);
    assert(r * i <= r * n) by (nonlinear_arith) requires i < n;
    vstd::arithmetic::div_mod::lemma_div_is_ordered((r * i) as int, (r * n) as int, n as int);
    vstd::arithmetic::div_mod::lemma_div_by_multiple(r as int, n as int);
    assert(q * i <= q * n) by (nonlinear_arith) requires i < n;
    assert(s == q * n + r) by (nonlinear_arith) requires s == n * q + r;
    assert(r * i < n * n) by (nonlinear_arith) requires r < n, i < n;
}

fn copy_placement(p: &Placement) -> (q: Placement)
    ensures
        q@ == p@,
        q.start == p.start,
        q.span == p.span,
        q.acc == p.acc,
{
    Placement { start: p.start, span: p.span, acc: p.acc, token: p.token.copy(), ratchet: p.ratchet, draw: p.draw }
}

fn onset_le_exec(a: &Placement, b: &Placement) -> (r: bool)
    ensures
        r == onset_le(a@, b@),
{
    proof {
        assert(a.start * b.acc <= u64::MAX * u64::MAX) by (nonlinear_arith)
            requires a.start <= u64::MAX, b.acc <= u64::MAX;
        assert(b.start * a.acc <= u64::MAX * u64::MAX) by (nonlinear_arith)
            requires b.start <= u64::MAX, a.acc <= u64::MAX;
    }
    (a.start as u128) * (b.acc as u128) <= (b.start as u128) * (a.acc as u128)
}

/// Inserting after every element that begins no later is the spec's insertion.
proof fn lemma_insert_at(sorted: Seq<Placed>, e: Placed, j: int)
    requires
        0 <= j <= sorted.len(),
        forall|i: int| j <= i < sorted.len() ==> !onset_le(#[trigger] sorted[i], e),
        j == 0 || onset_le(sorted[j - 1], e),
    ensures
        insert_by_onset(sorted, e) == sorted.insert(j, e),
    decreases sorted.len() - j,
{
    if sorted.len() == 0 {
        assert(sorted.insert(j, e) =~= seq![e]);
    } else if j == sorted.len() {
        assert(sorted.insert(j, e) =~= sorted.push(e));
    } else {
        let d = sorted.drop_last();
        assert(!onset_le(sorted[sorted.len() - 1], e));
        assert forall|i: int| j <= i < d.len() implies !onset_le(#[trigger] d[i], e) by {
            assert(d[i] == sorted[i]);
        }
        if j > 0 {
            assert(d[j - 1] == sorted[j - 1]);
        }
        lemma_insert_at(d, e, j);
        assert(d.insert(j, e).push(sorted.last()) =~= sorted.insert(j, e));
    }
}

/// A fraction's reduced terms: the divisor is positive and divides both, and a fraction within
/// the cycle stays within it.
proof fn lemma_reduced_terms(a: nat, b: nat)
    requires
        b > 0,
        a <= u64::MAX,
        b <= u64::MAX,
    ensures
        reduced(a, b).num == a / divisor(a, b),
        reduced(a, b).den == b / divisor(a, b),
        divisor(a, b) > 0,
        a == (a / divisor(a, b)) * divisor(a, b),
        b == (b / divisor(a, b)) * divisor(a, b),
        b / divisor(a, b) > 0,
        a <= b ==> a / divisor(a, b) <= b / divisor(a, b),
{
    lemma_gcd_divides(a, b);
    let g = divisor(a, b);
    lemma_div_le(a, g);
    lemma_div_le(b, g);
    assert(a == (a / g) * g) by (nonlinear_arith) requires g > 0, a % g == 0;
    assert(b == (b / g) * g) by (nonlinear_arith) requires g > 0, b % g == 0;
    assert(b / g > 0) by (nonlinear_arith) requires b == (b / g) * g, b > 0, g > 0;
    if a <= b {
        vstd::arithmetic::div_mod::lemma_div_is_ordered(a as int, b as int, g as int);
    }
}

/// Reducing two fractions keeps their order.
proof fn lemma_reduced_order(s1: nat, a1: nat, s2: nat, a2: nat)
    requires
        a1 > 0,
        a2 > 0,
        a1 <= u64::MAX,
        a2 <= u64::MAX,
        s1 <= u64::MAX,
        s2 <= u64::MAX,
        s1 * a2 <= s2 * a1,
    ensures
        (reduced(s1, a1).num as nat) * (reduced(s2, a2).den as nat) <= (reduced(s2, a2).num as nat) * (reduced(s1, a1).den as nat),
{
    lemma_reduced_terms(s1, a1);
    lemma_reduced_terms(s2, a2);
    let g1 = divisor(s1, a1);
    let g2 = divisor(s2, a2);
    let n1 = s1 / g1;
    let d1 = a1 / g1;
    let n2 = s2 / g2;
    let d2 = a2 / g2;
    lemma_div_le(s1, g1);
    lemma_div_le(a1, g1);
    lemma_div_le(s2, g2);
    lemma_div_le(a2, g2);
    assert(n1 * d2 * (g1 * g2) <= n2 * d1 * (g1 * g2)) by (nonlinear_arith)
        requires s1 == n1 * g1, a1 == d1 * g1, s2 == n2 * g2, a2 == d2 * g2, s1 * a2 <= s2 * a1;
    assert(n1 * d2 <= n2 * d1) by (nonlinear_arith)
        requires n1 * d2 * (g1 * g2) <= n2 * d1 * (g1 * g2), g1 > 0, g2 > 0;
}

/// Floors keep the order of the fractions they floor.
proof fn lemma_floor_order(c: nat, s1: nat, a1: nat, s2: nat, a2: nat)
    requires
        a1 > 0,
        a2 > 0,
        s1 * a2 <= s2 * a1,
    ensures
        c * s1 / a1 <= c * s2 / a2,
{
    let f = c * s1 / a1;
    vstd::arithmetic::div_mod::lemma_fundamental_div_mod((c * s1) as int, a1 as int);
    assert(f * a1 <= c * s1) by (nonlinear_arith)
        requires c * s1 == a1 * f + (c * s1) % a1, (c * s1) % a1 >= 0;
    assert(f * a2 <= c * s2) by (nonlinear_arith)
        requires f * a1 <= c * s1, s1 * a2 <= s2 * a1, a1 > 0, a2 > 0;
    vstd::arithmetic::div_mod::lemma_div_is_ordered((f * a2) as int, (c * s2) as int, a2 as int);
    vstd::arithmetic::div_mod::lemma_div_by_multiple(f as int, a2 as int);
}

/// Every placement begins no later than each one after it.
pub open spec fn onset_sorted(s: Seq<Placed>) -> bool {
    forall|i: int, j: int| 0 <= i < j < s.len() ==> onset_le(#[trigger] s[i], #[trigger] s[j])
}

/// "Begins no later" is transitive through a middle placement with a positive denominator.
proof fn lemma_onset_le_trans(a: Placed, b: Placed, c: Placed)
    requires
        onset_le(a, b),
        onset_le(b, c),
        b.acc > 0,
    ensures
        onset_le(a, c),
{
    assert(a.start * b.acc * c.acc <= b.start * a.acc * c.acc) by (nonlinear_arith)
        requires a.start * b.acc <= b.start * a.acc;
    assert(b.start * c.acc * a.acc <= c.start * b.acc * a.acc) by (nonlinear_arith)
        requires b.start * c.acc <= c.start * b.acc;
    assert(a.start * c.acc * b.acc <= c.start * a.acc * b.acc) by (nonlinear_arith)
        requires
            a.start * b.acc * c.acc <= b.start * a.acc * c.acc,
            b.start * c.acc * a.acc <= c.start * b.acc * a.acc;
    assert(a.start * c.acc <= c.start * a.acc) by (nonlinear_arith)
        requires a.start * c.acc * b.acc <= c.start * a.acc * b.acc, b.acc > 0;
}

/// Ordered by onset, stable: each placement goes after every earlier one that begins no later.
fn sort_placements(v: &Vec<Placement>) -> (r: Vec<Placement>)
    requires
        all_ok(v@),
    ensures
        all_ok(r@),
        placements_view(r@) == sort_by_onset(placements_view(v@)),
        onset_sorted(placements_view(r@)),
{
    let mut sorted: Vec<Placement> = Vec::new();
    let mut i: usize = 0;
    proof {
        assert(placements_view(v@).subrange(0, 0) =~= Seq::<Placed>::empty());
        assert(placements_view(sorted@) =~= Seq::<Placed>::empty());
    }
    while i < v.len()
        invariant
            i <= v@.len(),
            all_ok(v@),
            all_ok(sorted@),
            placements_view(sorted@) == sort_by_onset(placements_view(v@).subrange(0, i as int)),
            onset_sorted(placements_view(sorted@)),
        decreases v@.len() - i,
    {
        let p = copy_placement(&v[i]);
        let ghost sv = placements_view(sorted@);
        let ghost old_sorted = sorted@;
        let mut j = sorted.len();
        while j > 0 && !onset_le_exec(&sorted[j - 1], &p)
            invariant
                j <= sorted@.len(),
                sv == placements_view(sorted@),
                forall|x: int| j <= x < sorted@.len() ==> !onset_le(#[trigger] sv[x], p@),
                sorted@ == old_sorted,
            decreases j,
        {
            proof {
                assert(sv[j - 1] == sorted@[j - 1]@);
            }
            j -= 1;
        }
        proof {
            if j > 0 {
                assert(sv[j - 1] == sorted@[j - 1]@);
            }
            lemma_insert_at(sv, p@, j as int);
            let pre = placements_view(v@).subrange(0, i as int);
            let next = placements_view(v@).subrange(0, i + 1);
            assert(next.drop_last() =~= pre);
            assert(next.last() == p@);
            assert(placement_ok(v@[i as int]));
        }
        sorted.insert(j, p);
        proof {
            assert(placements_view(sorted@) =~= sv.insert(j as int, p@));
            let nv = sv.insert(j as int, p@);
            assert forall|x: int, y: int| 0 <= x < y < nv.len() implies onset_le(#[trigger] nv[x], #[trigger] nv[y]) by {
                if y < j {
                    assert(nv[x] == sv[x] && nv[y] == sv[y]);
                } else if y == j {
                    assert(nv[y] == p@);
                    assert(nv[x] == sv[x]);
                    assert(onset_le(sv[j - 1], p@));
                    if x < j - 1 {
                        assert(onset_le(sv[x], sv[j - 1]));
                        assert(placement_ok(old_sorted[j - 1]));
                        assert(sv[j - 1] == old_sorted[j - 1]@);
                        lemma_onset_le_trans(sv[x], sv[j - 1], p@);
                    }
                } else if x == j {
                    assert(nv[x] == p@);
                    assert(nv[y] == sv[y - 1]);
                    assert(!onset_le(sv[y - 1], p@));
                } else if x < j {
                    assert(nv[x] == sv[x] && nv[y] == sv[y - 1]);
                } else {
                    assert(nv[x] == sv[x - 1] && nv[y] == sv[y - 1]);
                }
            }
            assert forall|x: int| 0 <= x < sorted@.len() implies #[trigger] placement_ok(sorted@[x]) by {
                if x < j {
                    assert(sorted@[x] == old_sorted[x]);
                } else if x > j {
                    assert(sorted@[x] == old_sorted[x - 1]);
                }
            }
        }
        i += 1;
    }
    proof {
        assert(placements_view(v@).subrange(0, v@.len() as int) =~= placements_view(v@));
    }
    sorted
}

} // verus!
