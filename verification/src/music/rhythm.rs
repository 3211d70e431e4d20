//! Rhythm expressions: literal schedules, Euclidean rhythms, Boolean combinations of them,
//! and references to other Parts' results.
use vstd::prelude::*;

pub mod literal;

use self::literal::{prepare_error, schedule_of, step_attack, Attack, Prepared, ScheduleV};
use super::notation::render::{draw_of, euclid_active, euclid_mod, ratchet_of, render_atom, render_euclid, Inherit, Placed};
use super::notation::{AtomV, Euclid, TokenV};
use super::time::NoteValue;
use crate::text::{blank, is_blank};

verus! {

#[derive(Clone, Copy, Debug, PartialEq, Eq, Structural)]
pub enum BooleanOp {
    Or,
    And,
    Xor,
    ANotB,
    BNotA,
}

/// The truth table of each operator.
pub open spec fn op_value(op: BooleanOp, a: bool, b: bool) -> bool {
    match op {
        BooleanOp::Or => a || b,
        BooleanOp::And => a && b,
        BooleanOp::Xor => a != b,
        BooleanOp::ANotB => a && !b,
        BooleanOp::BNotA => b && !a,
    }
}

impl BooleanOp {
    pub fn apply(self, a: bool, b: bool) -> (r: bool)
        ensures
            r == op_value(self, a, b),
    {
        match self {
            BooleanOp::Or => a || b,
            BooleanOp::And => a && b,
            BooleanOp::Xor => a != b,
            BooleanOp::ANotB => a && !b,
            BooleanOp::BNotA => b && !a,
        }
    }
}

#[derive(Clone, Copy, Debug, PartialEq, Eq, Structural)]
pub enum ReferenceMode {
    /// The referenced Part's structural onsets, before probability.
    Structure,
    /// The hits it actually fired.
    Hits,
}

/// A rhythm: literal material, a Euclidean rhythm, a Boolean combination, or another Part.
#[derive(Debug)]
pub enum Expression {
    Literal { pattern: String, cycle_bars: u32, rotate: i32, prepared: Option<Prepared> },
    Euclidean { steps: u32, pulses: u32, rotation: i32, reset_on_phrase: bool },
    Binary { op: BooleanOp, a: Box<Expression>, b: Box<Expression> },
    Part { id: String, mode: ReferenceMode },
}

/// The authored default of `cycle_bars`: one bar per cycle.
pub fn literal_cycle() -> (r: u32)
    ensures
        r == 1,
{
    1
}

/// What one evaluation found, node by node.
#[derive(Debug)]
pub enum RhythmTrace {
    Literal { pattern: String, cycle_bars: u32, rotate: i32, active: bool, attack: Option<Attack> },
    Euclidean { steps: u32, pulses: u32, rotation: i32, phase: u64, active: bool },
    Binary { op: BooleanOp, a: Box<RhythmTrace>, b: Box<RhythmTrace>, active: bool },
    Part { id: String, mode: ReferenceMode, active: bool },
}

pub open spec fn trace_active(t: RhythmTrace) -> bool {
    match t {
        RhythmTrace::Literal { active, .. } => active,
        RhythmTrace::Euclidean { active, .. } => active,
        RhythmTrace::Binary { active, .. } => active,
        RhythmTrace::Part { active, .. } => active,
    }
}

impl RhythmTrace {
    pub fn active(&self) -> (r: bool)
        ensures
            r == trace_active(*self),
    {
        match self {
            RhythmTrace::Literal { active, .. } => *active,
            RhythmTrace::Euclidean { active, .. } => *active,
            RhythmTrace::Binary { active, .. } => *active,
            RhythmTrace::Part { active, .. } => *active,
        }
    }

    pub fn literal_attack(&self) -> (r: Option<Attack>)
        ensures
            r == (match *self {
                RhythmTrace::Literal { attack, .. } => attack,
                _ => None,
            }),
    {
        match self {
            RhythmTrace::Literal { attack, .. } => *attack,
            _ => None,
        }
    }
}

/// Whether the expression holds literal material anywhere.
pub open spec fn has_literal(e: Expression) -> bool
    decreases e,
{
    match e {
        Expression::Literal { .. } => true,
        Expression::Binary { a, b, .. } => has_literal(*a) || has_literal(*b),
        _ => false,
    }
}

/// Every Part id the expression reads, left to right.
pub open spec fn references_of(e: Expression) -> Seq<Seq<char>>
    decreases e,
{
    match e {
        Expression::Part { id, .. } => seq![id@],
        Expression::Binary { a, b, .. } => references_of(*a) + references_of(*b),
        _ => Seq::empty(),
    }
}

pub open spec fn too_deep() -> Seq<char> {
    "rhythm expression nesting exceeds 32"@
}

pub open spec fn unprepared_literal() -> Seq<char> {
    "literal material must be prepared as the trigger root for this pattern before playback"@
}

pub open spec fn bad_euclid() -> Seq<char> {
    "Euclidean requires 1 <= steps <= 65536 and pulses <= steps"@
}

pub open spec fn empty_reference() -> Seq<char> {
    "Part reference id cannot be empty"@
}

pub open spec fn literal_in_combination() -> Seq<char> {
    "literal material must be the trigger root; boolean combinations do not define which event span and ratchet to keep"@
}

/// The check of an expression at nesting `depth`: the message of the first rule it breaks,
/// visiting `a` before `b`.
pub open spec fn validation(e: Expression, depth: nat) -> Result<(), Seq<char>>
    decreases e,
{
    if depth > 32 {
        Err(too_deep())
    } else {
        match e {
            Expression::Literal { pattern, cycle_bars, rotate, prepared } => {
                if depth != 0 || !(prepared matches Some(p) && p@.pattern == pattern@ && p@.cycle_bars == cycle_bars
                    && p@.rotate == rotate) {
                    Err(unprepared_literal())
                } else {
                    Ok(())
                }
            },
            Expression::Euclidean { steps, pulses, .. } => {
                if steps == 0 || steps > 65536 || pulses > steps {
                    Err(bad_euclid())
                } else {
                    Ok(())
                }
            },
            Expression::Part { id, .. } => if blank(id@) {
                Err(empty_reference())
            } else {
                Ok(())
            },
            Expression::Binary { a, b, .. } => match validation(*a, depth + 1) {
                Err(m) => Err(m),
                Ok(()) => validation(*b, depth + 1),
            },
        }
    }
}

/// Whether every Euclidean node has a positive step count, so its phase is defined.
pub open spec fn evaluable(e: Expression) -> bool
    decreases e,
{
    match e {
        Expression::Euclidean { steps, .. } => steps > 0,
        Expression::Binary { a, b, .. } => evaluable(*a) && evaluable(*b),
        _ => true,
    }
}

/// Whether `f` can answer `active` for the Part `id` read in `mode`.
pub open spec fn answers<F: Fn(&str, ReferenceMode) -> bool>(f: F, id: Seq<char>, mode: ReferenceMode, active: bool) -> bool {
    exists|s: &str| s@ == id && call_ensures(f, (s, mode), active)
}

/// Whether `t` is the trace of `e` at `absolute_step`, at `phrase_position` in its phrase, with
/// Part references answered by `f`. A Euclidean node reads the phrase position when it resets
/// on the phrase, else the absolute step; its slot is active by the balanced modular rule.
pub open spec fn traced<F: Fn(&str, ReferenceMode) -> bool>(
    e: Expression,
    absolute_step: u64,
    phrase_position: u64,
    t: RhythmTrace,
    f: F,
) -> bool
    decreases e,
{
    match e {
        Expression::Literal { pattern, cycle_bars, rotate, prepared } => match t {
            RhythmTrace::Literal { pattern: tp, cycle_bars: tc, rotate: tr, active, attack } => {
                &&& tp@ == pattern@
                &&& tc == cycle_bars
                &&& tr == rotate
                &&& attack == (match prepared {
                    Some(p) => step_attack(p@, absolute_step as nat),
                    None => None,
                })
                &&& active == attack is Some
            },
            _ => false,
        },
        Expression::Euclidean { steps, pulses, rotation, reset_on_phrase } => match t {
            RhythmTrace::Euclidean { steps: ts, pulses: tp, rotation: tr, phase, active } => {
                let position = if reset_on_phrase { phrase_position } else { absolute_step };
                &&& ts == steps
                &&& tp == pulses
                &&& tr == rotation
                &&& phase == position % (steps as u64)
                &&& active == euclid_active(
                    Euclid { pulses: pulses as u64, steps: steps as u64, rotate: rotation as i64 },
                    phase as int,
                )
            },
            _ => false,
        },
        Expression::Part { id, mode } => match t {
            RhythmTrace::Part { id: ti, mode: tm, active } => ti@ == id@ && tm == mode && answers(f, id@, mode, active),
            _ => false,
        },
        Expression::Binary { op, a, b } => match t {
            RhythmTrace::Binary { op: to, a: ta, b: tb, active } => {
                &&& to == op
                &&& traced(*a, absolute_step, phrase_position, *ta, f)
                &&& traced(*b, absolute_step, phrase_position, *tb, f)
                &&& active == op_value(op, trace_active(*ta), trace_active(*tb))
            },
            _ => false,
        },
    }
}

fn owned(s: &'static str) -> (m: String)
    ensures
        m@ == s@,
{
    String::from_str(s)
}

impl Expression {
    /// Prepares literal material at composition load, never during a playback lookup.
    pub fn prepare(&mut self, cell: NoteValue) -> (r: Result<(), String>)
        ensures
            match *old(self) {
                Expression::Literal { pattern, cycle_bars, rotate, .. } => match schedule_of(pattern@, cycle_bars, cell.0, rotate) {
                    Ok(s) => r is Ok && (*final(self) matches Expression::Literal { pattern: fp, cycle_bars: fc, rotate: fr, prepared: Some(p) }
                        && fp@ == pattern@ && fc == cycle_bars && fr == rotate && p@.pattern == pattern@ && p@.cycle_bars == cycle_bars
                        && p@.rotate == rotate && p@.cell == cell.0 && p@.schedule == s),
                    Err(why) => r matches Err(e) && e@ == prepare_error(pattern@, why) && *final(self) == *old(self),
                },
                Expression::Binary { .. } => if has_literal(*old(self)) {
                    r matches Err(e) && e@ == literal_in_combination() && *final(self) == *old(self)
                } else {
                    r is Ok && *final(self) == *old(self)
                },
                _ => r is Ok && *final(self) == *old(self),
            },
    {
        let next = match &*self {
            Expression::Literal { pattern, cycle_bars, rotate, .. } => {
                match Prepared::new(pattern.as_str(), *cycle_bars, cell, *rotate) {
                    Ok(p) => Expression::Literal {
                        pattern: pattern.clone(),
                        cycle_bars: *cycle_bars,
                        rotate: *rotate,
                        prepared: Some(p),
                    },
                    Err(e) => return Err(e),
                }
            },
            Expression::Binary { .. } => {
                if self.contains_literal() {
                    proof {
                        reveal_strlit("literal material must be the trigger root; boolean combinations do not define which event span and ratchet to keep");
                    }
                    return Err(owned("literal material must be the trigger root; boolean combinations do not define which event span and ratchet to keep"));
                }
                return Ok(());
            },
            _ => return Ok(()),
        };
        *self = next;
        Ok(())
    }

    pub fn contains_literal(&self) -> (r: bool)
        ensures
            r == has_literal(*self),
        decreases *self,
    {
        match self {
            Expression::Literal { .. } => true,
            Expression::Binary { a, b, .. } => a.contains_literal() || b.contains_literal(),
            _ => false,
        }
    }

    pub fn literal_schedule(&self) -> (r: Option<&Prepared>)
        ensures
            match *self {
                Expression::Literal { prepared, .. } => match prepared {
                    Some(p) => r matches Some(q) && *q == p,
                    None => r is None,
                },
                _ => r is None,
            },
    {
        match self {
            Expression::Literal { prepared, .. } => match prepared {
                Some(p) => Some(p),
                None => None,
            },
            _ => None,
        }
    }

    pub fn validate(&self, depth: usize) -> (r: Result<(), String>)
        ensures
            match validation(*self, depth as nat) {
                Ok(()) => r is Ok,
                Err(m) => r matches Err(e) && e@ == m,
            },
        decreases *self,
    {
        proof {
            reveal_strlit("rhythm expression nesting exceeds 32");
            reveal_strlit("literal material must be prepared as the trigger root for this pattern before playback");
            reveal_strlit("Euclidean requires 1 <= steps <= 65536 and pulses <= steps");
            reveal_strlit("Part reference id cannot be empty");
        }
        if depth > 32 {
            return Err(owned("rhythm expression nesting exceeds 32"));
        }
        match self {
            Expression::Literal { pattern, cycle_bars, rotate, prepared } => {
                let ok = match prepared {
                    Some(p) => p.matches(pattern.as_str(), *cycle_bars, *rotate),
                    None => false,
                };
                if depth != 0 || !ok {
                    return Err(owned("literal material must be prepared as the trigger root for this pattern before playback"));
                }
            },
            Expression::Euclidean { steps, pulses, .. } => {
                if *steps == 0 || *steps > 65536 || *pulses > *steps {
                    return Err(owned("Euclidean requires 1 <= steps <= 65536 and pulses <= steps"));
                }
            },
            Expression::Part { id, .. } => {
                if is_blank(id.as_str()) {
                    return Err(owned("Part reference id cannot be empty"));
                }
            },
            Expression::Binary { a, b, .. } => {
                match a.validate(depth + 1) {
                    Ok(()) => {},
                    Err(e) => return Err(e),
                }
                match b.validate(depth + 1) {
                    Ok(()) => {},
                    Err(e) => return Err(e),
                }
            },
        }
        Ok(())
    }

    /// Every Part id this expression reads, left to right.
    pub fn references(&self) -> (r: Vec<&str>)
        ensures
            r@.len() == references_of(*self).len(),
            forall|i: int| 0 <= i < r@.len() ==> (#[trigger] r@[i])@ == references_of(*self)[i],
        decreases *self,
    {
        match self {
            Expression::Part { id, .. } => {
                let mut v: Vec<&str> = Vec::new();
                v.push(id.as_str());
                v
            },
            Expression::Binary { a, b, .. } => {
                let mut refs = a.references();
                let more = b.references();
                let ghost first = refs@;
                let mut i: usize = 0;
                while i < more.len()
                    invariant
                        i <= more@.len(),
                        refs@.len() == first.len() + i,
                        forall|j: int| 0 <= j < first.len() ==> #[trigger] refs@[j] == first[j],
                        forall|j: int| 0 <= j < i ==> #[trigger] refs@[first.len() + j] == more@[j],
                    decreases more@.len() - i,
                {
                    refs.push(more[i]);
                    i += 1;
                }
                proof {
                    let want = references_of(**a) + references_of(**b);
                    assert forall|j: int| 0 <= j < refs@.len() implies (#[trigger] refs@[j])@ == want[j] by {
                        if j < first.len() {
                            assert(refs@[j] == first[j]);
                        } else {
                            assert(refs@[first.len() + (j - first.len())] == more@[j - first.len()]);
                        }
                    }
                }
                refs
            },
            _ => Vec::new(),
        }
    }

    /// Evaluates at `absolute_step`, whose phrase position is its remainder by `phrase_steps`.
    pub fn evaluate<F: Fn(&str, ReferenceMode) -> bool>(&self, absolute_step: u64, phrase_steps: u64, reference: &F) -> (t: RhythmTrace)
        requires
            phrase_steps > 0,
            evaluable(*self),
            forall|s: &str, m: ReferenceMode| call_requires(*reference, (s, m)),
        ensures
            traced(*self, absolute_step, absolute_step % phrase_steps, t, *reference),
    {
        self.evaluate_position(absolute_step, absolute_step % phrase_steps, reference)
    }

    pub fn evaluate_position<F: Fn(&str, ReferenceMode) -> bool>(
        &self,
        absolute_step: u64,
        phrase_position: u64,
        reference: &F,
    ) -> (t: RhythmTrace)
        requires
            evaluable(*self),
            forall|s: &str, m: ReferenceMode| call_requires(*reference, (s, m)),
        ensures
            traced(*self, absolute_step, phrase_position, t, *reference),
        decreases *self,
    {
        match self {
            Expression::Literal { pattern, cycle_bars, rotate, prepared } => {
                let attack = match prepared {
                    Some(p) => p.at_step(absolute_step),
                    None => None,
                };
                RhythmTrace::Literal {
                    pattern: pattern.clone(),
                    cycle_bars: *cycle_bars,
                    rotate: *rotate,
                    active: attack.is_some(),
                    attack,
                }
            },
            Expression::Euclidean { steps, pulses, rotation, reset_on_phrase } => {
                let position = if *reset_on_phrase { phrase_position } else { absolute_step };
                let phase = position % (*steps as u64);
                let index = euclid_mod((phase as i128) - (*rotation as i128), *steps as u64) as u64;
                proof {
                    assert((index as nat) * (*pulses as nat) <= u32::MAX * u32::MAX) by (nonlinear_arith)
                        requires index < *steps, *steps <= u32::MAX, *pulses <= u32::MAX;
                }
                let active = (index * (*pulses as u64)) % (*steps as u64) < *pulses as u64;
                RhythmTrace::Euclidean { steps: *steps, pulses: *pulses, rotation: *rotation, phase, active }
            },
            Expression::Part { id, mode } => {
                let s = id.as_str();
                let active = reference(s, *mode);
                RhythmTrace::Part { id: id.clone(), mode: *mode, active }
            },
            Expression::Binary { op, a, b } => {
                let ta = a.evaluate_position(absolute_step, phrase_position, reference);
                let tb = b.evaluate_position(absolute_step, phrase_position, reference);
                let active = op.apply(ta.active(), tb.active());
                RhythmTrace::Binary { op: *op, a: Box::new(ta), b: Box::new(tb), active }
            },
        }
    }
}

/// A validated expression can be evaluated: every Euclidean node has a positive step count.
pub proof fn lemma_valid_is_evaluable(e: Expression, depth: nat)
    requires
        validation(e, depth) is Ok,
    ensures
        evaluable(e),
    decreases e,
{
    if let Expression::Binary { a, b, .. } = e {
        lemma_valid_is_evaluable(*a, depth + 1);
        lemma_valid_is_evaluable(*b, depth + 1);
    }
}


/// How many of the first `m` slots of a Euclidean rhythm pulse.
pub open spec fn pulse_count(e: Euclid, m: int) -> nat
    decreases m,
{
    if m <= 0 {
        0
    } else {
        pulse_count(e, m - 1) + if euclid_active(e, m - 1) { 1nat } else { 0nat }
    }
}

/// With no rotation and at least one pulse, a Euclidean rhythm pulses on its first slot.
pub proof fn lemma_euclid_first_pulse(pulses: u64, steps: u64)
    requires
        steps > 0,
    ensures
        euclid_active(Euclid { pulses, steps, rotate: 0 }, 0) == (pulses > 0),
{
    vstd::arithmetic::div_mod::lemma_small_mod(0, steps as nat);
    assert(0 * (pulses as int) == 0);
}

/// A positive rotation delays: slot `i + 1` of the rhythm rotated one more slot is slot `i` of
/// the rhythm as it was.
pub proof fn lemma_euclid_rotation_delays(e: Euclid, i: int)
    requires
        e.steps > 0,
        e.rotate < i64::MAX,
    ensures
        euclid_active(Euclid { rotate: (e.rotate + 1) as i64, ..e }, i + 1) == euclid_active(e, i),
{
    assert((i + 1) - (e.rotate + 1) == i - e.rotate);
}

/// Rotation moves the whole pattern: a rhythm rotated by `r` pulses at slot `i` exactly when
/// the unrotated rhythm pulses at slot `i - r` (modulo its steps), so a positive rotation delays
/// it and a negative one advances it. A slot and its phase in the cycle pulse alike.
pub proof fn lemma_euclid_rotation(e: Euclid, i: int)
    requires
        e.steps > 0,
    ensures
        euclid_active(e, i) == euclid_active(Euclid { rotate: 0, ..e }, (i - e.rotate) % (e.steps as int)),
        euclid_active(e, i % (e.steps as int)) == euclid_active(e, i),
{
    let n = e.steps as int;
    let x = (i - e.rotate) % n;
    vstd::arithmetic::div_mod::lemma_mod_twice(i - e.rotate, n);
    assert((x - 0) % n == x);
    vstd::arithmetic::div_mod::lemma_fundamental_div_mod(i, n);
    let q = i / n;
    assert(i - e.rotate == n * q + (i % n - e.rotate));
    vstd::arithmetic::div_mod::lemma_mod_multiples_vanish(q, i % n - e.rotate, n);
}

/// Rotating a Euclidean rhythm by `r` steps delays it by `r` steps: evaluated at step `s`, it
/// is active exactly when the same rhythm unrotated is, evaluated at `s - r` modulo its steps.
/// A positive rotation delays the pattern and a negative one advances it.
pub proof fn lemma_expression_rotation<F: Fn(&str, ReferenceMode) -> bool>(
    steps: u32,
    pulses: u32,
    rotation: i32,
    s: u64,
    q: u64,
    q0: u64,
    t: RhythmTrace,
    t0: RhythmTrace,
    f: F,
)
    requires
        steps > 0,
        traced(Expression::Euclidean { steps, pulses, rotation, reset_on_phrase: false }, s, q, t, f),
        traced(
            Expression::Euclidean { steps, pulses, rotation: 0, reset_on_phrase: false },
            ((s - rotation) % (steps as int)) as u64,
            q0,
            t0,
            f,
        ),
    ensures
        trace_active(t) == trace_active(t0),
{
    let n = steps as int;
    let e = Euclid { pulses: pulses as u64, steps: steps as u64, rotate: rotation as i64 };
    let x = (s - rotation) % n;
    lemma_euclid_rotation(e, s as int);
    assert((s as u64) % (steps as u64) == (s as int) % n);
    vstd::arithmetic::div_mod::lemma_mod_twice(s - rotation, n);
    vstd::arithmetic::div_mod::lemma_mod_bound(s - rotation, n);
    assert((x as u64) % (steps as u64) == x % n);
    assert(x - 0 == x);
}

/// A notation Euclid leaf `x(pulses, steps, rotation)` agrees with the Euclidean rhythm of the
/// same pulses, steps and rotation: slot `i` of the leaf sounds, over its own cell of the
/// span, exactly when that rhythm evaluated at step `i` is active; the slots after it follow.
pub proof fn lemma_leaf_matches_rhythm<F: Fn(&str, ReferenceMode) -> bool>(
    token: TokenV,
    e: Euclid,
    i: int,
    start: nat,
    span: nat,
    acc: nat,
    k: nat,
    inh: Inherit,
    q: u64,
    t: RhythmTrace,
    f: F,
)
    requires
        1 <= e.pulses <= e.steps <= 1024,
        0 <= e.rotate <= 1024,
        0 <= i < e.steps,
        traced(
            Expression::Euclidean {
                steps: e.steps as u32,
                pulses: e.pulses as u32,
                rotation: e.rotate as i32,
                reset_on_phrase: false,
            },
            i as u64,
            q,
            t,
            f,
        ),
    ensures
        render_euclid(AtomV::Token(token), e, i, start, span, acc, k, inh) == (if trace_active(t) {
            seq![
                Placed {
                    start: start * (e.steps as nat) + span * (i as nat),
                    span,
                    acc: acc * (e.steps as nat),
                    token,
                    ratchet: ratchet_of(inh),
                    draw: draw_of(inh),
                },
            ]
        } else {
            Seq::empty()
        }) + render_euclid(AtomV::Token(token), e, i + 1, start, span, acc, k, inh),
{
    assert((i as u64) % (e.steps as u32 as u64) == i) by {
        vstd::arithmetic::div_mod::lemma_small_mod(i as nat, e.steps as nat);
    }
    assert(Euclid { pulses: e.pulses as u32 as u64, steps: e.steps as u32 as u64, rotate: e.rotate as i32 as i64 } == e);
    assert(trace_active(t) == euclid_active(e, i));
    let a = AtomV::Token(token);
    let at = start * (e.steps as nat) + span * (i as nat);
    assert(render_atom(a, at, span, acc * (e.steps as nat), k, inh) =~= seq![
        Placed { start: at, span, acc: acc * (e.steps as nat), token, ratchet: ratchet_of(inh), draw: draw_of(inh) },
    ]);
    if !euclid_active(e, i) {
        assert(Seq::<Placed>::empty() + render_euclid(AtomV::Token(token), e, i + 1, start, span, acc, k, inh)
            =~= render_euclid(AtomV::Token(token), e, i + 1, start, span, acc, k, inh));
    }
}

/// A slot of the unrotated rhythm pulses exactly where `floor(i * k / n)` steps up.
proof fn lemma_euclid_step(k: int, n: int, i: int)
    requires
        0 < n,
        0 <= k <= n,
        1 <= i < n,
    ensures
        (i * k) % n < k ==> (i * k) / n == ((i - 1) * k) / n + 1,
        (i * k) % n >= k ==> (i * k) / n == ((i - 1) * k) / n,
{
    let q = (i * k) / n;
    let r = (i * k) % n;
    vstd::arithmetic::div_mod::lemma_fundamental_div_mod(i * k, n);
    vstd::arithmetic::div_mod::lemma_mod_bound(i * k, n);
    assert((i - 1) * k == i * k - k) by (nonlinear_arith);
    if r < k {
        assert((i - 1) * k == (q - 1) * n + (n + r - k)) by (nonlinear_arith)
            requires
                i * k == n * q + r,
                (i - 1) * k == i * k - k;
        vstd::arithmetic::div_mod::lemma_fundamental_div_mod_converse((i - 1) * k, n, q - 1, n + r - k);
    } else {
        assert((i - 1) * k == q * n + (r - k)) by (nonlinear_arith)
            requires
                i * k == n * q + r,
                (i - 1) * k == i * k - k;
        vstd::arithmetic::div_mod::lemma_fundamental_div_mod_converse((i - 1) * k, n, q, r - k);
    }
}

proof fn lemma_pulse_count_prefix(k: u64, n: u64, m: int)
    requires
        0 < n,
        k <= n,
        1 <= m <= n,
    ensures
        pulse_count(Euclid { pulses: k, steps: n, rotate: 0 }, m)
            == (if k > 0 { 1int } else { 0int }) + ((m - 1) * k) / (n as int),
    decreases m,
{
    let e = Euclid { pulses: k, steps: n, rotate: 0 };
    if m == 1 {
        vstd::arithmetic::div_mod::lemma_small_mod(0, n as nat);
        assert(pulse_count(e, 0) == 0);
        assert(0 * (k as int) == 0);
    } else {
        lemma_pulse_count_prefix(k, n, m - 1);
        let i = m - 1;
        assert((i - 0) % (n as int) == i) by {
            vstd::arithmetic::div_mod::lemma_small_mod(i as nat, n as nat);
        }
        lemma_euclid_step(k as int, n as int, i);
    }
}

/// Over one cycle, E(k, n) pulses exactly `k` times.
pub proof fn lemma_euclid_pulse_count(pulses: u64, steps: u64)
    requires
        0 < steps,
        pulses <= steps,
    ensures
        pulse_count(Euclid { pulses, steps, rotate: 0 }, steps as int) == pulses,
{
    lemma_pulse_count_prefix(pulses, steps, steps as int);
    let n = steps as int;
    let k = pulses as int;
    if k > 0 {
        assert(((n - 1) * k) / n == k - 1) by {
            assert((n - 1) * k == (k - 1) * n + (n - k)) by (nonlinear_arith);
            vstd::arithmetic::div_mod::lemma_fundamental_div_mod_converse((n - 1) * k, n, k - 1, n - k);
        }
    } else {
        assert((n - 1) * k == 0) by (nonlinear_arith)
            requires
                k == 0;
    }
}

} // verus!
