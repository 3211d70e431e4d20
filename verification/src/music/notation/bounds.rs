//! The worst-case price of rendering one cycle, proved at parse time: the events a cycle may
//! emit, the render steps it may take to emit them, and whether every position stays exact
//! in `u64`. All are upper bounds, never exact counts — an alternation is charged its widest
//! element though only one plays per cycle, and a polymeter its widest element `%n` times.
//!
//! The three limits are independent. Denominator representability bounds how *fine* a
//! position can be. `MAX_EVENTS` bounds how much a cycle *emits*. `MAX_WORK` bounds how much
//! a cycle *does* — silence is not free: a rest under nested euclids emits nothing and still
//! walks every slot.
use vstd::prelude::*;

use super::{AtomV, Step, StepV, Atom, seq_view, stack_view, step_view, atom_view, lemma_stack_view,
    lemma_alt_view, lemma_poly_view};
use crate::music::ratio::{divisor, gcd_u128, lemma_gcd_divides, Ratio};
use crate::text::push_decimal;

verus! {

/// Worst-case events one cycle may render.
pub const MAX_EVENTS: u64 = 4096;
/// Worst-case render steps one cycle may take — every step and atom visited, and every
/// euclid slot whether or not it pulses.
pub const MAX_WORK: u64 = 1048576;

/// Events emitted and render steps taken.
#[derive(Clone, Copy, Debug, PartialEq, Eq, Structural)]
pub struct Cost {
    pub events: u64,
    pub work: u64,
}

pub open spec fn too_many_events() -> Seq<char> {
    "pattern may render more than "@ + crate::text::decimal(MAX_EVENTS as nat) + " events in one cycle"@
}

pub open spec fn too_much_work() -> Seq<char> {
    "pattern may take more than "@ + crate::text::decimal(MAX_WORK as nat) + " render steps in one cycle"@
}

pub open spec fn too_fine() -> Seq<char> {
    "pattern subdivides too finely for exact u64 positions"@
}

pub open spec fn weights_overflow() -> Seq<char> {
    "step weights overflow"@
}

/// Material rendered side by side: both prices add.
pub open spec fn cost_add(a: Cost, b: Cost) -> Result<Cost, Seq<char>> {
    if a.events + b.events > MAX_EVENTS {
        Err(too_many_events())
    } else if a.work + b.work > MAX_WORK {
        Err(too_much_work())
    } else {
        Ok(Cost { events: (a.events + b.events) as u64, work: (a.work + b.work) as u64 })
    }
}

/// `n` renderings of the same material.
pub open spec fn cost_times(a: Cost, n: u64) -> Result<Cost, Seq<char>> {
    if a.events * n > MAX_EVENTS {
        Err(too_many_events())
    } else if a.work * n > MAX_WORK {
        Err(too_much_work())
    } else {
        Ok(Cost { events: (a.events * n) as u64, work: (a.work * n) as u64 })
    }
}

/// Work with no events: a loop that visits slots without rendering them.
pub open spec fn cost_plus_work(a: Cost, w: u64) -> Result<Cost, Seq<char>> {
    cost_add(a, Cost { events: 0, work: w })
}

/// The visit that reached this material.
pub open spec fn cost_visit(a: Cost) -> Result<Cost, Seq<char>> {
    cost_plus_work(a, 1)
}

/// Independent maxima over branches only one of which plays.
pub open spec fn cost_worst(a: Cost, b: Cost) -> Cost {
    Cost {
        events: if a.events >= b.events { a.events } else { b.events },
        work: if a.work >= b.work { a.work } else { b.work },
    }
}

pub open spec fn silent() -> Cost {
    Cost { events: 0, work: 1 }
}

pub open spec fn one_event() -> Cost {
    Cost { events: 1, work: 1 }
}

pub open spec fn zero_cost() -> Cost {
    Cost { events: 0, work: 0 }
}

/// `acc * factor`, refused past `u64`.
pub open spec fn mul_bound(acc: u64, factor: u64) -> Result<u64, Seq<char>> {
    if acc * factor > u64::MAX { Err(too_fine()) } else { Ok((acc * factor) as u64) }
}

/// The least common multiple in `u128`, or none past it; none for a zero operand.
pub open spec fn lcm128(a: nat, b: nat) -> Option<nat> {
    if a == 0 || b == 0 {
        None
    } else if (a / divisor(a, b)) * b > u128::MAX {
        None
    } else {
        Some((a / divisor(a, b)) * b)
    }
}

/// The weight of a step: `@w`, or one.
pub open spec fn weight_of(s: StepV) -> Ratio {
    match s.weight {
        Some(w) => w,
        None => Ratio { num: 1, den: 1 },
    }
}

/// The common denominator of the first `i` weights.
pub open spec fn common_den(steps: Seq<StepV>, i: int) -> Option<nat>
    decreases i,
{
    if i <= 0 {
        Some(1)
    } else {
        match common_den(steps, i - 1) {
            None => None,
            Some(d) => lcm128(d, weight_of(steps[i - 1]).den as nat),
        }
    }
}

/// The share of step `j` over the common denominator `den`.
pub open spec fn share_of(steps: Seq<StepV>, j: int, den: nat) -> nat {
    (weight_of(steps[j]).num as nat) * (den / (weight_of(steps[j]).den as nat))
}

/// The sum of the first `i` shares.
pub open spec fn share_sum(steps: Seq<StepV>, i: int, den: nat) -> nat
    decreases i,
{
    if i <= 0 { 0 } else { share_sum(steps, i - 1, den) + share_of(steps, i - 1, den) }
}

/// Whether no share, and no partial sum of shares, leaves `u128`.
pub open spec fn shares_fit(steps: Seq<StepV>, den: nat) -> bool {
    forall|j: int| 0 <= j < steps.len() ==> share_of(steps, j, den) <= u128::MAX
        && #[trigger] share_sum(steps, j + 1, den) <= u128::MAX
}

/// The common weight denominator and the total of the shares over it, when they fit.
pub open spec fn weights_total(steps: Seq<StepV>) -> Option<(nat, nat)> {
    match common_den(steps, steps.len() as int) {
        None => None,
        Some(den) => {
            if !shares_fit(steps, den) || share_sum(steps, steps.len() as int, den) == 0 {
                None
            } else {
                Some((den, share_sum(steps, steps.len() as int, den)))
            }
        },
    }
}

/// The cost of one cycle of a sequence at denominator `acc`.
pub open spec fn seq_bounds(steps: Seq<StepV>, acc: u64) -> Result<Cost, Seq<char>>
    decreases steps, steps.len() + 1,
{
    match weights_total(steps) {
        None => Err(weights_overflow()),
        Some((_, total)) => {
            if total > u64::MAX {
                Err(weights_overflow())
            } else {
                match mul_bound(acc, total as u64) {
                    Err(e) => Err(e),
                    Ok(acc2) => seq_bounds_from(steps, 0, acc2, zero_cost()),
                }
            }
        },
    }
}

/// The cost of steps `i..` added to `cost`.
pub open spec fn seq_bounds_from(steps: Seq<StepV>, i: int, acc: u64, cost: Cost) -> Result<
    Cost,
    Seq<char>,
>
    decreases steps, steps.len() - i,
{
    if i < 0 || i >= steps.len() {
        Ok(cost)
    } else {
        match step_bounds(steps[i], acc) {
            Err(e) => Err(e),
            Ok(c) => match cost_add(cost, c) {
                Err(e) => Err(e),
                Ok(sum) => seq_bounds_from(steps, i + 1, acc, sum),
            },
        }
    }
}

/// The cost of stacked sequences `i..` added to `cost`.
pub open spec fn stack_bounds_from(seqs: Seq<Seq<StepV>>, i: int, acc: u64, cost: Cost) -> Result<
    Cost,
    Seq<char>,
>
    decreases seqs, seqs.len() - i,
{
    if i < 0 || i >= seqs.len() {
        Ok(cost)
    } else {
        match seq_bounds(seqs[i], acc) {
            Err(e) => Err(e),
            Ok(c) => match cost_add(cost, c) {
                Err(e) => Err(e),
                Ok(sum) => stack_bounds_from(seqs, i + 1, acc, sum),
            },
        }
    }
}

/// The widest of elements `i..`, against `worst` so far.
pub open spec fn widest_from(elems: Seq<StepV>, i: int, acc: u64, worst: Cost) -> Result<
    Cost,
    Seq<char>,
>
    decreases elems, elems.len() - i,
{
    if i < 0 || i >= elems.len() {
        Ok(worst)
    } else {
        match step_bounds(elems[i], acc) {
            Err(e) => Err(e),
            Ok(c) => widest_from(elems, i + 1, acc, cost_worst(worst, c)),
        }
    }
}

/// The cost of a step's material at denominator `acc`, before the visit that reached it.
pub open spec fn atom_bounds(a: AtomV, acc: u64) -> Result<Cost, Seq<char>>
    decreases a, 0int,
{
    match a {
        AtomV::Rest => Ok(silent()),
        AtomV::Token(_) => Ok(one_event()),
        AtomV::Stack(seqs) => stack_bounds_from(seqs, 0, acc, zero_cost()),
        AtomV::Alt(elems) => widest_from(elems, 0, acc, zero_cost()),
        AtomV::Poly { steps, per_cycle } => match mul_bound(acc, per_cycle) {
            Err(e) => Err(e),
            Ok(acc2) => match widest_from(steps, 0, acc2, zero_cost()) {
                Err(e) => Err(e),
                Ok(w) => cost_times(w, per_cycle),
            },
        },
    }
}

/// The cost of one step at denominator `acc`.
pub open spec fn step_bounds(s: StepV, acc: u64) -> Result<Cost, Seq<char>>
    decreases s, 0int,
{
    let acc1 = match s.euclid {
        Some(e) => mul_bound(acc, e.steps),
        None => Ok(acc),
    };
    match acc1 {
        Err(e) => Err(e),
        Ok(acc1) => match atom_bounds(s.atom, acc1) {
            Err(e) => Err(e),
            Ok(c) => match cost_visit(c) {
                Err(e) => Err(e),
                Ok(atom) => match s.euclid {
                    Some(e) => match cost_times(atom, e.pulses) {
                        Err(e) => Err(e),
                        Ok(t) => match cost_plus_work(t, e.steps) {
                            Err(e) => Err(e),
                            Ok(t2) => cost_visit(t2),
                        },
                    },
                    None => cost_visit(atom),
                },
            },
        },
    }
}

/// The message for too many events.
pub fn too_many_events_message() -> (e: String)
    ensures
        e@ == too_many_events(),
{
    let mut e = String::from_str("pattern may render more than ");
    push_decimal(&mut e, MAX_EVENTS as u128);
    e.append(" events in one cycle");
    proof {
        assert(e@ =~= too_many_events());
    }
    e
}

/// The message for too much work.
pub fn too_much_work_message() -> (e: String)
    ensures
        e@ == too_much_work(),
{
    let mut e = String::from_str("pattern may take more than ");
    push_decimal(&mut e, MAX_WORK as u128);
    e.append(" render steps in one cycle");
    proof {
        assert(e@ =~= too_much_work());
    }
    e
}

pub fn add_events(a: u64, b: u64) -> (r: Result<u64, String>)
    ensures
        match r {
            Ok(v) => a + b <= MAX_EVENTS && v == a + b,
            Err(e) => a + b > MAX_EVENTS && e@ == too_many_events(),
        },
{
    if a > MAX_EVENTS || b > MAX_EVENTS - a {
        Err(too_many_events_message())
    } else {
        Ok(a + b)
    }
}

pub fn mul_events(a: u64, b: u64) -> (r: Result<u64, String>)
    ensures
        match r {
            Ok(v) => a * b <= MAX_EVENTS && v == a * b,
            Err(e) => a * b > MAX_EVENTS && e@ == too_many_events(),
        },
{
    if b != 0 && a > MAX_EVENTS / b {
        proof {
            assert(a * b > MAX_EVENTS) by (nonlinear_arith)
                requires b > 0, a > MAX_EVENTS / b;
        }
        Err(too_many_events_message())
    } else {
        proof {
            assert(a * b <= MAX_EVENTS) by (nonlinear_arith)
                requires b == 0 || a <= MAX_EVENTS / b;
        }
        Ok(a * b)
    }
}

pub fn add_work(a: u64, b: u64) -> (r: Result<u64, String>)
    ensures
        match r {
            Ok(v) => a + b <= MAX_WORK && v == a + b,
            Err(e) => a + b > MAX_WORK && e@ == too_much_work(),
        },
{
    if a > MAX_WORK || b > MAX_WORK - a {
        Err(too_much_work_message())
    } else {
        Ok(a + b)
    }
}

pub fn mul_work(a: u64, b: u64) -> (r: Result<u64, String>)
    ensures
        match r {
            Ok(v) => a * b <= MAX_WORK && v == a * b,
            Err(e) => a * b > MAX_WORK && e@ == too_much_work(),
        },
{
    if b != 0 && a > MAX_WORK / b {
        proof {
            assert(a * b > MAX_WORK) by (nonlinear_arith)
                requires b > 0, a > MAX_WORK / b;
        }
        Err(too_much_work_message())
    } else {
        proof {
            assert(a * b <= MAX_WORK) by (nonlinear_arith)
                requires b == 0 || a <= MAX_WORK / b;
        }
        Ok(a * b)
    }
}

pub fn mul_bound_exec(acc: u64, factor: u64) -> (r: Result<u64, String>)
    ensures
        match r {
            Ok(v) => mul_bound(acc, factor) == Ok::<u64, Seq<char>>(v),
            Err(e) => mul_bound(acc, factor) == Err::<u64, Seq<char>>(e@),
        },
{
    if factor != 0 && acc > u64::MAX / factor {
        proof {
            assert(acc * factor > u64::MAX) by (nonlinear_arith)
                requires factor > 0, acc > u64::MAX / factor;
        }
        Err(String::from_str("pattern subdivides too finely for exact u64 positions"))
    } else {
        proof {
            assert(acc * factor <= u64::MAX) by (nonlinear_arith)
                requires factor == 0 || acc <= u64::MAX / factor;
        }
        Ok(acc * factor)
    }
}

pub open spec fn agrees_cost(r: Result<Cost, String>, spec: Result<Cost, Seq<char>>) -> bool {
    match r {
        Ok(c) => spec == Ok::<Cost, Seq<char>>(c),
        Err(e) => spec == Err::<Cost, Seq<char>>(e@),
    }
}

impl Cost {
    pub fn zero() -> (c: Cost)
        ensures
            c == zero_cost(),
    {
        Cost { events: 0, work: 0 }
    }

    /// A leaf that emits nothing and still costs the visit that discovers it.
    pub fn silent() -> (c: Cost)
        ensures
            c == silent(),
    {
        Cost { events: 0, work: 1 }
    }

    pub fn event() -> (c: Cost)
        ensures
            c == one_event(),
    {
        Cost { events: 1, work: 1 }
    }

    /// Material rendered side by side: both prices add.
    pub fn add(self, other: Cost) -> (r: Result<Cost, String>)
        ensures
            agrees_cost(r, cost_add(self, other)),
    {
        let events = match add_events(self.events, other.events) {
            Ok(v) => v,
            Err(e) => return Err(e),
        };
        let work = match add_work(self.work, other.work) {
            Ok(v) => v,
            Err(e) => return Err(e),
        };
        Ok(Cost { events, work })
    }

    /// `n` renderings of the same material.
    pub fn times(self, n: u64) -> (r: Result<Cost, String>)
        ensures
            agrees_cost(r, cost_times(self, n)),
    {
        let events = match mul_events(self.events, n) {
            Ok(v) => v,
            Err(e) => return Err(e),
        };
        let work = match mul_work(self.work, n) {
            Ok(v) => v,
            Err(e) => return Err(e),
        };
        Ok(Cost { events, work })
    }

    /// Work with no events: a loop that visits slots without rendering them.
    pub fn plus_work(self, work: u64) -> (r: Result<Cost, String>)
        ensures
            agrees_cost(r, cost_plus_work(self, work)),
    {
        self.add(Cost { events: 0, work })
    }

    /// The visit that reached this material.
    pub fn visit(self) -> (r: Result<Cost, String>)
        ensures
            agrees_cost(r, cost_visit(self)),
    {
        self.plus_work(1)
    }

    /// Independent maxima over branches only one of which plays.
    pub fn worst(self, other: Cost) -> (c: Cost)
        ensures
            c == cost_worst(self, other),
    {
        Cost {
            events: if self.events >= other.events { self.events } else { other.events },
            work: if self.work >= other.work { self.work } else { other.work },
        }
    }
}

/// The least common multiple, or none past `u128` or for a zero operand.
pub fn lcm(a: u128, b: u128) -> (r: Option<u128>)
    ensures
        match r {
            Some(v) => lcm128(a as nat, b as nat) == Some(v as nat) && v > 0,
            None => lcm128(a as nat, b as nat) is None,
        },
{
    if a == 0 || b == 0 {
        return None;
    }
    let g = gcd_u128(a, b);
    proof {
        lemma_gcd_divides(a as nat, b as nat);
        crate::music::ratio::lemma_div_le(a as nat, g as nat);
    }
    let q = a / g;
    if b != 0 && q > u128::MAX / b {
        proof {
            assert(q * b > u128::MAX) by (nonlinear_arith)
                requires b > 0, q > u128::MAX / b;
        }
        return None;
    }
    proof {
        assert(q * b <= u128::MAX) by (nonlinear_arith)
            requires b > 0, q <= u128::MAX / b;
        assert(q > 0) by (nonlinear_arith)
            requires a > 0, g > 0, a % g == 0, q == a / g;
        assert(q * b > 0) by (nonlinear_arith)
            requires q > 0, b > 0;
    }
    Some(q * b)
}

/// The least common multiple in `u64`, or none past it.
pub fn lcm64(a: u64, b: u64) -> (r: Option<u64>)
    ensures
        match r {
            Some(v) => lcm128(a as nat, b as nat) == Some(v as nat),
            None => lcm128(a as nat, b as nat) is None || lcm128(a as nat, b as nat).unwrap() > u64::MAX,
        },
{
    match lcm(a as u128, b as u128) {
        Some(v) => {
            if v > u64::MAX as u128 {
                None
            } else {
                Some(v as u64)
            }
        },
        None => None,
    }
}

pub fn weight_exec(s: &Step) -> (w: Ratio)
    ensures
        w == weight_of(step_view(*s)),
{
    match s.weight {
        Some(w) => w,
        None => Ratio { num: 1, den: 1 },
    }
}

proof fn lemma_common_den_positive(v: Seq<StepV>, i: int)
    requires
        0 <= i <= v.len(),
        common_den(v, i) is Some,
    ensures
        forall|k: int| 0 <= k < i ==> (#[trigger] weight_of(v[k])).den > 0,
    decreases i,
{
    if i > 0 {
        lemma_common_den_positive(v, i - 1);
    }
}

proof fn lemma_common_den_none(v: Seq<StepV>, i: int, n: int)
    requires
        0 <= i <= n,
        common_den(v, i) is None,
    ensures
        common_den(v, n) is None,
    decreases n - i,
{
    if i < n {
        lemma_common_den_none(v, i + 1, n);
    }
}

/// Integer shares per step and their total, over the sequence's common weight denominator.
pub fn weights(steps: &Vec<Step>) -> (r: Option<(Vec<u128>, u128)>)
    ensures
        match r {
            Some((shares, total)) => {
                &&& weights_total(seq_view(steps@)) matches Some((den, t))
                &&& t == total
                &&& shares@.len() == steps@.len()
                &&& forall|j: int| 0 <= j < steps@.len() ==> shares@[j] == share_of(seq_view(steps@), j, den)
            },
            None => weights_total(seq_view(steps@)) is None,
        },
{
    let ghost v = seq_view(steps@);
    let mut den: u128 = 1;
    let mut i: usize = 0;
    while i < steps.len()
        invariant
            i <= steps@.len(),
            v == seq_view(steps@),
            common_den(v, i as int) == Some(den as nat),
            den > 0,
        decreases steps@.len() - i,
    {
        let w = weight_exec(&steps[i]);
        proof {
            assert(v[i as int] == step_view(steps@[i as int]));
        }
        den = match lcm(den, w.den as u128) {
            Some(d) => d,
            None => {
                proof {
                    lemma_common_den_none(v, i + 1, v.len() as int);
                }
                return None;
            },
        };
        i += 1;
    }
    proof {
        lemma_common_den_positive(v, v.len() as int);
    }
    let mut shares: Vec<u128> = Vec::new();
    let mut total: u128 = 0;
    let mut j: usize = 0;
    while j < steps.len()
        invariant
            j <= steps@.len(),
            v == seq_view(steps@),
            common_den(v, v.len() as int) == Some(den as nat),
            den > 0,
            shares@.len() == j,
            total as nat == share_sum(v, j as int, den as nat),
            forall|k: int| 0 <= k < j ==> #[trigger] shares@[k] == share_of(v, k, den as nat),
            forall|k: int| 0 <= k < j ==> #[trigger] share_sum(v, k + 1, den as nat) <= u128::MAX,
            forall|k: int| 0 <= k < j ==> #[trigger] share_of(v, k, den as nat) <= u128::MAX,
            forall|k: int| 0 <= k < v.len() ==> (#[trigger] weight_of(v[k])).den > 0,
        decreases steps@.len() - j,
    {
        let w = weight_exec(&steps[j]);
        proof {
            assert(v[j as int] == step_view(steps@[j as int]));
        }
        let q = den / (w.den as u128);
        if w.num != 0 && q > u128::MAX / (w.num as u128) {
            proof {
                assert((w.num as nat) * (q as nat) > u128::MAX) by (nonlinear_arith)
                    requires w.num > 0, q > u128::MAX / (w.num as u128);
                assert(share_sum(v, j + 1, den as nat) == share_sum(v, j as int, den as nat) + share_of(v, j as int, den as nat));
                assert(!shares_fit(v, den as nat));
            }
            return None;
        }
        proof {
            assert((w.num as nat) * (q as nat) <= u128::MAX) by (nonlinear_arith)
                requires w.num == 0 || q <= u128::MAX / (w.num as u128);
        }
        let share = (w.num as u128) * q;
        if total > u128::MAX - share {
            proof {
                assert(share_sum(v, j + 1, den as nat) > u128::MAX);
                assert(!shares_fit(v, den as nat));
            }
            return None;
        }
        proof {
            assert(share_of(v, j as int, den as nat) == share as nat);
            assert(share_sum(v, j + 1, den as nat) == share_sum(v, j as int, den as nat) + share_of(v, j as int, den as nat));
        }
        total = total + share;
        shares.push(share);
        j += 1;
    }
    proof {
        assert(shares_fit(v, den as nat)) by {
            assert forall|k: int| 0 <= k < v.len() implies share_of(v, k, den as nat) <= u128::MAX
                && #[trigger] share_sum(v, k + 1, den as nat) <= u128::MAX by {
                assert(share_sum(v, k + 1, den as nat) <= u128::MAX);
            }
        }
    }
    if total == 0 {
        return None;
    }
    Some((shares, total))
}

/// Prove no reachable onset or span needs a denominator past `u64`, so rendering cannot
/// overflow, and return the worst-case cost of one cycle of the sequence.
pub fn check_bounds(steps: &Vec<Step>, acc: u64) -> (r: Result<Cost, String>)
    ensures
        agrees_cost(r, seq_bounds(seq_view(steps@), acc)),
    decreases seq_view(steps@), 1int,
{
    let ghost v = seq_view(steps@);
    let total = match weights(steps) {
        Some((_, total)) => total,
        None => return Err(String::from_str("step weights overflow")),
    };
    if total > u64::MAX as u128 {
        return Err(String::from_str("step weights overflow"));
    }
    let acc2 = match mul_bound_exec(acc, total as u64) {
        Ok(a) => a,
        Err(e) => return Err(e),
    };
    let mut cost = Cost::zero();
    let mut i: usize = 0;
    while i < steps.len()
        invariant
            i <= steps@.len(),
            v == seq_view(steps@),
            seq_bounds(v, acc) == seq_bounds_from(v, i as int, acc2, cost),
        decreases steps@.len() - i,
    {
        proof {
            assert(v[i as int] == step_view(steps@[i as int]));
        }
        let c = match check_step_bounds(&steps[i], acc2) {
            Ok(c) => c,
            Err(e) => return Err(e),
        };
        cost = match cost.add(c) {
            Ok(c) => c,
            Err(e) => return Err(e),
        };
        i += 1;
    }
    Ok(cost)
}

/// The cost of one step at denominator `acc`.
pub fn check_step_bounds(step: &Step, acc: u64) -> (r: Result<Cost, String>)
    ensures
        agrees_cost(r, step_bounds(step_view(*step), acc)),
    decreases step_view(*step), 1int,
{
    let acc1 = match step.euclid {
        Some(e) => match mul_bound_exec(acc, e.steps) {
            Ok(a) => a,
            Err(e) => return Err(e),
        },
        None => acc,
    };
    let c = match check_atom_bounds(&step.atom, acc1) {
        Ok(c) => c,
        Err(e) => return Err(e),
    };
    let atom = match c.visit() {
        Ok(c) => c,
        Err(e) => return Err(e),
    };
    match step.euclid {
        Some(e) => {
            let t = match atom.times(e.pulses) {
                Ok(c) => c,
                Err(e) => return Err(e),
            };
            let t2 = match t.plus_work(e.steps) {
                Ok(c) => c,
                Err(e) => return Err(e),
            };
            t2.visit()
        },
        None => atom.visit(),
    }
}

/// The cost of a step's material at denominator `acc`.
fn check_atom_bounds(atom: &Atom, acc: u64) -> (r: Result<Cost, String>)
    ensures
        agrees_cost(r, atom_bounds(atom_view(*atom), acc)),
    decreases atom_view(*atom), 0int,
{
    match atom {
        Atom::Rest => Ok(Cost::silent()),
        Atom::Token(_) => Ok(Cost::event()),
        Atom::Stack(seqs) => {
            proof {
                lemma_stack_view(*seqs);
            }
            let ghost v = stack_view(seqs@);
            let mut cost = Cost::zero();
            let mut i: usize = 0;
            while i < seqs.len()
                invariant
                    i <= seqs@.len(),
                    v == stack_view(seqs@),
                    atom_view(*atom) == AtomV::Stack(v),
                    stack_bounds_from(v, 0, acc, zero_cost()) == stack_bounds_from(v, i as int, acc, cost),
                decreases seqs@.len() - i,
            {
                proof {
                    assert(v[i as int] == seq_view(seqs@[i as int]@));
                    assert(decreases_to!(atom_view(*atom) => v));
                    assert(decreases_to!(v => v[i as int]));
                }
                let c = match check_bounds(&seqs[i], acc) {
                    Ok(c) => c,
                    Err(e) => return Err(e),
                };
                cost = match cost.add(c) {
                    Ok(c) => c,
                    Err(e) => return Err(e),
                };
                i += 1;
            }
            Ok(cost)
        },
        Atom::Alt(elems) => {
            proof {
                lemma_alt_view(*elems);
            }
            widest(elems, acc)
        },
        Atom::Poly { steps, per_cycle } => {
            proof {
                lemma_poly_view(*steps, *per_cycle);
            }
            let acc2 = match mul_bound_exec(acc, *per_cycle) {
                Ok(a) => a,
                Err(e) => return Err(e),
            };
            let w = match widest(steps, acc2) {
                Ok(w) => w,
                Err(e) => return Err(e),
            };
            w.times(*per_cycle)
        },
    }
}

/// The widest of the elements, any one of which may play.
fn widest(elems: &Vec<Step>, acc: u64) -> (r: Result<Cost, String>)
    ensures
        agrees_cost(r, widest_from(seq_view(elems@), 0, acc, zero_cost())),
    decreases seq_view(elems@), 0int,
{
    let ghost v = seq_view(elems@);
    let mut worst = Cost::zero();
    let mut i: usize = 0;
    while i < elems.len()
        invariant
            i <= elems@.len(),
            v == seq_view(elems@),
            widest_from(v, 0, acc, zero_cost()) == widest_from(v, i as int, acc, worst),
        decreases elems@.len() - i,
    {
        proof {
            assert(v[i as int] == step_view(elems@[i as int]));
        }
        let c = match check_step_bounds(&elems[i], acc) {
            Ok(c) => c,
            Err(e) => return Err(e),
        };
        worst = worst.worst(c);
        i += 1;
    }
    Ok(worst)
}

} // verus!
