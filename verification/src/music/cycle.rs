//! Structural periods: how long each rhythm takes to repeat on the transport, without ever
//! materialising a full common cycle.
use vstd::prelude::*;

use super::ratio::{gcd, lemma_gcd_divides};
use super::rhythm::literal::step_attack;
use super::rhythm::{evaluable, trace_active, traced, Expression, ReferenceMode, RhythmTrace};
use super::router::gcd_u64;

verus! {

/// Phase metadata for a realised window.
#[derive(Clone, Debug)]
pub struct CycleSpan {
    pub start_tick: u64,
    pub end_tick: u64,
    pub phase_origin_tick: u64,
    pub phrase_steps: u64,
    /// Common structural phase alignment, not a promise of identical realised events. None
    /// means the common multiple exceeds u64 or a source has no fixed structural cycle.
    pub phase_alignment_steps: Option<u64>,
    pub phase_alignment_ticks: Option<u64>,
}

/// Why a structural period cannot supply a fixed transport clock.
#[derive(Clone, Copy, Debug, PartialEq, Eq, Structural)]
pub enum PeriodError {
    Retained,
    Overflow,
}

/// The lcm of two periods: evolving material has no period whatever the other is, and an
/// overflow is an overflow.
pub open spec fn period_lcm(a: Result<u64, PeriodError>, b: Result<u64, PeriodError>) -> Result<u64, PeriodError> {
    if a == Err::<u64, PeriodError>(PeriodError::Retained) || b == Err::<u64, PeriodError>(PeriodError::Retained) {
        Err(PeriodError::Retained)
    } else {
        match (a, b) {
            (Ok(x), Ok(y)) => {
                let l = (x as nat / gcd(x as nat, y as nat)) * (y as nat);
                if l > u64::MAX { Err(PeriodError::Overflow) } else { Ok(l as u64) }
            },
            (Err(e), _) => Err(e),
            (_, Err(e)) => Err(e),
        }
    }
}

/// The period recorded for Part `id`: the first entry with that key.
pub open spec fn period_for(refs: Seq<(&str, Result<u64, PeriodError>)>, id: Seq<char>) -> Result<u64, PeriodError>
    decreases refs.len(),
{
    if refs.len() == 0 {
        Err(PeriodError::Overflow)
    } else if refs[0].0@ == id {
        refs[0].1
    } else {
        period_for(refs.drop_first(), id)
    }
}

/// Whether every Part the expression reads has a recorded period.
pub open spec fn refs_known(e: Expression, refs: Seq<(&str, Result<u64, PeriodError>)>) -> bool
    decreases e,
{
    match e {
        Expression::Part { id, .. } => exists|i: int| 0 <= i < refs.len() && (#[trigger] refs[i]).0@ == id@,
        Expression::Binary { a, b, .. } => refs_known(*a, refs) && refs_known(*b, refs),
        _ => true,
    }
}

/// Whether every recorded period is positive.
pub open spec fn refs_positive(refs: Seq<(&str, Result<u64, PeriodError>)>) -> bool {
    forall|i: int| 0 <= i < refs.len() ==> ((#[trigger] refs[i]).1 matches Ok(v) ==> v > 0)
}

/// The structural period of an expression in ticks: a literal's schedule period, a Euclidean
/// rhythm's steps of `cell` ticks (or the lcm of the phrase and the cell when it resets on the
/// phrase), the lcm of a combination, and a referenced Part's period on this Part's cell.
pub open spec fn period_of(e: Expression, phrase: u64, cell: u64, refs: Seq<(&str, Result<u64, PeriodError>)>) -> Result<u64, PeriodError>
    decreases e,
{
    match e {
        Expression::Literal { prepared, .. } => match prepared {
            Some(p) => Ok(p@.schedule.period as u64),
            None => Err(PeriodError::Overflow),
        },
        Expression::Euclidean { steps, reset_on_phrase, .. } => if reset_on_phrase {
            period_lcm(Ok(phrase), Ok(cell))
        } else if (steps as nat) * (cell as nat) > u64::MAX {
            Err(PeriodError::Overflow)
        } else {
            Ok((steps * cell) as u64)
        },
        Expression::Binary { a, b, .. } => period_lcm(period_of(*a, phrase, cell, refs), period_of(*b, phrase, cell, refs)),
        Expression::Part { id, .. } => period_lcm(period_for(refs, id@), Ok(cell)),
    }
}

/// The lcm of two periods. Two zero periods have no lcm, and are left out by the contract.
pub fn lcm(a: Result<u64, PeriodError>, b: Result<u64, PeriodError>) -> (r: Result<u64, PeriodError>)
    requires
        !(a == Ok::<u64, PeriodError>(0) && b == Ok::<u64, PeriodError>(0)),
    ensures
        r == period_lcm(a, b),
        (a is Ok && a->Ok_0 > 0 && b is Ok && b->Ok_0 > 0 && r is Ok) ==> r->Ok_0 > 0,
{
    let retained_a = match a {
        Err(PeriodError::Retained) => true,
        _ => false,
    };
    let retained_b = match b {
        Err(PeriodError::Retained) => true,
        _ => false,
    };
    if retained_a || retained_b {
        return Err(PeriodError::Retained);
    }
    let x = match a {
        Ok(x) => x,
        Err(e) => return Err(e),
    };
    let y = match b {
        Ok(y) => y,
        Err(e) => return Err(e),
    };
    let g = gcd_u64(x, y);
    proof {
        lemma_gcd_divides(x as nat, y as nat);
    }
    match (x / g).checked_mul(y) {
        Some(l) => {
            proof {
                if x > 0 && y > 0 {
                    vstd::arithmetic::div_mod::lemma_fundamental_div_mod(x as int, g as int);
                    assert(x / g > 0) by (nonlinear_arith)
                        requires x == g * (x / g) + x % g, x % g == 0, x > 0, g > 0;
                    assert(l > 0) by (nonlinear_arith) requires l == (x / g) * y, x / g > 0, y > 0;
                }
            }
            Ok(l)
        },
        None => Err(PeriodError::Overflow),
    }
}

fn period_lookup(refs: &[(&str, Result<u64, PeriodError>)], id: &str) -> (r: Result<u64, PeriodError>)
    requires
        exists|i: int| 0 <= i < refs@.len() && (#[trigger] refs@[i]).0@ == id@,
    ensures
        r == period_for(refs@, id@),
        refs_positive(refs@) ==> (r matches Ok(v) ==> v > 0),
{
    let mut i: usize = 0;
    proof {
        assert(refs@.subrange(0, refs@.len() as int) =~= refs@);
    }
    while i < refs.len()
        invariant
            i <= refs@.len(),
            exists|x: int| i <= x < refs@.len() && (#[trigger] refs@[x]).0@ == id@,
            period_for(refs@, id@) == period_for(refs@.subrange(i as int, refs@.len() as int), id@),
        decreases refs@.len() - i,
    {
        let (key, period) = refs[i];
        let ghost rest = refs@.subrange(i as int, refs@.len() as int);
        proof {
            assert(rest[0] == refs@[i as int]);
            assert(rest.drop_first() =~= refs@.subrange(i + 1, refs@.len() as int));
        }
        if crate::text::same_text(key, id) {
            return period;
        }
        i += 1;
    }
    Err(PeriodError::Overflow)
}

/// The structural period of `e` in ticks, reading referenced Parts' periods from `refs`.
pub fn expression(e: &Expression, phrase: u64, cell: u64, refs: &[(&str, Result<u64, PeriodError>)]) -> (r: Result<u64, PeriodError>)
    requires
        phrase > 0,
        cell > 0,
        evaluable(*e),
        refs_known(*e, refs@),
        refs_positive(refs@),
    ensures
        r == period_of(*e, phrase, cell, refs@),
        r matches Ok(v) ==> v > 0,
    decreases *e,
{
    match e {
        Expression::Literal { .. } => match e.literal_schedule() {
            Some(p) => Ok(p.schedule().period_ticks()),
            None => Err(PeriodError::Overflow),
        },
        Expression::Euclidean { steps, reset_on_phrase, .. } => {
            if *reset_on_phrase {
                lcm(Ok(phrase), Ok(cell))
            } else {
                match (*steps as u64).checked_mul(cell) {
                    Some(p) => {
                        proof {
                            assert(p > 0) by (nonlinear_arith) requires p == *steps * cell, *steps > 0, cell > 0;
                        }
                        Ok(p)
                    },
                    None => Err(PeriodError::Overflow),
                }
            }
        },
        Expression::Binary { a, b, .. } => lcm(expression(a, phrase, cell, refs), expression(b, phrase, cell, refs)),
        Expression::Part { id, .. } => lcm(period_lookup(refs, id.as_str()), Ok(cell)),
    }
}

/// Whether the rhythm reads no other Part, and every literal in it is prepared on steps of
/// `cell` ticks with a period that a tick count holds.
pub open spec fn self_timed(e: Expression, cell: u64) -> bool
    decreases e,
{
    match e {
        Expression::Literal { prepared, .. } => prepared matches Some(p) && p@.cell == cell
            && 0 < p@.schedule.period <= u64::MAX,
        Expression::Euclidean { .. } => true,
        Expression::Binary { a, b, .. } => self_timed(*a, cell) && self_timed(*b, cell),
        Expression::Part { .. } => false,
    }
}

/// `c` is a multiple of `a` when it is a multiple of a multiple of `a`.
pub(crate) proof fn lemma_divides_trans(a: nat, b: nat, c: nat)
    requires
        a > 0,
        b > 0,
        b % a == 0,
        c % b == 0,
    ensures
        c % a == 0,
{
    vstd::arithmetic::div_mod::lemma_fundamental_div_mod(b as int, a as int);
    vstd::arithmetic::div_mod::lemma_fundamental_div_mod(c as int, b as int);
    let x = b / a;
    let y = c / b;
    assert(c == a * (x * y)) by (nonlinear_arith)
        requires
            b == a * x + 0,
            c == b * y + 0;
    vstd::arithmetic::div_mod::lemma_mod_multiples_basic((x * y) as int, a as int);
}

/// The lcm of two positive periods is a positive multiple of each.
proof fn lemma_lcm_multiple(x: u64, y: u64)
    requires
        x > 0,
        y > 0,
        period_lcm(Ok(x), Ok(y)) is Ok,
    ensures
        period_lcm(Ok(x), Ok(y))->Ok_0 > 0,
        (period_lcm(Ok(x), Ok(y))->Ok_0 as nat) % (x as nat) == 0,
        (period_lcm(Ok(x), Ok(y))->Ok_0 as nat) % (y as nat) == 0,
{
    let g = gcd(x as nat, y as nat);
    lemma_gcd_divides(x as nat, y as nat);
    let l = (x as nat / g) * (y as nat);
    assert(period_lcm(Ok(x), Ok(y)) == Ok::<u64, PeriodError>(l as u64));
    vstd::arithmetic::div_mod::lemma_fundamental_div_mod(x as int, g as int);
    vstd::arithmetic::div_mod::lemma_fundamental_div_mod(y as int, g as int);
    let h = y as nat / g;
    let w = x as nat / g;
    assert(l == (x as nat) * h && l > 0) by (nonlinear_arith)
        requires
            l == w * (y as nat),
            x == g * w + 0,
            y == g * h + 0,
            x > 0,
            y > 0,
            g > 0;
    vstd::arithmetic::div_mod::lemma_mod_multiples_basic(h as int, x as int);
    vstd::arithmetic::div_mod::lemma_mod_multiples_basic(w as int, y as int);
    assert(w * (y as nat) == (y as nat) * w) by (nonlinear_arith);
}

/// The lcm of a phrase of `p` steps of `c` ticks and the cell is the phrase.
proof fn lemma_phrase_lcm(p: u64, c: u64)
    requires
        p > 0,
        c > 0,
        p * c <= u64::MAX,
    ensures
        period_lcm(Ok((p * c) as u64), Ok(c)) == Ok::<u64, PeriodError>((p * c) as u64),
{
    let pc = (p * c) as nat;
    vstd::arithmetic::div_mod::lemma_mod_multiples_basic(p as int, c as int);
    assert((p as int) * (c as int) == (c as int) * (p as int)) by (nonlinear_arith);
    assert(pc % (c as nat) == 0);
    assert(gcd(c as nat, 0) == c as nat);
    assert(gcd(pc, c as nat) == gcd(c as nat, pc % (c as nat)));
    assert(gcd(pc, c as nat) == c as nat);
    vstd::arithmetic::div_mod::lemma_div_multiples_vanish(p as int, c as int);
    assert(pc / (c as nat) == p);
    assert((pc / (c as nat)) * (c as nat) == pc) by (nonlinear_arith)
        requires
            pc / (c as nat) == p,
            pc == p * c;
}

/// A rhythm that reads no other Part has a positive period, when it has one.
proof fn lemma_period_positive(e: Expression, p: u64, cell: u64, refs: Seq<(&str, Result<u64, PeriodError>)>)
    requires
        cell > 0,
        p > 0,
        p * cell <= u64::MAX,
        self_timed(e, cell),
        evaluable(e),
    ensures
        period_of(e, (p * cell) as u64, cell, refs) matches Ok(v) ==> v > 0,
    decreases e,
{
    match e {
        Expression::Euclidean { steps, reset_on_phrase, .. } => {
            if reset_on_phrase {
                lemma_phrase_lcm(p, cell);
                assert((p as nat) * (cell as nat) > 0) by (nonlinear_arith)
                    requires
                        p > 0,
                        cell > 0;
            } else {
                assert((steps as nat) * (cell as nat) > 0) by (nonlinear_arith)
                    requires
                        steps > 0,
                        cell > 0;
            }
        },
        Expression::Binary { a, b, .. } => {
            lemma_period_positive(*a, p, cell, refs);
            lemma_period_positive(*b, p, cell, refs);
            let pa = period_of(*a, (p * cell) as u64, cell, refs);
            let pb = period_of(*b, (p * cell) as u64, cell, refs);
            if pa is Ok && pb is Ok && period_lcm(pa, pb) is Ok {
                lemma_lcm_multiple(pa->Ok_0, pb->Ok_0);
            }
        },
        _ => {},
    }
}

/// `m` is a multiple of `n` when `m` cells are a multiple of `n` cells.
proof fn lemma_cancel_cell(m: nat, n: nat, c: nat)
    requires
        n > 0,
        c > 0,
        (m * c) % (n * c) == 0,
    ensures
        m % n == 0,
{
    assert(n * c > 0) by (nonlinear_arith)
        requires
            n > 0,
            c > 0;
    vstd::arithmetic::div_mod::lemma_fundamental_div_mod((m * c) as int, (n * c) as int);
    let d = (m * c) / (n * c);
    assert(c * (m as int) == c * ((n * d) as int)) by (nonlinear_arith)
        requires
            m * c == (n * c) * d + 0;
    vstd::arithmetic::mul::lemma_mul_equality_converse(c as int, m as int, (n * d) as int);
    assert((n * d) as int == (d as int) * (n as int)) by (nonlinear_arith);
    vstd::arithmetic::div_mod::lemma_mod_multiples_basic(d as int, n as int);
}

/// A rhythm that reads no other Part — literal material prepared on `cell`-tick steps,
/// Euclidean rhythms counted on the transport or reset on a phrase of `phrase_steps` steps,
/// and their combinations — repeats after its structural period: evaluated at step `s` and at
/// step `s + m`, where `m` steps of `cell` ticks span a whole number of periods, it is active
/// alike. Rhythms of 16, 5 and 7 steps, combined, realign after 560 steps.
pub proof fn lemma_period_realigns<F: Fn(&str, ReferenceMode) -> bool>(
    e: Expression,
    phrase_steps: u64,
    cell: u64,
    refs: Seq<(&str, Result<u64, PeriodError>)>,
    s: u64,
    m: u64,
    t1: RhythmTrace,
    t2: RhythmTrace,
    f: F,
)
    requires
        cell > 0,
        phrase_steps > 0,
        phrase_steps * cell <= u64::MAX,
        self_timed(e, cell),
        evaluable(e),
        period_of(e, (phrase_steps * cell) as u64, cell, refs) is Ok,
        ((m as nat) * (cell as nat)) % (period_of(e, (phrase_steps * cell) as u64, cell, refs)->Ok_0 as nat) == 0,
        s + m <= u64::MAX,
        traced(e, s, s % phrase_steps, t1, f),
        traced(e, (s + m) as u64, ((s + m) as u64) % phrase_steps, t2, f),
    ensures
        trace_active(t1) == trace_active(t2),
    decreases e,
{
    match e {
        Expression::Euclidean { steps, reset_on_phrase, .. } => {
            let n: nat = if reset_on_phrase { phrase_steps as nat } else { steps as nat };
            if reset_on_phrase {
                lemma_phrase_lcm(phrase_steps, cell);
            }
            lemma_cancel_cell(m as nat, n, cell as nat);
            vstd::arithmetic::div_mod::lemma_fundamental_div_mod(m as int, n as int);
            vstd::arithmetic::div_mod::lemma_mod_multiples_vanish((m as int) / (n as int), s as int, n as int);
            assert((s + m) as int == (n as int) * ((m as int) / (n as int)) + s);
            if reset_on_phrase {
                assert(((s + m) as u64) % phrase_steps == s % phrase_steps);
            } else {
                assert(((s + m) as u64) % (steps as u64) == s % (steps as u64));
            }
        },
        Expression::Literal { prepared, .. } => {
            let p = prepared->Some_0@;
            let per = p.schedule.period;
            let c = cell as nat;
            assert(period_of(e, (phrase_steps * cell) as u64, cell, refs) == Ok::<u64, PeriodError>(per as u64));
            vstd::arithmetic::div_mod::lemma_fundamental_div_mod(((m as nat) * c) as int, per as int);
            let t = ((m as nat) * c) as int / (per as int);
            assert(((s + m) as u64 as nat) * c - p.schedule.rotation == (per as int) * t + ((s as nat) * c - p.schedule.rotation)) by (nonlinear_arith)
                requires
                    ((m as nat) * c) as int == (per as int) * t + 0,
                    (s + m) as u64 == s + m;
            vstd::arithmetic::div_mod::lemma_mod_multiples_vanish(t, (s as nat) * c - p.schedule.rotation, per as int);
        },
        Expression::Binary { a, b, .. } => {
            let ph = (phrase_steps * cell) as u64;
            let pa = period_of(*a, ph, cell, refs);
            let pb = period_of(*b, ph, cell, refs);
            let l = period_of(e, ph, cell, refs)->Ok_0;
            assert(pa is Ok && pb is Ok);
            let x = pa->Ok_0;
            let y = pb->Ok_0;
            lemma_period_positive(*a, phrase_steps, cell, refs);
            lemma_period_positive(*b, phrase_steps, cell, refs);
            lemma_lcm_multiple(x, y);
            lemma_divides_trans(x as nat, l as nat, (m as nat) * (cell as nat));
            lemma_divides_trans(y as nat, l as nat, (m as nat) * (cell as nat));
            match (t1, t2) {
                (RhythmTrace::Binary { a: ta1, b: tb1, .. }, RhythmTrace::Binary { a: ta2, b: tb2, .. }) => {
                    lemma_period_realigns(*a, phrase_steps, cell, refs, s, m, *ta1, *ta2, f);
                    lemma_period_realigns(*b, phrase_steps, cell, refs, s, m, *tb1, *tb2, f);
                },
                _ => {},
            }
        },
        _ => {},
    }
}

} // verus!
