//! Why a pattern repeats after its period: every `< >` and `{ }%n` inside it comes back to the
//! same element after a whole number of periods, and nothing else in a cycle reads the cycle
//! index.
use vstd::prelude::*;

use super::{AtomV, StepV};
use super::bounds::lcm128;
use super::pattern::{atom_period, cycle_events, lcm64_spec, seq_period, stack_period};
use super::render::{
    render_atom, render_euclid, render_poly, render_seq, render_seq_from, render_stack_from, render_step,
    render_top, Inherit,
};
use crate::music::cycle::lemma_divides_trans;
use crate::music::ratio::{divisor, lemma_gcd_divides};

verus! {

/// Every `< >` and `{ }%n` in steps `i..` comes back to the same element after `m` cycles.
pub open spec fn seq_repeats(steps: Seq<StepV>, i: int, m: nat) -> bool
    decreases steps, steps.len() - i,
{
    if i < 0 || i >= steps.len() {
        true
    } else {
        atom_repeats(steps[i].atom, m) && seq_repeats(steps, i + 1, m)
    }
}

pub open spec fn atom_repeats(a: AtomV, m: nat) -> bool
    decreases a, 0int,
{
    match a {
        AtomV::Rest => true,
        AtomV::Token(_) => true,
        AtomV::Stack(seqs) => stack_repeats(seqs, 0, m),
        AtomV::Alt(elems) => (elems.len() == 0 || m % elems.len() == 0) && seq_repeats(elems, 0, m),
        AtomV::Poly { steps, per_cycle } => (steps.len() == 0 || (m * (per_cycle as nat)) % steps.len() == 0)
            && seq_repeats(steps, 0, m),
    }
}

pub open spec fn stack_repeats(seqs: Seq<Seq<StepV>>, j: int, m: nat) -> bool
    decreases seqs, seqs.len() - j,
{
    if j < 0 || j >= seqs.len() {
        true
    } else {
        seq_repeats(seqs[j], 0, m) && stack_repeats(seqs, j + 1, m)
    }
}

/// The lcm of two positive numbers is a positive multiple of each.
pub(crate) proof fn lemma_lcm128(a: nat, b: nat)
    requires
        lcm128(a, b) is Some,
    ensures
        a > 0,
        b > 0,
        lcm128(a, b)->Some_0 > 0,
        lcm128(a, b)->Some_0 % a == 0,
        lcm128(a, b)->Some_0 % b == 0,
{
    let g = divisor(a, b);
    lemma_gcd_divides(a, b);
    let w = a / g;
    let l = w * b;
    vstd::arithmetic::div_mod::lemma_fundamental_div_mod(a as int, g as int);
    vstd::arithmetic::div_mod::lemma_fundamental_div_mod(b as int, g as int);
    let h = b / g;
    assert(l == a * h && w > 0 && l > 0) by (nonlinear_arith)
        requires
            l == w * b,
            a == g * w + 0,
            b == g * h + 0,
            a > 0,
            b > 0,
            g > 0;
    vstd::arithmetic::div_mod::lemma_mod_multiples_basic(h as int, a as int);
    assert(l == b * w) by (nonlinear_arith)
        requires
            l == w * b;
    vstd::arithmetic::div_mod::lemma_mod_multiples_basic(w as int, b as int);
}

/// A period fold ends at a positive multiple of where it started.
proof fn lemma_seq_period_grows(steps: Seq<StepV>, i: int, acc: nat)
    requires
        acc > 0,
        seq_period(steps, i, acc) is Some,
    ensures
        seq_period(steps, i, acc)->Some_0 > 0,
        seq_period(steps, i, acc)->Some_0 % acc == 0,
    decreases steps, steps.len() - i,
{
    if 0 <= i < steps.len() {
        let a = atom_period(steps[i].atom, acc)->Some_0;
        lemma_atom_period_grows(steps[i].atom, acc);
        lemma_seq_period_grows(steps, i + 1, a);
        lemma_divides_trans(acc, a, seq_period(steps, i, acc)->Some_0);
    } else {
        vstd::arithmetic::div_mod::lemma_mod_self_0(acc as int);
    }
}

proof fn lemma_atom_period_grows(a: AtomV, acc: nat)
    requires
        acc > 0,
        atom_period(a, acc) is Some,
    ensures
        atom_period(a, acc)->Some_0 > 0,
        atom_period(a, acc)->Some_0 % acc == 0,
    decreases a, 0int,
{
    match a {
        AtomV::Stack(seqs) => {
            lemma_stack_period_grows(seqs, 0, acc);
        },
        AtomV::Alt(elems) => {
            lemma_lcm128(acc, elems.len());
            let b = lcm64_spec(acc, elems.len())->Some_0;
            lemma_seq_period_grows(elems, 0, b);
            lemma_divides_trans(acc, b, atom_period(a, acc)->Some_0);
        },
        AtomV::Poly { steps, per_cycle } => {
            let l = lcm64_spec(steps.len(), per_cycle as nat)->Some_0;
            lemma_lcm128(steps.len(), per_cycle as nat);
            vstd::arithmetic::div_mod::lemma_fundamental_div_mod(l as int, per_cycle as int);
            assert(l / (per_cycle as nat) > 0) by (nonlinear_arith)
                requires
                    l == (per_cycle as nat) * (l / (per_cycle as nat)) + 0,
                    l > 0,
                    per_cycle > 0;
            lemma_lcm128(acc, l / (per_cycle as nat));
            let b = lcm64_spec(acc, l / (per_cycle as nat))->Some_0;
            lemma_seq_period_grows(steps, 0, b);
            lemma_divides_trans(acc, b, atom_period(a, acc)->Some_0);
        },
        _ => {
            vstd::arithmetic::div_mod::lemma_mod_self_0(acc as int);
        },
    }
}

proof fn lemma_stack_period_grows(seqs: Seq<Seq<StepV>>, j: int, acc: nat)
    requires
        acc > 0,
        stack_period(seqs, j, acc) is Some,
    ensures
        stack_period(seqs, j, acc)->Some_0 > 0,
        stack_period(seqs, j, acc)->Some_0 % acc == 0,
    decreases seqs, seqs.len() - j,
{
    if 0 <= j < seqs.len() {
        let a = seq_period(seqs[j], 0, acc)->Some_0;
        lemma_seq_period_grows(seqs[j], 0, acc);
        lemma_stack_period_grows(seqs, j + 1, a);
        lemma_divides_trans(acc, a, stack_period(seqs, j, acc)->Some_0);
    } else {
        vstd::arithmetic::div_mod::lemma_mod_self_0(acc as int);
    }
}

/// Every alternation and polymeter in steps `i..` comes back after any multiple of the period.
proof fn lemma_seq_period_repeats(steps: Seq<StepV>, i: int, acc: nat, m: nat)
    requires
        acc > 0,
        seq_period(steps, i, acc) is Some,
        m % seq_period(steps, i, acc)->Some_0 == 0,
    ensures
        seq_repeats(steps, i, m),
    decreases steps, steps.len() - i,
{
    if 0 <= i < steps.len() {
        let a = atom_period(steps[i].atom, acc)->Some_0;
        lemma_atom_period_grows(steps[i].atom, acc);
        lemma_seq_period_grows(steps, i + 1, a);
        lemma_divides_trans(a, seq_period(steps, i + 1, a)->Some_0, m);
        lemma_atom_period_repeats(steps[i].atom, acc, m);
        lemma_seq_period_repeats(steps, i + 1, a, m);
    }
}

proof fn lemma_atom_period_repeats(a: AtomV, acc: nat, m: nat)
    requires
        acc > 0,
        atom_period(a, acc) is Some,
        m % atom_period(a, acc)->Some_0 == 0,
    ensures
        atom_repeats(a, m),
    decreases a, 0int,
{
    match a {
        AtomV::Stack(seqs) => {
            lemma_stack_period_repeats(seqs, 0, acc, m);
        },
        AtomV::Alt(elems) => {
            lemma_lcm128(acc, elems.len());
            let b = lcm64_spec(acc, elems.len())->Some_0;
            lemma_seq_period_grows(elems, 0, b);
            lemma_divides_trans(b, seq_period(elems, 0, b)->Some_0, m);
            lemma_divides_trans(elems.len(), b, m);
            lemma_seq_period_repeats(elems, 0, b, m);
        },
        AtomV::Poly { steps, per_cycle } => {
            let n = per_cycle as nat;
            let l = lcm64_spec(steps.len(), n)->Some_0;
            lemma_lcm128(steps.len(), n);
            vstd::arithmetic::div_mod::lemma_fundamental_div_mod(l as int, n as int);
            let w = l / n;
            assert(w > 0) by (nonlinear_arith)
                requires
                    l == n * w + 0,
                    l > 0,
                    n > 0;
            lemma_lcm128(acc, w);
            let b = lcm64_spec(acc, w)->Some_0;
            lemma_seq_period_grows(steps, 0, b);
            lemma_divides_trans(b, seq_period(steps, 0, b)->Some_0, m);
            lemma_divides_trans(w, b, m);
            vstd::arithmetic::div_mod::lemma_fundamental_div_mod(m as int, w as int);
            let t = m / w;
            assert(m * n == l * t) by (nonlinear_arith)
                requires
                    m == w * t + 0,
                    l == n * w + 0;
            vstd::arithmetic::div_mod::lemma_fundamental_div_mod(l as int, steps.len() as int);
            let u = l / steps.len();
            assert(m * n == steps.len() * (u * t)) by (nonlinear_arith)
                requires
                    m * n == l * t,
                    l == steps.len() * u + 0;
            vstd::arithmetic::div_mod::lemma_mod_multiples_basic((u * t) as int, steps.len() as int);
            lemma_seq_period_repeats(steps, 0, b, m);
        },
        _ => {},
    }
}

proof fn lemma_stack_period_repeats(seqs: Seq<Seq<StepV>>, j: int, acc: nat, m: nat)
    requires
        acc > 0,
        stack_period(seqs, j, acc) is Some,
        m % stack_period(seqs, j, acc)->Some_0 == 0,
    ensures
        stack_repeats(seqs, j, m),
    decreases seqs, seqs.len() - j,
{
    if 0 <= j < seqs.len() {
        let a = seq_period(seqs[j], 0, acc)->Some_0;
        lemma_seq_period_grows(seqs[j], 0, acc);
        lemma_stack_period_grows(seqs, j + 1, a);
        lemma_divides_trans(a, stack_period(seqs, j + 1, a)->Some_0, m);
        lemma_seq_period_repeats(seqs[j], 0, acc, m);
        lemma_stack_period_repeats(seqs, j + 1, a, m);
    }
}

/// What steps `i..` repeat after, each of their steps does.
proof fn lemma_seq_repeats_at(steps: Seq<StepV>, i: int, x: int, m: nat)
    requires
        0 <= i <= x < steps.len(),
        seq_repeats(steps, i, m),
    ensures
        atom_repeats(steps[x].atom, m),
    decreases x - i,
{
    if i < x {
        lemma_seq_repeats_at(steps, i + 1, x, m);
    }
}

proof fn lemma_render_seq(steps: Seq<StepV>, start: nat, span: nat, acc: nat, k: nat, m: nat, inh: Inherit)
    requires
        seq_repeats(steps, 0, m),
    ensures
        render_seq(steps, start, span, acc, k + m, inh) == render_seq(steps, start, span, acc, k, inh),
    decreases steps, steps.len() + 1,
{
    match super::bounds::weights_total(steps) {
        None => {},
        Some((den, total)) => {
            lemma_render_seq_from(steps, 0, start, span, acc, den, total, 0, k, m, inh);
        },
    }
}

proof fn lemma_render_seq_from(
    steps: Seq<StepV>,
    i: int,
    start: nat,
    span: nat,
    acc: nat,
    den: nat,
    total: nat,
    prefix: nat,
    k: nat,
    m: nat,
    inh: Inherit,
)
    requires
        0 <= i,
        seq_repeats(steps, i, m),
    ensures
        render_seq_from(steps, i, start, span, acc, den, total, prefix, k + m, inh)
            == render_seq_from(steps, i, start, span, acc, den, total, prefix, k, inh),
    decreases steps, steps.len() - i,
{
    if i < steps.len() {
        let share = super::bounds::share_of(steps, i, den);
        lemma_render_step(steps[i], start * total + span * prefix, span * share, acc * total, k, m, inh);
        lemma_render_seq_from(steps, i + 1, start, span, acc, den, total, prefix + share, k, m, inh);
    }
}

proof fn lemma_render_step(st: StepV, start: nat, span: nat, acc: nat, k: nat, m: nat, inh: Inherit)
    requires
        atom_repeats(st.atom, m),
    ensures
        render_step(st, start, span, acc, k + m, inh) == render_step(st, start, span, acc, k, inh),
    decreases st, 1int,
{
    let inh2 = super::render::inherit_into(st, inh);
    match st.euclid {
        None => lemma_render_atom(st.atom, start, span, acc, k, m, inh2),
        Some(e) => lemma_render_euclid(st.atom, e, 0, start, span, acc, k, m, inh2),
    }
}

proof fn lemma_render_euclid(
    a: AtomV,
    e: super::Euclid,
    i: int,
    start: nat,
    span: nat,
    acc: nat,
    k: nat,
    m: nat,
    inh: Inherit,
)
    requires
        atom_repeats(a, m),
    ensures
        render_euclid(a, e, i, start, span, acc, k + m, inh) == render_euclid(a, e, i, start, span, acc, k, inh),
    decreases a, e.steps - i + 1,
{
    if 0 <= i < e.steps {
        lemma_render_atom(a, start * (e.steps as nat) + span * (i as nat), span, acc * (e.steps as nat), k, m, inh);
        lemma_render_euclid(a, e, i + 1, start, span, acc, k, m, inh);
    }
}

proof fn lemma_render_atom(a: AtomV, start: nat, span: nat, acc: nat, k: nat, m: nat, inh: Inherit)
    requires
        atom_repeats(a, m),
    ensures
        render_atom(a, start, span, acc, k + m, inh) == render_atom(a, start, span, acc, k, inh),
    decreases a, 0int,
{
    match a {
        AtomV::Stack(seqs) => {
            lemma_render_stack_from(seqs, 0, start, span, acc, k, m, inh);
        },
        AtomV::Alt(elems) => {
            if elems.len() > 0 {
                let n = elems.len() as int;
                vstd::arithmetic::div_mod::lemma_fundamental_div_mod(m as int, n);
                vstd::arithmetic::div_mod::lemma_mod_multiples_vanish((m as int) / n, k as int, n);
                assert((k + m) as int == n * ((m as int) / n) + k);
                let x = (k % elems.len()) as int;
                lemma_seq_repeats_at(elems, 0, x, m);
                lemma_render_step(elems[x], start, span, acc, k, m, inh);
            }
        },
        AtomV::Poly { steps, per_cycle } => {
            lemma_render_poly(steps, per_cycle, 0, start, span, acc, k, m, inh);
        },
        _ => {},
    }
}

proof fn lemma_render_stack_from(
    seqs: Seq<Seq<StepV>>,
    j: int,
    start: nat,
    span: nat,
    acc: nat,
    k: nat,
    m: nat,
    inh: Inherit,
)
    requires
        0 <= j,
        stack_repeats(seqs, j, m),
    ensures
        render_stack_from(seqs, j, start, span, acc, k + m, inh) == render_stack_from(seqs, j, start, span, acc, k, inh),
    decreases seqs, seqs.len() - j,
{
    if j < seqs.len() {
        lemma_render_seq(seqs[j], start, span, acc, k, m, inh);
        lemma_render_stack_from(seqs, j + 1, start, span, acc, k, m, inh);
    }
}

proof fn lemma_render_poly(
    steps: Seq<StepV>,
    n: u64,
    j: int,
    start: nat,
    span: nat,
    acc: nat,
    k: nat,
    m: nat,
    inh: Inherit,
)
    requires
        0 <= j,
        steps.len() == 0 || (m * (n as nat)) % steps.len() == 0,
        seq_repeats(steps, 0, m),
    ensures
        render_poly(steps, n, j, start, span, acc, k + m, inh) == render_poly(steps, n, j, start, span, acc, k, inh),
    decreases steps, n - j,
{
    if j < n && steps.len() > 0 {
        let len = steps.len() as int;
        let base = k * (n as nat) + (j as nat);
        vstd::arithmetic::div_mod::lemma_fundamental_div_mod((m * (n as nat)) as int, len);
        let q = ((m * (n as nat)) as int) / len;
        assert((k + m) * (n as nat) + (j as nat) == len * q + base) by (nonlinear_arith)
            requires
                (m * (n as nat)) as int == len * q + 0,
                base == k * (n as nat) + (j as nat);
        vstd::arithmetic::div_mod::lemma_mod_multiples_vanish(q, base as int, len);
        let x = (base % steps.len()) as int;
        lemma_seq_repeats_at(steps, 0, x, m);
        lemma_render_step(steps[x], start * (n as nat) + span * (j as nat), span, acc * (n as nat), k, m, inh);
        lemma_render_poly(steps, n, j + 1, start, span, acc, k, m, inh);
    }
}

proof fn lemma_render_top(seqs: Seq<Seq<StepV>>, j: int, k: nat, m: nat)
    requires
        0 <= j,
        stack_repeats(seqs, j, m),
    ensures
        render_top(seqs, j, k + m) == render_top(seqs, j, k),
    decreases seqs.len() - j,
{
    if j < seqs.len() {
        lemma_render_seq(seqs[j], 0, 1, 1, k, m, Inherit { ratchet: None, draw: false });
        lemma_render_top(seqs, j + 1, k, m);
    }
}

/// A pattern repeats after its period: when `period_cycles` gives `n`, cycle `k + m` has the
/// same events as cycle `k` for every multiple `m` of `n`; `{x ~ x x ~ x ~}%16` repeats after
/// seven cycles.
pub proof fn lemma_cycle_repeats(p: Seq<Seq<StepV>>, k: nat, m: nat)
    requires
        stack_period(p, 0, 1) is Some,
        m % stack_period(p, 0, 1)->Some_0 == 0,
    ensures
        cycle_events(p, k + m) == cycle_events(p, k),
{
    lemma_stack_period_repeats(p, 0, 1, m);
    lemma_render_top(p, 0, k, m);
}

} // verus!
