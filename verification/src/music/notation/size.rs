//! How many events a cycle renders: never more than the cost proved at parse, and so never
//! more than `MAX_EVENTS`.
use vstd::prelude::*;

use super::{AtomV, Euclid, StepV};
use super::bounds::{
    atom_bounds, cost_add, seq_bounds, seq_bounds_from, stack_bounds_from, step_bounds, widest_from,
    zero_cost, Cost, MAX_EVENTS,
};
use super::marks::{atom_marked, marks_ok, seq_marked, stack_marked};
use super::render::{
    euclid_active, insert_by_onset, render_atom, render_euclid, render_poly, render_seq, render_seq_from,
    render_stack_from, render_step, render_top, sort_by_onset, Inherit, Placed,
};
use crate::music::rhythm::{lemma_euclid_pulse_count, lemma_euclid_rotation, pulse_count};

verus! {

/// Counting the slots of a rotated rhythm: the first `m` slots pulse as slots `c..c + m`
/// (wrapping at `n`) of the unrotated one, where `c` is minus the rotation modulo `n`.
proof fn lemma_shifted_count(e: Euclid, m: int)
    requires
        e.steps > 0,
        0 <= m <= e.steps,
    ensures
        ({
            let n = e.steps as int;
            let c = (0 - e.rotate) % n;
            let z = Euclid { rotate: 0, ..e };
            if m <= n - c {
                pulse_count(e, m) == pulse_count(z, c + m) - pulse_count(z, c)
            } else {
                pulse_count(e, m) == pulse_count(z, n) - pulse_count(z, c) + pulse_count(z, m - (n - c))
            }
        }),
    decreases m,
{
    let n = e.steps as int;
    let c = (0 - e.rotate) % n;
    let z = Euclid { rotate: 0, ..e };
    vstd::arithmetic::div_mod::lemma_mod_bound(0 - e.rotate, n);
    if m > 0 {
        lemma_shifted_count(e, m - 1);
        let i = m - 1;
        lemma_euclid_rotation(e, i);
        // (i - r) mod n == (i + c) mod n
        vstd::arithmetic::div_mod::lemma_fundamental_div_mod(0 - e.rotate, n);
        let q = (0 - e.rotate) / n;
        assert(i - e.rotate == i + c + n * q);
        vstd::arithmetic::div_mod::lemma_mod_multiples_vanish(q, i + c, n);
        assert((i - e.rotate) % n == (i + c) % n);
        let step_e: nat = if euclid_active(e, i) { 1 } else { 0 };
        assert(pulse_count(e, m) == pulse_count(e, i) + step_e);
        if i + c < n {
            vstd::arithmetic::div_mod::lemma_small_mod((i + c) as nat, n as nat);
            assert(euclid_active(e, i) == euclid_active(z, i + c));
            assert(pulse_count(z, c + m) == pulse_count(z, c + i) + step_e);
        } else {
            vstd::arithmetic::div_mod::lemma_mod_sub_multiples_vanish(i + c, n);
            vstd::arithmetic::div_mod::lemma_small_mod((i + c - n) as nat, n as nat);
            assert(euclid_active(e, i) == euclid_active(z, i + c - n));
            assert(pulse_count(z, m - (n - c)) == pulse_count(z, i - (n - c)) + step_e);
            if i == n - c {
                assert(pulse_count(z, 0) == 0);
                assert(c + i == n);
            }
        }
    } else {
        assert(pulse_count(e, 0) == 0);
    }
}

/// A rhythm pulses exactly `pulses` times in a cycle, however it is rotated.
proof fn lemma_rotated_count(e: Euclid)
    requires
        0 < e.steps,
        e.pulses <= e.steps,
    ensures
        pulse_count(e, e.steps as int) == e.pulses,
{
    lemma_shifted_count(e, e.steps as int);
    lemma_euclid_pulse_count(e.pulses, e.steps);
    let z = Euclid { rotate: 0, ..e };
    assert(Euclid { pulses: e.pulses, steps: e.steps, rotate: 0 } == z);
}

proof fn lemma_pulse_count_le(e: Euclid, a: int, b: int)
    requires
        0 <= a <= b,
    ensures
        pulse_count(e, a) <= pulse_count(e, b),
    decreases b - a,
{
    if a < b {
        lemma_pulse_count_le(e, a, b - 1);
    }
}

/// A cost that was accepted never passes the cap.
proof fn lemma_seq_from_capped(steps: Seq<StepV>, i: int, acc: u64, cost: Cost)
    requires
        cost.events <= MAX_EVENTS,
        seq_bounds_from(steps, i, acc, cost) is Ok,
    ensures
        seq_bounds_from(steps, i, acc, cost)->Ok_0.events <= MAX_EVENTS,
        seq_bounds_from(steps, i, acc, cost)->Ok_0.events >= cost.events,
    decreases steps.len() - i,
{
    if 0 <= i < steps.len() {
        let c = step_bounds(steps[i], acc)->Ok_0;
        let sum = cost_add(cost, c)->Ok_0;
        lemma_seq_from_capped(steps, i + 1, acc, sum);
    }
}

proof fn lemma_stack_from_capped(seqs: Seq<Seq<StepV>>, j: int, acc: u64, cost: Cost)
    requires
        cost.events <= MAX_EVENTS,
        stack_bounds_from(seqs, j, acc, cost) is Ok,
    ensures
        stack_bounds_from(seqs, j, acc, cost)->Ok_0.events <= MAX_EVENTS,
    decreases seqs.len() - j,
{
    if 0 <= j < seqs.len() {
        let c = seq_bounds(seqs[j], acc)->Ok_0;
        let sum = cost_add(cost, c)->Ok_0;
        lemma_stack_from_capped(seqs, j + 1, acc, sum);
    }
}

/// The widest element bounds every element.
proof fn lemma_widest(elems: Seq<StepV>, i: int, acc: u64, worst: Cost, x: int)
    requires
        0 <= i <= x < elems.len(),
        widest_from(elems, i, acc, worst) is Ok,
    ensures
        step_bounds(elems[x], acc) is Ok,
        step_bounds(elems[x], acc)->Ok_0.events <= widest_from(elems, i, acc, worst)->Ok_0.events,
    decreases elems.len() - i,
{
    lemma_widest_grows(elems, i + 1, acc, super::bounds::cost_worst(worst, step_bounds(elems[i], acc)->Ok_0));
    if i < x {
        lemma_widest(elems, i + 1, acc, super::bounds::cost_worst(worst, step_bounds(elems[i], acc)->Ok_0), x);
    }
}

proof fn lemma_widest_grows(elems: Seq<StepV>, i: int, acc: u64, worst: Cost)
    requires
        widest_from(elems, i, acc, worst) is Ok,
    ensures
        worst.events <= widest_from(elems, i, acc, worst)->Ok_0.events,
    decreases elems.len() - i,
{
    if 0 <= i < elems.len() {
        lemma_widest_grows(elems, i + 1, acc, super::bounds::cost_worst(worst, step_bounds(elems[i], acc)->Ok_0));
    }
}

proof fn lemma_len_seq(steps: Seq<StepV>, b: u64, start: nat, span: nat, acc: nat, k: nat, inh: Inherit)
    requires
        seq_marked(steps, 0),
        seq_bounds(steps, b) is Ok,
    ensures
        render_seq(steps, start, span, acc, k, inh).len() <= seq_bounds(steps, b)->Ok_0.events,
    decreases steps, steps.len() + 1,
{
    match super::bounds::weights_total(steps) {
        None => {},
        Some((den, total)) => {
            let b2 = super::bounds::mul_bound(b, total as u64)->Ok_0;
            lemma_len_seq_from(steps, 0, b2, zero_cost(), start, span, acc, den, total, 0, k, inh);
        },
    }
}

proof fn lemma_len_seq_from(
    steps: Seq<StepV>,
    i: int,
    b: u64,
    cost: Cost,
    start: nat,
    span: nat,
    acc: nat,
    den: nat,
    total: nat,
    prefix: nat,
    k: nat,
    inh: Inherit,
)
    requires
        0 <= i,
        seq_marked(steps, i),
        seq_bounds_from(steps, i, b, cost) is Ok,
    ensures
        cost.events + render_seq_from(steps, i, start, span, acc, den, total, prefix, k, inh).len()
            <= seq_bounds_from(steps, i, b, cost)->Ok_0.events,
    decreases steps, steps.len() - i,
{
    if i < steps.len() {
        let share = super::bounds::share_of(steps, i, den);
        let c = step_bounds(steps[i], b)->Ok_0;
        let sum = cost_add(cost, c)->Ok_0;
        lemma_len_step(steps[i], b, start * total + span * prefix, span * share, acc * total, k, inh);
        lemma_len_seq_from(steps, i + 1, b, sum, start, span, acc, den, total, prefix + share, k, inh);
    }
}

proof fn lemma_len_step(st: StepV, b: u64, start: nat, span: nat, acc: nat, k: nat, inh: Inherit)
    requires
        marks_ok(st),
        atom_marked(st.atom),
        step_bounds(st, b) is Ok,
    ensures
        render_step(st, start, span, acc, k, inh).len() <= step_bounds(st, b)->Ok_0.events,
    decreases st, 1int,
{
    let inh2 = super::render::inherit_into(st, inh);
    match st.euclid {
        None => {
            lemma_len_atom(st.atom, b, start, span, acc, k, inh2);
        },
        Some(e) => {
            let b1 = super::bounds::mul_bound(b, e.steps)->Ok_0;
            let c0 = atom_bounds(st.atom, b1)->Ok_0;
            lemma_len_euclid(st.atom, e, b1, 0, start, span, acc, k, inh2);
            lemma_rotated_count(e);
            assert(pulse_count(e, 0) == 0);
            assert((e.pulses as nat) * (c0.events as nat) == (c0.events as nat) * (e.pulses as nat)) by (nonlinear_arith);
        },
    }
}

proof fn lemma_len_euclid(
    a: AtomV,
    e: Euclid,
    b: u64,
    i: int,
    start: nat,
    span: nat,
    acc: nat,
    k: nat,
    inh: Inherit,
)
    requires
        0 <= i <= e.steps,
        atom_marked(a),
        atom_bounds(a, b) is Ok,
    ensures
        render_euclid(a, e, i, start, span, acc, k, inh).len()
            <= (pulse_count(e, e.steps as int) - pulse_count(e, i)) * atom_bounds(a, b)->Ok_0.events,
    decreases a, e.steps - i + 1,
{
    let w = atom_bounds(a, b)->Ok_0.events as int;
    if i < e.steps {
        lemma_len_atom(a, b, start * (e.steps as nat) + span * (i as nat), span, acc * (e.steps as nat), k, inh);
        lemma_len_euclid(a, e, b, i + 1, start, span, acc, k, inh);
        lemma_pulse_count_le(e, i + 1, e.steps as int);
        let later = pulse_count(e, e.steps as int) - pulse_count(e, i + 1);
        assert(pulse_count(e, i + 1) == pulse_count(e, i) + if euclid_active(e, i) { 1nat } else { 0nat });
        if euclid_active(e, i) {
            assert(w + later * w == (later + 1) * w) by (nonlinear_arith);
        }
    }
}

proof fn lemma_len_atom(a: AtomV, b: u64, start: nat, span: nat, acc: nat, k: nat, inh: Inherit)
    requires
        atom_marked(a),
        atom_bounds(a, b) is Ok,
    ensures
        render_atom(a, start, span, acc, k, inh).len() <= atom_bounds(a, b)->Ok_0.events,
    decreases a, 0int,
{
    match a {
        AtomV::Stack(seqs) => {
            lemma_len_stack_from(seqs, 0, b, zero_cost(), start, span, acc, k, inh);
        },
        AtomV::Alt(elems) => {
            if elems.len() > 0 {
                let x = (k % elems.len()) as int;
                lemma_widest(elems, 0, b, zero_cost(), x);
                super::marks::lemma_seq_marked_all(elems, 0);
                assert(marks_ok(elems[x]) && atom_marked(elems[x].atom));
                lemma_len_step(elems[x], b, start, span, acc, k, inh);
            }
        },
        AtomV::Poly { steps, per_cycle } => {
            let b2 = super::bounds::mul_bound(b, per_cycle)->Ok_0;
            let w = widest_from(steps, 0, b2, zero_cost())->Ok_0;
            lemma_len_poly(steps, per_cycle, b2, 0, start, span, acc, k, inh);
            assert((per_cycle as nat) * (w.events as nat) == (w.events as nat) * (per_cycle as nat)) by (nonlinear_arith);
        },
        _ => {},
    }
}

proof fn lemma_len_stack_from(
    seqs: Seq<Seq<StepV>>,
    j: int,
    b: u64,
    cost: Cost,
    start: nat,
    span: nat,
    acc: nat,
    k: nat,
    inh: Inherit,
)
    requires
        0 <= j,
        stack_marked(seqs, j),
        stack_bounds_from(seqs, j, b, cost) is Ok,
    ensures
        cost.events + render_stack_from(seqs, j, start, span, acc, k, inh).len()
            <= stack_bounds_from(seqs, j, b, cost)->Ok_0.events,
    decreases seqs, seqs.len() - j,
{
    if j < seqs.len() {
        let c = seq_bounds(seqs[j], b)->Ok_0;
        let sum = cost_add(cost, c)->Ok_0;
        lemma_len_seq(seqs[j], b, start, span, acc, k, inh);
        lemma_len_stack_from(seqs, j + 1, b, sum, start, span, acc, k, inh);
    }
}

proof fn lemma_len_poly(
    steps: Seq<StepV>,
    n: u64,
    b: u64,
    j: int,
    start: nat,
    span: nat,
    acc: nat,
    k: nat,
    inh: Inherit,
)
    requires
        0 <= j <= n,
        seq_marked(steps, 0),
        widest_from(steps, 0, b, zero_cost()) is Ok,
    ensures
        render_poly(steps, n, j, start, span, acc, k, inh).len()
            <= (n - j) * widest_from(steps, 0, b, zero_cost())->Ok_0.events,
    decreases steps, n - j,
{
    let w = widest_from(steps, 0, b, zero_cost())->Ok_0.events as int;
    if j < n && steps.len() > 0 {
        let x = ((k * (n as nat) + (j as nat)) % steps.len()) as int;
        lemma_widest(steps, 0, b, zero_cost(), x);
        super::marks::lemma_seq_marked_all(steps, 0);
        assert(marks_ok(steps[x]) && atom_marked(steps[x].atom));
        lemma_len_step(steps[x], b, start * (n as nat) + span * (j as nat), span, acc * (n as nat), k, inh);
        lemma_len_poly(steps, n, b, j + 1, start, span, acc, k, inh);
        assert(w + (n - (j + 1)) * w == (n - j) * w) by (nonlinear_arith);
    } else if j < n {
        assert((n - j) * w >= 0) by (nonlinear_arith)
            requires
                n - j > 0,
                w >= 0;
    }
}

proof fn lemma_len_top(seqs: Seq<Seq<StepV>>, j: int, cost: Cost, k: nat)
    requires
        0 <= j,
        stack_marked(seqs, j),
        stack_bounds_from(seqs, j, 1, cost) is Ok,
    ensures
        cost.events + render_top(seqs, j, k).len() <= stack_bounds_from(seqs, j, 1, cost)->Ok_0.events,
    decreases seqs.len() - j,
{
    if j < seqs.len() {
        let c = seq_bounds(seqs[j], 1)->Ok_0;
        let sum = cost_add(cost, c)->Ok_0;
        lemma_len_seq(seqs[j], 1, 0, 1, 1, k, Inherit { ratchet: None, draw: false });
        lemma_len_top(seqs, j + 1, sum, k);
    }
}

proof fn lemma_sort_len(s: Seq<Placed>)
    ensures
        sort_by_onset(s).len() == s.len(),
    decreases s.len(),
{
    if s.len() > 0 {
        lemma_sort_len(s.drop_last());
        lemma_insert_len(sort_by_onset(s.drop_last()), s.last());
    }
}

proof fn lemma_insert_len(sorted: Seq<Placed>, e: Placed)
    ensures
        insert_by_onset(sorted, e).len() == sorted.len() + 1,
    decreases sorted.len(),
{
    if sorted.len() > 0 && !super::render::onset_le(sorted.last(), e) {
        lemma_insert_len(sorted.drop_last(), e);
    }
}

/// A cycle of a parsed pattern renders no more events than the cost proved for it, and so no
/// more than `MAX_EVENTS`.
pub proof fn lemma_cycle_size(p: Seq<Seq<StepV>>, k: nat)
    requires
        stack_marked(p, 0),
        stack_bounds_from(p, 0, 1, zero_cost()) is Ok,
    ensures
        sort_by_onset(render_top(p, 0, k)).len() <= stack_bounds_from(p, 0, 1, zero_cost())->Ok_0.events,
        sort_by_onset(render_top(p, 0, k)).len() <= MAX_EVENTS,
{
    lemma_len_top(p, 0, zero_cost(), k);
    lemma_sort_len(render_top(p, 0, k));
    lemma_stack_from_capped(p, 0, 1, zero_cost());
}

} // verus!
