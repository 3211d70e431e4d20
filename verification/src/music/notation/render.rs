//! Rendering one cycle: every sounding position as an exact fraction `start / acc` of the
//! cycle, with its span `span / acc`, in source order; then ordered by onset.
use vstd::prelude::*;

use super::{
    atom_view, lemma_alt_view, lemma_poly_view, lemma_stack_view, seq_view, stack_view, step_view,
    Atom, AtomV, Draw, Euclid, Step, StepV, Token, TokenV,
};
use super::bounds::{
    atom_bounds, cost_add, cost_worst, seq_bounds, seq_bounds_from, share_of, share_sum,
    stack_bounds_from, step_bounds, weights, weights_total, widest_from, zero_cost, Cost,
};

verus! {

/// Modifiers a composite step hands to the leaves inside it; the inner step's own value wins.
#[derive(Clone, Copy, Debug, PartialEq, Eq, Structural)]
pub struct Inherit {
    pub ratchet: Option<u8>,
    pub draw: bool,
}

/// One rendered position before reduction: onset `start / acc`, span `span / acc`.
pub struct Placed {
    pub start: nat,
    pub span: nat,
    pub acc: nat,
    pub token: TokenV,
    pub ratchet: u8,
    pub draw: Draw,
}

/// Whether slot `i` of a euclid pulses: the balanced modular rule with its first pulse at
/// zero, delayed by `rotate`.
pub open spec fn euclid_active(e: Euclid, i: int) -> bool {
    let idx = (i - e.rotate) % (e.steps as int);
    (idx * e.pulses) % (e.steps as int) < e.pulses
}

/// The modifiers a step hands down: its own where given, else the inherited ones.
pub open spec fn inherit_into(st: StepV, inh: Inherit) -> Inherit {
    Inherit {
        ratchet: match st.ratchet {
            Some(r) => Some(r),
            None => inh.ratchet,
        },
        draw: st.draw || inh.draw,
    }
}

/// The draw a leaf carries: none, on the hit, or on a ratchet's tail.
pub open spec fn draw_of(inh: Inherit) -> Draw {
    if !inh.draw {
        Draw::NoDraw
    } else if inh.ratchet is None {
        Draw::Hit
    } else {
        Draw::Tail
    }
}

pub open spec fn ratchet_of(inh: Inherit) -> u8 {
    match inh.ratchet {
        Some(r) => r,
        None => 1,
    }
}

/// The events of one cycle of a sequence over `start / acc .. (start + span) / acc`.
pub open spec fn render_seq(steps: Seq<StepV>, start: nat, span: nat, acc: nat, k: nat, inh: Inherit) -> Seq<
    Placed,
>
    decreases steps, steps.len() + 1,
{
    match weights_total(steps) {
        None => Seq::empty(),
        Some((den, total)) => render_seq_from(steps, 0, start, span, acc, den, total, 0, k, inh),
    }
}

/// Steps `i..`, each over its share of the span, the first at `prefix` shares in.
pub open spec fn render_seq_from(
    steps: Seq<StepV>,
    i: int,
    start: nat,
    span: nat,
    acc: nat,
    den: nat,
    total: nat,
    prefix: nat,
    k: nat,
    inh: Inherit,
) -> Seq<Placed>
    decreases steps, steps.len() - i,
{
    if i < 0 || i >= steps.len() {
        Seq::empty()
    } else {
        let share = share_of(steps, i, den);
        render_step(steps[i], start * total + span * prefix, span * share, acc * total, k, inh)
            + render_seq_from(steps, i + 1, start, span, acc, den, total, prefix + share, k, inh)
    }
}

/// One step over `start / acc .. (start + span) / acc`.
pub open spec fn render_step(st: StepV, start: nat, span: nat, acc: nat, k: nat, inh: Inherit) -> Seq<
    Placed,
>
    decreases st, 1int,
{
    let inh2 = inherit_into(st, inh);
    match st.euclid {
        None => render_atom(st.atom, start, span, acc, k, inh2),
        Some(e) => render_euclid(st.atom, e, 0, start, span, acc, k, inh2),
    }
}

/// Euclid slots `i..`: each pulsing slot renders the material over one cell.
pub open spec fn render_euclid(
    a: AtomV,
    e: Euclid,
    i: int,
    start: nat,
    span: nat,
    acc: nat,
    k: nat,
    inh: Inherit,
) -> Seq<Placed>
    decreases a, e.steps - i + 1,
{
    if i < 0 || i >= e.steps {
        Seq::empty()
    } else {
        let here = if euclid_active(e, i) {
            render_atom(a, start * (e.steps as nat) + span * (i as nat), span, acc * (e.steps as nat), k, inh)
        } else {
            Seq::empty()
        };
        here + render_euclid(a, e, i + 1, start, span, acc, k, inh)
    }
}

/// A step's material over `start / acc .. (start + span) / acc`.
pub open spec fn render_atom(a: AtomV, start: nat, span: nat, acc: nat, k: nat, inh: Inherit) -> Seq<
    Placed,
>
    decreases a, 0int,
{
    match a {
        AtomV::Rest => Seq::empty(),
        AtomV::Token(t) => seq![
            Placed { start, span, acc, token: t, ratchet: ratchet_of(inh), draw: draw_of(inh) },
        ],
        AtomV::Stack(seqs) => render_stack_from(seqs, 0, start, span, acc, k, inh),
        AtomV::Alt(elems) => {
            if elems.len() == 0 {
                Seq::empty()
            } else {
                render_step(elems[(k % elems.len()) as int], start, span, acc, k, inh)
            }
        },
        AtomV::Poly { steps, per_cycle } => render_poly(steps, per_cycle, 0, start, span, acc, k, inh),
    }
}

/// Stacked sequences `j..`, each over the whole span.
pub open spec fn render_stack_from(
    seqs: Seq<Seq<StepV>>,
    j: int,
    start: nat,
    span: nat,
    acc: nat,
    k: nat,
    inh: Inherit,
) -> Seq<Placed>
    decreases seqs, seqs.len() - j,
{
    if j < 0 || j >= seqs.len() {
        Seq::empty()
    } else {
        render_seq(seqs[j], start, span, acc, k, inh) + render_stack_from(seqs, j + 1, start, span, acc, k, inh)
    }
}

/// Polymeter cells `j..`: cell `j` of cycle `k` plays element `(k * n + j) mod m`.
pub open spec fn render_poly(
    steps: Seq<StepV>,
    n: u64,
    j: int,
    start: nat,
    span: nat,
    acc: nat,
    k: nat,
    inh: Inherit,
) -> Seq<Placed>
    decreases steps, n - j,
{
    if j < 0 || j >= n || steps.len() == 0 {
        Seq::empty()
    } else {
        let i = ((k * (n as nat) + (j as nat)) % steps.len()) as int;
        render_step(steps[i], start * (n as nat) + span * (j as nat), span, acc * (n as nat), k, inh)
            + render_poly(steps, n, j + 1, start, span, acc, k, inh)
    }
}

/// Every top-level sequence over the whole cycle, in source order.
pub open spec fn render_top(seqs: Seq<Seq<StepV>>, j: int, k: nat) -> Seq<Placed>
    decreases seqs.len() - j,
{
    if j < 0 || j >= seqs.len() {
        Seq::empty()
    } else {
        render_seq(seqs[j], 0, 1, 1, k, Inherit { ratchet: None, draw: false }) + render_top(seqs, j + 1, k)
    }
}

/// Whether `a` begins no later than `b`, compared exactly.
pub open spec fn onset_le(a: Placed, b: Placed) -> bool {
    a.start * b.acc <= b.start * a.acc
}

/// `e` placed into an onset-ordered sequence after every element that begins no later.
pub open spec fn insert_by_onset(sorted: Seq<Placed>, e: Placed) -> Seq<Placed>
    decreases sorted.len(),
{
    if sorted.len() == 0 {
        seq![e]
    } else if onset_le(sorted.last(), e) {
        sorted.push(e)
    } else {
        insert_by_onset(sorted.drop_last(), e).push(sorted.last())
    }
}

/// The events ordered by onset; simultaneous events keep their source order.
pub open spec fn sort_by_onset(s: Seq<Placed>) -> Seq<Placed>
    decreases s.len(),
{
    if s.len() == 0 {
        Seq::empty()
    } else {
        insert_by_onset(sort_by_onset(s.drop_last()), s.last())
    }
}

/// One rendered position before reduction, as the renderer holds it.
pub struct Placement {
    pub start: u64,
    pub span: u64,
    pub acc: u64,
    pub token: Token,
    pub ratchet: u8,
    pub draw: Draw,
}

impl View for Placement {
    type V = Placed;

    open spec fn view(&self) -> Placed {
        Placed {
            start: self.start as nat,
            span: self.span as nat,
            acc: self.acc as nat,
            token: self.token@,
            ratchet: self.ratchet,
            draw: self.draw,
        }
    }
}

/// A placement lies inside its cycle: `start + span <= acc`, over a positive `acc`.
pub open spec fn placement_ok(p: Placement) -> bool {
    p.start + p.span <= p.acc && p.acc > 0
}

pub open spec fn all_ok(v: Seq<Placement>) -> bool {
    forall|i: int| 0 <= i < v.len() ==> #[trigger] placement_ok(v[i])
}

pub open spec fn placements_view(v: Seq<Placement>) -> Seq<Placed> {
    Seq::new(v.len(), |i: int| v[i]@)
}

proof fn lemma_placements_push(v: Seq<Placement>, p: Placement)
    ensures
        placements_view(v.push(p)) == placements_view(v).push(p@),
{
    assert(placements_view(v.push(p)) =~= placements_view(v).push(p@));
}

/// `d mod s`, Euclidean, for a positive modulus.
pub fn euclid_mod(d: i128, s: u64) -> (r: u128)
    requires
        s > 0,
    ensures
        r == (d as int) % (s as int),
        r < s,
{
    if d >= 0 {
        (d as u128) % (s as u128)
    } else {
        let a: u128 = (-(d + 1)) as u128 + 1;
        let m = a % (s as u128);
        proof {
            let q = (a / (s as u128)) as int;
            vstd::arithmetic::div_mod::lemma_fundamental_div_mod(a as int, s as int);
            assert(a as int == -(d as int));
            assert(a as int == (s as int) * q + (m as int));
            assert((d as int) == (-q) * (s as int) - (m as int)) by (nonlinear_arith)
                requires a as int == -(d as int), a as int == (s as int) * q + (m as int);
            assert((-q - 1) * (s as int) + ((s as int) - (m as int)) == (-q) * (s as int) - (m as int)) by (nonlinear_arith);
            if m == 0 {
                vstd::arithmetic::div_mod::lemma_fundamental_div_mod_converse(d as int, s as int, -q, 0);
            } else {
                vstd::arithmetic::div_mod::lemma_fundamental_div_mod_converse(d as int, s as int, -q - 1, s - m);
            }
        }
        if m == 0 {
            0
        } else {
            (s as u128) - m
        }
    }
}

impl Euclid {
    /// Balanced modular rule: slot `i` pulses when `((i - rotate) mod steps) * pulses mod steps
    /// < pulses`.
    pub fn active(self, i: u64) -> (r: bool)
        requires
            self.steps > 0,
        ensures
            r == euclid_active(self, i as int),
    {
        let idx = euclid_mod((i as i128) - (self.rotate as i128), self.steps);
        proof {
            assert(idx * self.pulses <= u128::MAX) by (nonlinear_arith)
                requires idx < self.steps, self.steps <= u64::MAX, self.pulses <= u64::MAX;
        }
        (idx * (self.pulses as u128)) % (self.steps as u128) < self.pulses as u128
    }
}

proof fn lemma_seq_from_ok(steps: Seq<StepV>, i: int, acc: u64, cost: Cost)
    requires
        0 <= i,
        seq_bounds_from(steps, i, acc, cost) is Ok,
    ensures
        forall|j: int| i <= j < steps.len() ==> (#[trigger] step_bounds(steps[j], acc)) is Ok,
    decreases steps.len() - i,
{
    if i < steps.len() {
        let c = step_bounds(steps[i], acc)->Ok_0;
        let sum = cost_add(cost, c)->Ok_0;
        lemma_seq_from_ok(steps, i + 1, acc, sum);
    }
}

pub proof fn lemma_stack_from_ok(seqs: Seq<Seq<StepV>>, i: int, acc: u64, cost: Cost)
    requires
        0 <= i,
        stack_bounds_from(seqs, i, acc, cost) is Ok,
    ensures
        forall|j: int| i <= j < seqs.len() ==> (#[trigger] seq_bounds(seqs[j], acc)) is Ok,
    decreases seqs.len() - i,
{
    if i < seqs.len() {
        let c = seq_bounds(seqs[i], acc)->Ok_0;
        let sum = cost_add(cost, c)->Ok_0;
        lemma_stack_from_ok(seqs, i + 1, acc, sum);
    }
}

proof fn lemma_widest_ok(elems: Seq<StepV>, i: int, acc: u64, worst: Cost)
    requires
        0 <= i,
        widest_from(elems, i, acc, worst) is Ok,
    ensures
        forall|j: int| i <= j < elems.len() ==> (#[trigger] step_bounds(elems[j], acc)) is Ok,
    decreases elems.len() - i,
{
    if i < elems.len() {
        let c = step_bounds(elems[i], acc)->Ok_0;
        lemma_widest_ok(elems, i + 1, acc, cost_worst(worst, c));
    }
}

proof fn lemma_share_sum_monotone(steps: Seq<StepV>, i: int, j: int, den: nat)
    requires
        0 <= i <= j,
    ensures
        share_sum(steps, i, den) <= share_sum(steps, j, den),
    decreases j - i,
{
    if i < j {
        lemma_share_sum_monotone(steps, i, j - 1, den);
    }
}

/// Appends the events of one cycle of a sequence.
pub fn render_seq_exec(
    steps: &Vec<Step>,
    start: u64,
    span: u64,
    acc: u64,
    k: u64,
    inh: Inherit,
    out: &mut Vec<Placement>,
)
    requires
        seq_bounds(seq_view(steps@), acc) is Ok,
        start + span <= acc,
        acc > 0,
        all_ok(old(out)@),
    ensures
        all_ok(final(out)@),
        placements_view(final(out)@) == placements_view(old(out)@) + render_seq(
            seq_view(steps@),
            start as nat,
            span as nat,
            acc as nat,
            k as nat,
            inh,
        ),
    decreases seq_view(steps@), 2int,
{
    let ghost v = seq_view(steps@);
    let (shares, total) = match weights(steps) {
        Some(w) => w,
        None => {
            return;
        },
    };
    let ghost den = weights_total(v)->Some_0.0;
    let acc2 = (acc as u128 * total) as u64;
    proof {
        lemma_seq_from_ok(v, 0, acc2, zero_cost());
        assert(share_sum(v, v.len() as int, den) == total);
    }
    let ghost out0 = placements_view(out@);
    let mut prefix: u64 = 0;
    let mut i: usize = 0;
    while i < steps.len()
        invariant
            i <= steps@.len(),
            v == seq_view(steps@),
            shares@.len() == steps@.len(),
            forall|j: int| 0 <= j < steps@.len() ==> shares@[j] == share_of(v, j, den),
            weights_total(v) == Some((den, total as nat)),
            share_sum(v, v.len() as int, den) == total,
            total > 0,
            total <= u64::MAX,
            acc2 == acc * total,
            start + span <= acc,
            acc > 0,
            prefix as nat == share_sum(v, i as int, den),
            all_ok(out@),
            forall|j: int| 0 <= j < v.len() ==> (#[trigger] step_bounds(v[j], acc2)) is Ok,
            placements_view(out@) + render_seq_from(
                v,
                i as int,
                start as nat,
                span as nat,
                acc as nat,
                den,
                total as nat,
                prefix as nat,
                k as nat,
                inh,
            ) == out0 + render_seq(v, start as nat, span as nat, acc as nat, k as nat, inh),
        decreases steps@.len() - i,
    {
        let share = shares[i];
        proof {
            lemma_share_sum_monotone(v, i + 1, v.len() as int, den);
            assert(share_sum(v, i + 1, den) == prefix + share);
            assert(prefix + share <= total);
            assert(start * total + span * (prefix + share) <= acc * total) by (nonlinear_arith)
                requires start + span <= acc, prefix + share <= total;
            assert(span * (prefix + share) == span * prefix + span * share) by (nonlinear_arith);
            assert(v[i as int] == step_view(steps@[i as int]));
            assert(acc * total > 0) by (nonlinear_arith) requires acc > 0, total > 0;
            assert(start * total <= u64::MAX * u64::MAX) by (nonlinear_arith)
                requires start <= u64::MAX, total <= u64::MAX;
        }
        let sub_start = (start as u128 * total + span as u128 * prefix as u128) as u64;
        let sub_span = (span as u128 * share) as u64;
        let ghost before = placements_view(out@);
        render_step_exec(&steps[i], sub_start, sub_span, acc2, k, inh, out);
        proof {
            let r = render_step(v[i as int], sub_start as nat, sub_span as nat, acc2 as nat, k as nat, inh);
            let rest = render_seq_from(v, i + 1, start as nat, span as nat, acc as nat, den, total as nat, (prefix + share) as nat, k as nat, inh);
            assert(render_seq_from(v, i as int, start as nat, span as nat, acc as nat, den, total as nat, prefix as nat, k as nat, inh)
                == r + rest);
            assert((before + r) + rest =~= before + (r + rest));
        }
        prefix = prefix + share as u64;
        i += 1;
    }
}

/// Appends the events of one step.
pub fn render_step_exec(
    st: &Step,
    start: u64,
    span: u64,
    acc: u64,
    k: u64,
    inh: Inherit,
    out: &mut Vec<Placement>,
)
    requires
        step_bounds(step_view(*st), acc) is Ok,
        start + span <= acc,
        acc > 0,
        all_ok(old(out)@),
    ensures
        all_ok(final(out)@),
        placements_view(final(out)@) == placements_view(old(out)@) + render_step(
            step_view(*st),
            start as nat,
            span as nat,
            acc as nat,
            k as nat,
            inh,
        ),
    decreases step_view(*st), 2int,
{
    let inh2 = Inherit {
        ratchet: match st.ratchet {
            Some(r) => Some(r),
            None => inh.ratchet,
        },
        draw: st.draw || inh.draw,
    };
    match st.euclid {
        None => render_atom_exec(&st.atom, start, span, acc, k, inh2, out),
        Some(e) => {
            let ghost a = atom_view(st.atom);
            if e.steps == 0 {
                proof {
                    assert(placements_view(out@) =~= placements_view(old(out)@) + Seq::<Placed>::empty());
                }
                return;
            }
            let acc2 = (acc as u128 * e.steps as u128) as u64;
            proof {
                assert(acc * e.steps <= u64::MAX);
                assert(atom_bounds(a, acc2) is Ok);
                assert(acc * e.steps > 0) by (nonlinear_arith) requires acc > 0, e.steps > 0;
            }
            let ghost out0 = placements_view(out@);
            let mut i: u64 = 0;
            while i < e.steps
                invariant
                    i <= e.steps,
                    e.steps > 0,
                    a == atom_view(st.atom),
                    atom_bounds(a, acc2) is Ok,
                    acc2 == acc * e.steps,
                    acc2 > 0,
                    start + span <= acc,
                    acc > 0,
                    all_ok(out@),
                    placements_view(out@) + render_euclid(a, e, i as int, start as nat, span as nat, acc as nat, k as nat, inh2)
                        == out0 + render_euclid(a, e, 0, start as nat, span as nat, acc as nat, k as nat, inh2),
                decreases e.steps - i,
            {
                let ghost before = placements_view(out@);
                proof {
                    assert(step_view(*st).atom == a);
                    assert(decreases_to!(step_view(*st) => step_view(*st).atom));
                }
                if e.active(i) {
                    proof {
                        assert(start * e.steps + span * (i + 1) <= acc * e.steps) by (nonlinear_arith)
                            requires start + span <= acc, i + 1 <= e.steps;
                        assert(start * e.steps + span * i + span == start * e.steps + span * (i + 1)) by (nonlinear_arith);
                    }
                    let s2 = (start as u128 * e.steps as u128 + span as u128 * i as u128) as u64;
                    render_atom_exec(&st.atom, s2, span, acc2, k, inh2, out);
                }
                proof {
                    let rest = render_euclid(a, e, i + 1, start as nat, span as nat, acc as nat, k as nat, inh2);
                    let here = if euclid_active(e, i as int) {
                        render_atom(a, (start as nat) * (e.steps as nat) + (span as nat) * (i as nat), span as nat, (acc as nat) * (e.steps as nat), k as nat, inh2)
                    } else {
                        Seq::empty()
                    };
                    assert(render_euclid(a, e, i as int, start as nat, span as nat, acc as nat, k as nat, inh2) == here + rest);
                    assert((before + here) + rest =~= before + (here + rest));
                    if !euclid_active(e, i as int) {
                        assert(before + here =~= before);
                    }
                }
                i += 1;
            }
            proof {
                assert(render_step(step_view(*st), start as nat, span as nat, acc as nat, k as nat, inh)
                    == render_euclid(a, e, 0, start as nat, span as nat, acc as nat, k as nat, inh2));
            }
        },
    }
}

/// Appends the events of a step's material.
fn render_atom_exec(
    atom: &Atom,
    start: u64,
    span: u64,
    acc: u64,
    k: u64,
    inh: Inherit,
    out: &mut Vec<Placement>,
)
    requires
        atom_bounds(atom_view(*atom), acc) is Ok,
        start + span <= acc,
        acc > 0,
        all_ok(old(out)@),
    ensures
        all_ok(final(out)@),
        placements_view(final(out)@) == placements_view(old(out)@) + render_atom(
            atom_view(*atom),
            start as nat,
            span as nat,
            acc as nat,
            k as nat,
            inh,
        ),
    decreases atom_view(*atom), 1int,
{
    let ghost out0 = placements_view(out@);
    match atom {
        Atom::Rest => {
            proof {
                assert(placements_view(out@) =~= out0 + Seq::<Placed>::empty());
            }
        },
        Atom::Token(t) => {
            let p = Placement {
                start,
                span,
                acc,
                token: t.copy(),
                ratchet: match inh.ratchet {
                    Some(r) => r,
                    None => 1,
                },
                draw: if !inh.draw {
                    Draw::NoDraw
                } else if inh.ratchet.is_none() {
                    Draw::Hit
                } else {
                    Draw::Tail
                },
            };
            proof {
                lemma_placements_push(out@, p);
            }
            out.push(p);
            proof {
                assert forall|i: int| 0 <= i < out@.len() implies #[trigger] placement_ok(out@[i]) by {
                    if i < out@.len() - 1 {
                        assert(out@[i] == old(out)@[i]);
                    }
                }
            }
            proof {
                assert(placements_view(out@) =~= out0 + seq![p@]);
            }
        },
        Atom::Stack(seqs) => {
            proof {
                lemma_stack_view(*seqs);
            }
            let ghost v = stack_view(seqs@);
            proof {
                lemma_stack_from_ok(v, 0, acc, zero_cost());
            }
            let mut j: usize = 0;
            while j < seqs.len()
                invariant
                    j <= seqs@.len(),
                    v == stack_view(seqs@),
                    atom_view(*atom) == AtomV::Stack(v),
                    forall|x: int| 0 <= x < v.len() ==> (#[trigger] seq_bounds(v[x], acc)) is Ok,
                    start + span <= acc,
                    acc > 0,
                    all_ok(out@),
                    placements_view(out@) + render_stack_from(v, j as int, start as nat, span as nat, acc as nat, k as nat, inh)
                        == out0 + render_stack_from(v, 0, start as nat, span as nat, acc as nat, k as nat, inh),
                decreases seqs@.len() - j,
            {
                proof {
                    assert(v[j as int] == seq_view(seqs@[j as int]@));
                    assert(atom_view(*atom)->Stack_0 == v);
                    assert(decreases_to!(atom_view(*atom) => atom_view(*atom)->Stack_0));
                    assert(decreases_to!(v => v[j as int]));
                }
                let ghost before = placements_view(out@);
                render_seq_exec(&seqs[j], start, span, acc, k, inh, out);
                proof {
                    let r = render_seq(v[j as int], start as nat, span as nat, acc as nat, k as nat, inh);
                    let rest = render_stack_from(v, j + 1, start as nat, span as nat, acc as nat, k as nat, inh);
                    assert((before + r) + rest =~= before + (r + rest));
                }
                j += 1;
            }
            proof {
                assert(render_stack_from(v, j as int, start as nat, span as nat, acc as nat, k as nat, inh) =~= Seq::empty());
            }
        },
        Atom::Alt(elems) => {
            proof {
                lemma_alt_view(*elems);
            }
            let ghost v = seq_view(elems@);
            if elems.len() == 0 {
                proof {
                    assert(placements_view(out@) =~= out0 + Seq::<Placed>::empty());
                }
                return;
            }
            let i = (k % (elems.len() as u64)) as usize;
            proof {
                lemma_widest_ok(v, 0, acc, zero_cost());
                assert(v[i as int] == step_view(elems@[i as int]));
                assert(i as int == (k as nat % v.len()) as int);
            }
            render_step_exec(&elems[i], start, span, acc, k, inh, out);
        },
        Atom::Poly { steps, per_cycle } => {
            proof {
                lemma_poly_view(*steps, *per_cycle);
            }
            let ghost v = seq_view(steps@);
            let n = *per_cycle;
            let m = steps.len();
            if m == 0 || n == 0 {
                proof {
                    assert(placements_view(out@) =~= out0 + Seq::<Placed>::empty());
                }
                return;
            }
            let acc2 = (acc as u128 * n as u128) as u64;
            proof {
                assert(acc * n <= u64::MAX);
                lemma_widest_ok(v, 0, acc2, zero_cost());
                assert(acc * n > 0) by (nonlinear_arith) requires acc > 0, n > 0;
            }
            let mut j: u64 = 0;
            while j < n
                invariant
                    j <= n,
                    n > 0,
                    m > 0,
                    m == v.len(),
                    v == seq_view(steps@),
                    atom_view(*atom) == (AtomV::Poly { steps: v, per_cycle: n }),
                    forall|x: int| 0 <= x < v.len() ==> (#[trigger] step_bounds(v[x], acc2)) is Ok,
                    acc2 == acc * n,
                    acc2 > 0,
                    start + span <= acc,
                    acc > 0,
                    all_ok(out@),
                    placements_view(out@) + render_poly(v, n, j as int, start as nat, span as nat, acc as nat, k as nat, inh)
                        == out0 + render_poly(v, n, 0, start as nat, span as nat, acc as nat, k as nat, inh),
                decreases n - j,
            {
                proof {
                    assert((k as nat) * (n as nat) + (j as nat) <= u128::MAX) by (nonlinear_arith)
                        requires k <= u64::MAX, n <= u64::MAX, j <= u64::MAX;
                }
                let i = (((k as u128) * (n as u128) + (j as u128)) % (m as u128)) as usize;
                let ghost before = placements_view(out@);
                proof {
                    assert(v[i as int] == step_view(steps@[i as int]));
                    assert(atom_view(*atom)->steps == v);
                    assert(decreases_to!(atom_view(*atom) => atom_view(*atom)->steps));
                    assert(decreases_to!(v => v[i as int]));
                    assert(start * n + span * (j + 1) <= acc * n) by (nonlinear_arith)
                        requires start + span <= acc, j + 1 <= n;
                    assert(start * n + span * j + span == start * n + span * (j + 1)) by (nonlinear_arith);
                }
                let s2 = (start as u128 * n as u128 + span as u128 * j as u128) as u64;
                render_step_exec(&steps[i], s2, span, acc2, k, inh, out);
                proof {
                    let r = render_step(v[i as int], s2 as nat, span as nat, acc2 as nat, k as nat, inh);
                    let rest = render_poly(v, n, j + 1, start as nat, span as nat, acc as nat, k as nat, inh);
                    assert(render_poly(v, n, j as int, start as nat, span as nat, acc as nat, k as nat, inh) == r + rest);
                    assert((before + r) + rest =~= before + (r + rest));
                }
                j += 1;
            }
        },
    }
}

} // verus!
