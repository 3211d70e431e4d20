//! What parsing guarantees of every step — a ratchet of at least two strikes, a positive
//! weight, a euclid with steps and no more pulses than steps — and so of every event of a cycle: it takes some of the cycle,
//! a `?` hit is a single strike, a `?` on a ratchet draws its tails, and events that begin
//! together keep their source order.
use vstd::prelude::*;

use super::{AtomV, Draw, StepV};
use super::grammar::{atom, modifiers, sequence, sequence_more, stack, stack_more, step, bare_step};
use super::render::{
    inherit_into, insert_by_onset, render_atom, render_euclid, render_poly, render_seq, render_seq_from,
    render_stack_from, render_step, render_top, sort_by_onset, Inherit, Placed,
};

verus! {

/// A ratchet, where a step has one, strikes at least twice; a weight is positive, and a
/// euclid has steps and no more pulses than steps.
pub open spec fn marks_ok(st: StepV) -> bool {
    &&& st.ratchet matches Some(r) ==> 2 <= r
    &&& st.weight matches Some(w) ==> w.num > 0 && w.den > 0
    &&& st.euclid matches Some(e) ==> 0 < e.steps && e.pulses <= e.steps
}

/// Every step from `i` on, and every step nested in them, has a valid ratchet.
pub open spec fn seq_marked(steps: Seq<StepV>, i: int) -> bool
    decreases steps, steps.len() - i,
{
    if i < 0 || i >= steps.len() {
        true
    } else {
        marks_ok(steps[i]) && atom_marked(steps[i].atom) && seq_marked(steps, i + 1)
    }
}

pub open spec fn atom_marked(a: AtomV) -> bool
    decreases a, 0int,
{
    match a {
        AtomV::Stack(seqs) => stack_marked(seqs, 0),
        AtomV::Alt(elems) => seq_marked(elems, 0),
        AtomV::Poly { steps, per_cycle } => per_cycle > 0 && seq_marked(steps, 0),
        _ => true,
    }
}

pub open spec fn stack_marked(seqs: Seq<Seq<StepV>>, j: int) -> bool
    decreases seqs, seqs.len() - j,
{
    if j < 0 || j >= seqs.len() {
        true
    } else {
        seq_marked(seqs[j], 0) && stack_marked(seqs, j + 1)
    }
}

/// A position takes some of the cycle, on a positive denominator; a `?` hit strikes once, and a `?` tail belongs to a
/// ratchet of at least two strikes.
pub open spec fn placed_ok(p: Placed) -> bool {
    &&& p.acc > 0
    &&& p.span > 0
    &&& p.draw == Draw::Hit ==> p.ratchet == 1
    &&& p.draw == Draw::Tail ==> p.ratchet >= 2
}

pub open spec fn all_placed_ok(s: Seq<Placed>) -> bool {
    forall|i: int| 0 <= i < s.len() ==> placed_ok(#[trigger] s[i])
}

pub open spec fn inherit_ok(inh: Inherit) -> bool {
    inh.ratchet matches Some(r) ==> 2 <= r
}

pub(crate) proof fn lemma_seq_marked_all(steps: Seq<StepV>, i: int)
    requires
        0 <= i,
    ensures
        seq_marked(steps, i) <==> forall|j: int| i <= j < steps.len()
            ==> marks_ok(#[trigger] steps[j]) && atom_marked(steps[j].atom),
    decreases steps.len() - i,
{
    if i < steps.len() {
        lemma_seq_marked_all(steps, i + 1);
    }
}

proof fn lemma_stack_marked_all(seqs: Seq<Seq<StepV>>, j: int)
    requires
        0 <= j,
    ensures
        stack_marked(seqs, j) <==> forall|x: int| j <= x < seqs.len() ==> seq_marked(#[trigger] seqs[x], 0),
    decreases seqs.len() - j,
{
    if j < seqs.len() {
        lemma_stack_marked_all(seqs, j + 1);
    }
}

proof fn lemma_modifiers(s: Seq<char>, p: int, st: StepV)
    requires
        marks_ok(st),
        modifiers(s, p, st) is Ok,
    ensures
        marks_ok(modifiers(s, p, st)->Ok_0.0),
        modifiers(s, p, st)->Ok_0.0.atom == st.atom,
    decreases s.len() - p,
{
    if 0 <= p <= s.len() {
        if super::grammar::peek(s, p) == Some('*') {
            match super::grammar::integer(s, p + 1) {
                Ok((n, q)) => {
                    if 2 <= n <= 8 && p < q <= s.len() {
                        lemma_modifiers(s, q, StepV { ratchet: Some(n as u8), ..st });
                    }
                },
                _ => {},
            }
        } else if super::grammar::peek(s, p) == Some('@') {
            match super::grammar::weight(s, p + 1) {
                Ok((w, q)) => {
                    if p < q <= s.len() {
                        lemma_weight(s, p + 1);
                        lemma_modifiers(s, q, StepV { weight: Some(w), ..st });
                    }
                },
                _ => {},
            }
        } else if super::grammar::peek(s, p) == Some('?') {
            if !st.draw {
                lemma_modifiers(s, p + 1, StepV { draw: true, ..st });
            }
        } else if super::grammar::peek(s, p) == Some('(') {
            match super::grammar::euclid(s, p + 1) {
                Ok((e, q)) => {
                    if p < q <= s.len() {
                        assert(0 < e.steps && e.pulses <= e.steps);
                        lemma_modifiers(s, q, StepV { euclid: Some(e), ..st });
                    }
                },
                _ => {},
            }
        }
    }
}

proof fn lemma_pow10(n: nat)
    ensures
        super::grammar::pow10(n) > 0,
    decreases n,
{
    if n > 0 {
        lemma_pow10((n - 1) as nat);
    }
}

/// A parsed weight is a positive fraction.
proof fn lemma_weight(s: Seq<char>, p: int)
    requires
        super::grammar::weight(s, p) is Ok,
    ensures
        super::grammar::weight(s, p)->Ok_0.0.num > 0,
        super::grammar::weight(s, p)->Ok_0.0.den > 0,
{
    let (whole, p1) = super::grammar::integer(s, p)->Ok_0;
    let (num, den, q) = if super::grammar::peek(s, p1) == Some('.') {
        let q = super::grammar::digit_end(s, p1 + 1);
        (super::grammar::scaled(whole as nat, s.subrange(p1 + 1, q)), super::grammar::pow10((q - p1 - 1) as nat), q)
    } else {
        (whole as nat, 1nat, p1)
    };
    if super::grammar::peek(s, p1) == Some('.') {
        lemma_pow10((super::grammar::digit_end(s, p1 + 1) - p1 - 1) as nat);
    }
    assert(num > 0 && den > 0);
    crate::music::ratio::lemma_gcd_divides(num, den);
    let g = crate::music::ratio::divisor(num, den);
    crate::music::ratio::lemma_div_le(num, g);
    crate::music::ratio::lemma_div_le(den, g);
    crate::music::ratio::lemma_reduced_lowest_terms(num, den);
    let r = crate::music::ratio::reduced(num, den);
    assert(r.num > 0) by (nonlinear_arith)
        requires
            r.num * den == num * r.den,
            r.den >= 1,
            num > 0,
            den > 0;
}

/// The common denominator of the first `i` weights is a positive multiple of each.
proof fn lemma_common_den(steps: Seq<StepV>, i: int)
    requires
        0 <= i <= steps.len(),
        super::bounds::common_den(steps, i) is Some,
        forall|j: int| 0 <= j < steps.len() ==> marks_ok(#[trigger] steps[j]),
    ensures
        super::bounds::common_den(steps, i)->Some_0 > 0,
        forall|j: int| 0 <= j < i ==> super::bounds::common_den(steps, i)->Some_0
            % (super::bounds::weight_of(#[trigger] steps[j]).den as nat) == 0,
    decreases i,
{
    if i > 0 {
        let d = super::bounds::common_den(steps, i - 1)->Some_0;
        lemma_common_den(steps, i - 1);
        let w = super::bounds::weight_of(steps[i - 1]).den as nat;
        assert(marks_ok(steps[i - 1]));
        super::period::lemma_lcm128(d, w);
        let l = super::bounds::common_den(steps, i)->Some_0;
        assert forall|j: int| 0 <= j < i implies l % (super::bounds::weight_of(#[trigger] steps[j]).den as nat) == 0 by {
            if j < i - 1 {
                assert(marks_ok(steps[j]));
                crate::music::cycle::lemma_divides_trans(super::bounds::weight_of(steps[j]).den as nat, d, l);
            }
        }
    } else {
        assert(super::bounds::common_den(steps, 0) == Some(1nat));
    }
}

/// Every step of a sequence whose weights add up takes a positive share.
proof fn lemma_share_positive(steps: Seq<StepV>, j: int)
    requires
        0 <= j < steps.len(),
        super::bounds::weights_total(steps) is Some,
        forall|x: int| 0 <= x < steps.len() ==> marks_ok(#[trigger] steps[x]),
    ensures
        super::bounds::share_of(steps, j, super::bounds::weights_total(steps)->Some_0.0) > 0,
{
    let den = super::bounds::weights_total(steps)->Some_0.0;
    lemma_common_den(steps, steps.len() as int);
    let w = super::bounds::weight_of(steps[j]);
    assert(marks_ok(steps[j]));
    assert(w.num > 0 && w.den > 0);
    assert(den % (w.den as nat) == 0);
    vstd::arithmetic::div_mod::lemma_fundamental_div_mod(den as int, w.den as int);
    let q = den / (w.den as nat);
    assert(q > 0) by (nonlinear_arith)
        requires
            den == (w.den as nat) * q + 0,
            den > 0;
    assert((w.num as nat) * q > 0) by (nonlinear_arith)
        requires
            w.num > 0,
            q > 0;
}

proof fn lemma_stack(s: Seq<char>, p: int, depth: nat)
    requires
        stack(s, p, depth) is Ok,
    ensures
        stack_marked(stack(s, p, depth)->Ok_0.0, 0),
    decreases s.len() - p, 6int,
{
    if 0 <= p <= s.len() {
        let (first, p1) = sequence(s, p, depth)->Ok_0;
        lemma_sequence(s, p, depth);
        if p < p1 <= s.len() {
            lemma_stack_marked_all(seq![first], 0);
            lemma_stack_more(s, p1, depth, seq![first]);
        }
    }
}

proof fn lemma_stack_more(s: Seq<char>, p: int, depth: nat, acc: Seq<Seq<StepV>>)
    requires
        stack_marked(acc, 0),
        stack_more(s, p, depth, acc) is Ok,
    ensures
        stack_marked(stack_more(s, p, depth, acc)->Ok_0.0, 0),
    decreases s.len() - p, 5int,
{
    if 0 <= p <= s.len() {
        let q = super::grammar::skip_ws(s, p);
        if p <= q < s.len() && s[q] == ',' {
            let (next, r) = sequence(s, q + 1, depth)->Ok_0;
            lemma_sequence(s, q + 1, depth);
            if p < r <= s.len() {
                lemma_stack_marked_all(acc, 0);
                lemma_stack_marked_all(acc.push(next), 0);
                assert forall|x: int| 0 <= x < acc.push(next).len() implies seq_marked(#[trigger] acc.push(next)[x], 0) by {
                    if x < acc.len() {
                        assert(acc.push(next)[x] == acc[x]);
                    }
                }
                lemma_stack_more(s, r, depth, acc.push(next));
            }
        }
    }
}

proof fn lemma_sequence(s: Seq<char>, p: int, depth: nat)
    requires
        sequence(s, p, depth) is Ok,
    ensures
        seq_marked(sequence(s, p, depth)->Ok_0.0, 0),
    decreases s.len() - p, 4int,
{
    lemma_seq_marked_all(Seq::<StepV>::empty(), 0);
    lemma_sequence_more(s, p, depth, Seq::empty());
}

proof fn lemma_sequence_more(s: Seq<char>, p: int, depth: nat, acc: Seq<StepV>)
    requires
        seq_marked(acc, 0),
        sequence_more(s, p, depth, acc) is Ok,
    ensures
        seq_marked(sequence_more(s, p, depth, acc)->Ok_0.0, 0),
    decreases s.len() - p, 3int,
{
    if 0 <= p <= s.len() {
        let q = super::grammar::skip_ws(s, p);
        if p <= q <= s.len() && !super::grammar::closes_sequence(super::grammar::peek(s, q)) {
            let (st, r) = step(s, q, depth)->Ok_0;
            lemma_step(s, q, depth);
            if p < r <= s.len() {
                lemma_seq_marked_all(acc, 0);
                lemma_seq_marked_all(acc.push(st), 0);
                assert forall|j: int| 0 <= j < acc.push(st).len() implies marks_ok(#[trigger] acc.push(st)[j])
                    && atom_marked(acc.push(st)[j].atom) by {
                    if j < acc.len() {
                        assert(acc.push(st)[j] == acc[j]);
                    }
                }
                lemma_sequence_more(s, r, depth, acc.push(st));
            }
        }
    }
}

proof fn lemma_step(s: Seq<char>, p: int, depth: nat)
    requires
        step(s, p, depth) is Ok,
    ensures
        marks_ok(step(s, p, depth)->Ok_0.0),
        atom_marked(step(s, p, depth)->Ok_0.0.atom),
    decreases s.len() - p, 2int,
{
    if 0 <= p <= s.len() {
        let (a, p1) = atom(s, p, depth)->Ok_0;
        lemma_atom(s, p, depth);
        lemma_modifiers(s, p1, bare_step(a));
    }
}

proof fn lemma_atom(s: Seq<char>, p: int, depth: nat)
    requires
        atom(s, p, depth) is Ok,
    ensures
        atom_marked(atom(s, p, depth)->Ok_0.0),
    decreases s.len() - p, 1int,
{
    if 0 <= p <= s.len() {
        match super::grammar::peek(s, p) {
            Some(c) => {
                if c == '[' {
                    lemma_stack(s, p + 1, depth + 1);
                } else if c == '<' || c == '{' {
                    lemma_sequence(s, p + 1, depth + 1);
                } else if super::grammar::starts_number(c) {
                    assert(super::grammar::number(s, p)->Ok_0.0 is Token);
                } else if super::grammar::starts_word(c) {
                    assert(super::grammar::word(s, p)->Ok_0.0 is Token);
                }
            },
            None => {},
        }
    }
}

/// A parsed stack of sequences has only valid ratchets.
pub proof fn lemma_parsed_marked(s: Seq<char>)
    requires
        stack(s, 0, 0) is Ok,
    ensures
        stack_marked(stack(s, 0, 0)->Ok_0.0, 0),
{
    lemma_stack(s, 0, 0);
}

proof fn lemma_all_add(a: Seq<Placed>, b: Seq<Placed>)
    requires
        all_placed_ok(a),
        all_placed_ok(b),
    ensures
        all_placed_ok(a + b),
{
    assert forall|i: int| 0 <= i < (a + b).len() implies placed_ok(#[trigger] (a + b)[i]) by {
        if i < a.len() {
            assert((a + b)[i] == a[i]);
        } else {
            assert((a + b)[i] == b[i - a.len()]);
        }
    }
}

proof fn lemma_render_seq(steps: Seq<StepV>, start: nat, span: nat, acc: nat, k: nat, inh: Inherit)
    requires
        seq_marked(steps, 0),
        inherit_ok(inh),
        span > 0,
        acc > 0,
    ensures
        all_placed_ok(render_seq(steps, start, span, acc, k, inh)),
    decreases steps, steps.len() + 1,
{
    match super::bounds::weights_total(steps) {
        None => {},
        Some((den, total)) => {
            lemma_seq_marked_all(steps, 0);
            lemma_render_seq_from(steps, 0, start, span, acc, den, total, 0, k, inh);
        },
    }
}

proof fn lemma_render_seq_from(
    steps: Seq<StepV>,
    i: int,
    start: nat,
    span: nat,
    acc: nat,
    den: nat,
    total: nat,
    prefix: nat,
    k: nat,
    inh: Inherit,
)
    requires
        0 <= i,
        seq_marked(steps, i),
        inherit_ok(inh),
        span > 0,
        acc > 0,
        super::bounds::weights_total(steps) == Some((den, total)),
        forall|x: int| 0 <= x < steps.len() ==> marks_ok(#[trigger] steps[x]),
    ensures
        all_placed_ok(render_seq_from(steps, i, start, span, acc, den, total, prefix, k, inh)),
    decreases steps, steps.len() - i,
{
    if i < steps.len() {
        let share = super::bounds::share_of(steps, i, den);
        lemma_share_positive(steps, i);
        assert(span * share > 0 && acc * total > 0) by (nonlinear_arith)
            requires
                span > 0,
                share > 0,
                acc > 0,
                total > 0;
        lemma_render_step(steps[i], start * total + span * prefix, span * share, acc * total, k, inh);
        lemma_render_seq_from(steps, i + 1, start, span, acc, den, total, prefix + share, k, inh);
        lemma_all_add(
            render_step(steps[i], start * total + span * prefix, span * share, acc * total, k, inh),
            render_seq_from(steps, i + 1, start, span, acc, den, total, prefix + share, k, inh),
        );
    }
}

proof fn lemma_render_step(st: StepV, start: nat, span: nat, acc: nat, k: nat, inh: Inherit)
    requires
        marks_ok(st),
        atom_marked(st.atom),
        inherit_ok(inh),
        span > 0,
        acc > 0,
    ensures
        all_placed_ok(render_step(st, start, span, acc, k, inh)),
    decreases st, 1int,
{
    let inh2 = inherit_into(st, inh);
    match st.euclid {
        None => lemma_render_atom(st.atom, start, span, acc, k, inh2),
        Some(e) => lemma_render_euclid(st.atom, e, 0, start, span, acc, k, inh2),
    }
}

proof fn lemma_render_euclid(
    a: AtomV,
    e: super::Euclid,
    i: int,
    start: nat,
    span: nat,
    acc: nat,
    k: nat,
    inh: Inherit,
)
    requires
        atom_marked(a),
        inherit_ok(inh),
        span > 0,
        acc > 0,
        e.steps > 0,
    ensures
        all_placed_ok(render_euclid(a, e, i, start, span, acc, k, inh)),
    decreases a, e.steps - i + 1,
{
    if 0 <= i < e.steps {
        let at = start * (e.steps as nat) + span * (i as nat);
        assert(acc * (e.steps as nat) > 0) by (nonlinear_arith)
            requires
                acc > 0,
                e.steps > 0;
        lemma_render_atom(a, at, span, acc * (e.steps as nat), k, inh);
        lemma_render_euclid(a, e, i + 1, start, span, acc, k, inh);
        let here = if super::render::euclid_active(e, i) {
            render_atom(a, at, span, acc * (e.steps as nat), k, inh)
        } else {
            Seq::empty()
        };
        lemma_all_add(here, render_euclid(a, e, i + 1, start, span, acc, k, inh));
    }
}

proof fn lemma_render_atom(a: AtomV, start: nat, span: nat, acc: nat, k: nat, inh: Inherit)
    requires
        atom_marked(a),
        inherit_ok(inh),
        span > 0,
        acc > 0,
    ensures
        all_placed_ok(render_atom(a, start, span, acc, k, inh)),
    decreases a, 0int,
{
    match a {
        AtomV::Stack(seqs) => {
            lemma_render_stack_from(seqs, 0, start, span, acc, k, inh);
        },
        AtomV::Alt(elems) => {
            if elems.len() > 0 {
                let x = (k % elems.len()) as int;
                lemma_seq_marked_all(elems, 0);
                assert(marks_ok(elems[x]) && atom_marked(elems[x].atom));
                lemma_render_step(elems[x], start, span, acc, k, inh);
            }
        },
        AtomV::Poly { steps, per_cycle } => {
            lemma_render_poly(steps, per_cycle, 0, start, span, acc, k, inh);
        },
        _ => {},
    }
}

proof fn lemma_render_stack_from(seqs: Seq<Seq<StepV>>, j: int, start: nat, span: nat, acc: nat, k: nat, inh: Inherit)
    requires
        0 <= j,
        stack_marked(seqs, j),
        inherit_ok(inh),
        span > 0,
        acc > 0,
    ensures
        all_placed_ok(render_stack_from(seqs, j, start, span, acc, k, inh)),
    decreases seqs, seqs.len() - j,
{
    if j < seqs.len() {
        lemma_render_seq(seqs[j], start, span, acc, k, inh);
        lemma_render_stack_from(seqs, j + 1, start, span, acc, k, inh);
        lemma_all_add(
            render_seq(seqs[j], start, span, acc, k, inh),
            render_stack_from(seqs, j + 1, start, span, acc, k, inh),
        );
    }
}

proof fn lemma_render_poly(
    steps: Seq<StepV>,
    n: u64,
    j: int,
    start: nat,
    span: nat,
    acc: nat,
    k: nat,
    inh: Inherit,
)
    requires
        0 <= j,
        seq_marked(steps, 0),
        inherit_ok(inh),
        span > 0,
        acc > 0,
        n > 0,
    ensures
        all_placed_ok(render_poly(steps, n, j, start, span, acc, k, inh)),
    decreases steps, n - j,
{
    if j < n && steps.len() > 0 {
        let x = ((k * (n as nat) + (j as nat)) % steps.len()) as int;
        lemma_seq_marked_all(steps, 0);
        assert(marks_ok(steps[x]) && atom_marked(steps[x].atom));
        let here = render_step(steps[x], start * (n as nat) + span * (j as nat), span, acc * (n as nat), k, inh);
        assert(acc * (n as nat) > 0) by (nonlinear_arith)
            requires
                acc > 0,
                n > 0;
        lemma_render_step(steps[x], start * (n as nat) + span * (j as nat), span, acc * (n as nat), k, inh);
        lemma_render_poly(steps, n, j + 1, start, span, acc, k, inh);
        lemma_all_add(here, render_poly(steps, n, j + 1, start, span, acc, k, inh));
    }
}

proof fn lemma_render_top(seqs: Seq<Seq<StepV>>, j: int, k: nat)
    requires
        0 <= j,
        stack_marked(seqs, j),
    ensures
        all_placed_ok(render_top(seqs, j, k)),
    decreases seqs.len() - j,
{
    if j < seqs.len() {
        let inh = Inherit { ratchet: None, draw: false };
        lemma_render_seq(seqs[j], 0, 1, 1, k, inh);
        lemma_render_top(seqs, j + 1, k);
        lemma_all_add(render_seq(seqs[j], 0, 1, 1, k, inh), render_top(seqs, j + 1, k));
    }
}

proof fn lemma_insert(sorted: Seq<Placed>, e: Placed)
    requires
        all_placed_ok(sorted),
        placed_ok(e),
    ensures
        all_placed_ok(insert_by_onset(sorted, e)),
    decreases sorted.len(),
{
    if sorted.len() > 0 {
        if super::render::onset_le(sorted.last(), e) {
            assert forall|i: int| 0 <= i < sorted.push(e).len() implies placed_ok(#[trigger] sorted.push(e)[i]) by {
                if i < sorted.len() {
                    assert(sorted.push(e)[i] == sorted[i]);
                }
            }
        } else {
            let d = sorted.drop_last();
            assert(all_placed_ok(d)) by {
                assert forall|i: int| 0 <= i < d.len() implies placed_ok(#[trigger] d[i]) by {
                    assert(d[i] == sorted[i]);
                }
            }
            assert(placed_ok(sorted[sorted.len() - 1]));
            lemma_insert(d, e);
            let r = insert_by_onset(d, e);
            assert forall|i: int| 0 <= i < r.push(sorted.last()).len() implies placed_ok(#[trigger] r.push(sorted.last())[i]) by {
                if i < r.len() {
                    assert(r.push(sorted.last())[i] == r[i]);
                }
            }
        }
    }
}

/// Ordering the events by onset keeps what holds of each.
proof fn lemma_sorted_placed(s: Seq<Placed>)
    requires
        all_placed_ok(s),
    ensures
        all_placed_ok(sort_by_onset(s)),
    decreases s.len(),
{
    if s.len() > 0 {
        let d = s.drop_last();
        assert(all_placed_ok(d)) by {
            assert forall|i: int| 0 <= i < d.len() implies placed_ok(#[trigger] d[i]) by {
                assert(d[i] == s[i]);
            }
        }
        lemma_sorted_placed(d);
        assert(placed_ok(s[s.len() - 1]));
        lemma_insert(sort_by_onset(d), s.last());
    }
}

/// Every event of a cycle of a parsed pattern takes some of the cycle and draws as its ratchet
/// allows: a `?` hit strikes once, and a `?` tail belongs to a ratchet of at least two strikes.
pub proof fn lemma_cycle_placed(p: Seq<Seq<StepV>>, k: nat)
    requires
        stack_marked(p, 0),
    ensures
        all_placed_ok(sort_by_onset(render_top(p, 0, k))),
{
    lemma_render_top(p, 0, k);
    lemma_sorted_placed(render_top(p, 0, k));
}

/// Whether `p` begins where `o` does, compared exactly.
pub open spec fn at_onset(p: Placed, o: Placed) -> bool {
    p.start * o.acc == o.start * p.acc
}

/// The positions of `s` that begin where `o` does, in their order in `s`.
pub open spec fn at_onset_in(s: Seq<Placed>, o: Placed) -> Seq<Placed>
    decreases s.len(),
{
    if s.len() == 0 {
        Seq::empty()
    } else {
        let r = at_onset_in(s.drop_last(), o);
        if at_onset(s.last(), o) { r.push(s.last()) } else { r }
    }
}

proof fn lemma_insert_stable(sorted: Seq<Placed>, e: Placed, o: Placed)
    requires
        all_placed_ok(sorted),
        placed_ok(e),
        o.acc > 0,
    ensures
        at_onset_in(insert_by_onset(sorted, e), o) == (if at_onset(e, o) {
            at_onset_in(sorted, o).push(e)
        } else {
            at_onset_in(sorted, o)
        }),
    decreases sorted.len(),
{
    if sorted.len() == 0 {
        assert(seq![e].drop_last() =~= Seq::<Placed>::empty());
        assert(at_onset_in(Seq::<Placed>::empty(), o) == Seq::<Placed>::empty());
        assert(sorted =~= Seq::<Placed>::empty());
        assert(insert_by_onset(sorted, e) == seq![e]);
        assert(seq![e].last() == e);
        assert(Seq::<Placed>::empty().push(e) =~= seq![e]);
    } else if super::render::onset_le(sorted.last(), e) {
        assert(insert_by_onset(sorted, e) == sorted.push(e));
        assert(sorted.push(e).drop_last() =~= sorted);
        assert(sorted.push(e).last() == e);
    } else {
        let d = sorted.drop_last();
        let last = sorted.last();
        assert(all_placed_ok(d)) by {
            assert forall|i: int| 0 <= i < d.len() implies placed_ok(#[trigger] d[i]) by {
                assert(d[i] == sorted[i]);
            }
        }
        assert(placed_ok(sorted[sorted.len() - 1]));
        lemma_insert_stable(d, e, o);
        let r = insert_by_onset(d, e);
        assert(insert_by_onset(sorted, e) == r.push(last));
        assert(r.push(last).drop_last() =~= r);
        assert(r.push(last).last() == last);
        assert(at_onset_in(sorted, o) == (if at_onset(last, o) { at_onset_in(d, o).push(last) } else { at_onset_in(d, o) }));
        if at_onset(e, o) && at_onset(last, o) {
            assert(last.start * e.acc <= e.start * last.acc) by (nonlinear_arith)
                requires
                    e.start * o.acc == o.start * e.acc,
                    last.start * o.acc == o.start * last.acc,
                    o.acc > 0,
                    e.acc > 0,
                    last.acc > 0;
        }
        if at_onset(e, o) {
            assert(!at_onset(last, o));
            assert(at_onset_in(r.push(last), o) == at_onset_in(r, o));
        } else {
            assert(at_onset_in(r.push(last), o) == (if at_onset(last, o) { at_onset_in(r, o).push(last) } else { at_onset_in(r, o) }));
        }
    }
}

/// Ordering by onset is stable: at every onset, the positions there keep their source order.
pub proof fn lemma_sort_stable(s: Seq<Placed>, o: Placed)
    requires
        all_placed_ok(s),
        o.acc > 0,
    ensures
        at_onset_in(sort_by_onset(s), o) == at_onset_in(s, o),
    decreases s.len(),
{
    if s.len() > 0 {
        let d = s.drop_last();
        assert(all_placed_ok(d)) by {
            assert forall|i: int| 0 <= i < d.len() implies placed_ok(#[trigger] d[i]) by {
                assert(d[i] == s[i]);
            }
        }
        lemma_sort_stable(d, o);
        lemma_sorted_placed(d);
        assert(placed_ok(s[s.len() - 1]));
        lemma_insert_stable(sort_by_onset(d), s.last(), o);
    }
}

/// The events of a cycle of a parsed pattern that begin together come in source order.
pub proof fn lemma_cycle_stable(p: Seq<Seq<StepV>>, k: nat, o: Placed)
    requires
        stack_marked(p, 0),
        o.acc > 0,
    ensures
        at_onset_in(sort_by_onset(render_top(p, 0, k)), o) == at_onset_in(render_top(p, 0, k), o),
{
    lemma_render_top(p, 0, k);
    lemma_sort_stable(render_top(p, 0, k), o);
}

} // verus!
