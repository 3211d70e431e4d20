//! When a decimal literal stays finite as an IEEE double.
//!
//! Round-to-nearest-even sends a value to infinity exactly when it reaches the midpoint
//! between `f64::MAX` and `2^1024`, which is `2^1024 - 2^970`. A literal's fractional part
//! cannot carry it across that integer, so only the whole-number digits decide.
use vstd::prelude::*;

use crate::music::time::{all_digits, digits_value, is_digit};

verus! {

/// The decimal digits of `2^1024 - 2^970`, the least value that a double rounds to infinity.
pub const OVERFLOW_DIGITS: &'static str = "179769313486231580793728971405303415079934132710037826936173778980444968292764750946649017977587207096330286416692887910946555547851940402630657488671505820681908902000708383676273854845817711531764475730270069855571366959622842914819860834936475292719074168444365510704342711559699508093042880177904174497792";

/// The least whole number that a double rounds to infinity.
pub open spec fn overflow_threshold() -> nat {
    digits_value(OVERFLOW_DIGITS@)
}

/// A literal whose whole-number digits are `whole` parses to a finite double.
pub open spec fn finite_literal(whole: Seq<char>) -> bool {
    digits_value(whole) < overflow_threshold()
}

pub open spec fn pow10(n: nat) -> nat
    decreases n,
{
    if n == 0 { 1 } else { 10 * pow10((n - 1) as nat) }
}

/// A digit string's value is below ten to its length.
proof fn lemma_value_below(d: Seq<char>)
    requires
        all_digits(d),
    ensures
        digits_value(d) < pow10(d.len()),
    decreases d.len(),
{
    if d.len() > 0 {
        assert(all_digits(d.drop_last())) by {
            assert forall|i: int| 0 <= i < d.drop_last().len() implies is_digit(#[trigger] d.drop_last()[i]) by {
                assert(d.drop_last()[i] == d[i]);
            }
        }
        lemma_value_below(d.drop_last());
        assert(is_digit(d[d.len() - 1]));
    }
}

/// A digit string with a nonzero lead is at least ten to its length less one.
proof fn lemma_value_above(d: Seq<char>)
    requires
        all_digits(d),
        d.len() > 0,
        d[0] != '0',
    ensures
        digits_value(d) >= pow10((d.len() - 1) as nat),
    decreases d.len(),
{
    if d.len() > 1 {
        assert(all_digits(d.drop_last())) by {
            assert forall|i: int| 0 <= i < d.drop_last().len() implies is_digit(#[trigger] d.drop_last()[i]) by {
                assert(d.drop_last()[i] == d[i]);
            }
        }
        assert(d.drop_last()[0] == d[0]);
        lemma_value_above(d.drop_last());
    } else {
        assert(d.drop_last().len() == 0);
        assert(is_digit(d[0]));
    }
}

/// The value of a concatenation: the prefix shifted by the suffix's length, plus the suffix.
proof fn lemma_value_concat(a: Seq<char>, b: Seq<char>)
    ensures
        digits_value(a + b) == digits_value(a) * pow10(b.len()) + digits_value(b),
    decreases b.len(),
{
    if b.len() == 0 {
        assert(a + b =~= a);
        assert(digits_value(b) == 0);
        assert(pow10(0) == 1);
        assert(digits_value(a) * 1 == digits_value(a));
    } else {
        assert((a + b).drop_last() =~= a + b.drop_last());
        assert((a + b).last() == b.last());
        lemma_value_concat(a, b.drop_last());
        let p = pow10(b.drop_last().len());
        assert(b.drop_last().len() == b.len() - 1);
        assert(pow10(b.len()) == 10 * p);
        let va = digits_value(a);
        let vb1 = digits_value(b.drop_last());
        let last = ((b.last() as u32) - ('0' as u32)) as nat;
        assert(digits_value(a + b) == digits_value((a + b).drop_last()) * 10 + last);
        assert(digits_value(b) == vb1 * 10 + last);
        assert((va * p + vb1) * 10 + last == va * (10 * p) + (vb1 * 10 + last)) by (nonlinear_arith);
        assert(digits_value((a + b).drop_last()) == va * p + vb1);
    }
}

/// Leading zeros add nothing.
proof fn lemma_value_zeros(d: Seq<char>, z: int)
    requires
        0 <= z <= d.len(),
        forall|i: int| 0 <= i < z ==> d[i] == '0',
    ensures
        digits_value(d) == digits_value(d.skip(z)),
    decreases z,
{
    if z > 0 {
        let t = d.skip(z - 1);
        assert(t =~= seq![t[0]] + t.skip(1));
        assert(t.skip(1) =~= d.skip(z));
        lemma_value_concat(seq![t[0]], t.skip(1));
        assert(t[0] == d[z - 1]);
        assert(seq![t[0]].drop_last() =~= Seq::<char>::empty());
        assert(seq![t[0]].last() == '0');
        assert(digits_value(Seq::<char>::empty()) == 0);
        assert(digits_value(seq![t[0]]) == digits_value(seq![t[0]].drop_last()) * 10
            + ((seq![t[0]].last() as u32) - ('0' as u32)) as nat);
        assert(digits_value(seq![t[0]]) == 0);
        lemma_value_zeros(d, z - 1);
    } else {
        assert(d.skip(0) =~= d);
    }
}

/// Equal-length digit strings compare by their first differing digit.
proof fn lemma_value_lex(a: Seq<char>, b: Seq<char>, i: int)
    requires
        all_digits(a),
        all_digits(b),
        a.len() == b.len(),
        0 <= i < a.len(),
        a.subrange(0, i) == b.subrange(0, i),
        a[i] < b[i],
    ensures
        digits_value(a) < digits_value(b),
{
    let n = a.len();
    let rest = (n - i - 1) as nat;
    assert(a =~= a.subrange(0, i) + (seq![a[i]] + a.skip(i + 1)));
    assert(b =~= b.subrange(0, i) + (seq![b[i]] + b.skip(i + 1)));
    lemma_value_concat(a.subrange(0, i), seq![a[i]] + a.skip(i + 1));
    lemma_value_concat(b.subrange(0, i), seq![b[i]] + b.skip(i + 1));
    lemma_value_concat(seq![a[i]], a.skip(i + 1));
    lemma_value_concat(seq![b[i]], b.skip(i + 1));
    assert(all_digits(a.skip(i + 1))) by {
        assert forall|k: int| 0 <= k < a.skip(i + 1).len() implies is_digit(#[trigger] a.skip(i + 1)[k]) by {
            assert(a.skip(i + 1)[k] == a[i + 1 + k]);
        }
    }
    assert(all_digits(b.skip(i + 1))) by {
        assert forall|k: int| 0 <= k < b.skip(i + 1).len() implies is_digit(#[trigger] b.skip(i + 1)[k]) by {
            assert(b.skip(i + 1)[k] == b[i + 1 + k]);
        }
    }
    lemma_value_below(a.skip(i + 1));
    assert(seq![a[i]].drop_last() =~= Seq::<char>::empty());
    assert(seq![b[i]].drop_last() =~= Seq::<char>::empty());
    let da = digits_value(seq![a[i]]);
    let db = digits_value(seq![b[i]]);
    assert(da < db);
    let p = pow10(rest);
    let ta = digits_value(seq![a[i]] + a.skip(i + 1));
    let tb = digits_value(seq![b[i]] + b.skip(i + 1));
    assert(ta < tb) by (nonlinear_arith)
        requires
            ta == da * p + digits_value(a.skip(i + 1)),
            tb == db * p + digits_value(b.skip(i + 1)),
            digits_value(a.skip(i + 1)) < p,
            da < db,
    ;
    let h = digits_value(a.subrange(0, i));
    let q = pow10((n - i) as nat);
    assert(a.skip(i).len() == n - i);
    assert((seq![a[i]] + a.skip(i + 1)).len() == n - i);
    assert(h * q + ta < h * q + tb);
}

/// Whether the whole-number digits `v[start..end]` stay below the overflow threshold.
pub fn finite_digits(v: &Vec<char>, start: usize, end: usize) -> (r: bool)
    requires
        start <= end <= v@.len(),
        all_digits(v@.subrange(start as int, end as int)),
    ensures
        r == finite_literal(v@.subrange(start as int, end as int)),
{
    let ghost d = v@.subrange(start as int, end as int);
    let mut z = start;
    while z < end && v[z] == '0'
        invariant
            start <= z <= end <= v@.len(),
            forall|i: int| start <= i < z ==> v@[i] == '0',
        decreases end - z,
    {
        z += 1;
    }
    let ghost t = v@.subrange(z as int, end as int);
    proof {
        lemma_value_zeros(d, z - start);
        assert(d.skip(z - start) =~= t);
        reveal_strlit("179769313486231580793728971405303415079934132710037826936173778980444968292764750946649017977587207096330286416692887910946555547851940402630657488671505820681908902000708383676273854845817711531764475730270069855571366959622842914819860834936475292719074168444365510704342711559699508093042880177904174497792");
        assert(all_digits(t)) by {
            assert forall|k: int| 0 <= k < t.len() implies is_digit(#[trigger] t[k]) by {
                assert(t[k] == d[z - start + k]);
            }
        }
        assert(all_digits(OVERFLOW_DIGITS@));
        assert(OVERFLOW_DIGITS@.len() == 309);
        assert(OVERFLOW_DIGITS@[0] == '1');
        lemma_value_above(OVERFLOW_DIGITS@);
        lemma_value_below(OVERFLOW_DIGITS@);
    }
    let len = end - z;
    if len < 309 {
        proof {
            lemma_value_below(t);
            lemma_pow10_monotone(t.len(), 308);
        }
        return true;
    }
    if len > 309 {
        proof {
            assert(t[0] != '0');
            lemma_value_above(t);
            lemma_pow10_monotone(309, (t.len() - 1) as nat);
        }
        return false;
    }
    let mut i: usize = 0;
    while i < 309
        invariant
            i <= 309,
            end - z == 309,
            z + 309 <= v@.len(),
            t == v@.subrange(z as int, end as int),
            d == v@.subrange(start as int, end as int),
            digits_value(d) == digits_value(t),
            all_digits(t),
            all_digits(OVERFLOW_DIGITS@),
            OVERFLOW_DIGITS@.len() == 309,
            t.subrange(0, i as int) == OVERFLOW_DIGITS@.subrange(0, i as int),
        decreases 309 - i,
    {
        let c = v[z + i];
        let l = OVERFLOW_DIGITS.get_char(i);
        proof {
            assert(t[i as int] == c);
        }
        if c < l {
            proof {
                lemma_value_lex(t, OVERFLOW_DIGITS@, i as int);
            }
            return true;
        }
        if c > l {
            proof {
                lemma_value_lex(OVERFLOW_DIGITS@, t, i as int);
            }
            return false;
        }
        i += 1;
        proof {
            assert(t.subrange(0, i as int) =~= OVERFLOW_DIGITS@.subrange(0, i as int)) by {
                assert forall|k: int| 0 <= k < i implies t.subrange(0, i as int)[k] == OVERFLOW_DIGITS@.subrange(0, i as int)[k] by {
                    if k < i - 1 {
                        assert(t.subrange(0, i - 1)[k] == OVERFLOW_DIGITS@.subrange(0, i - 1)[k]);
                    }
                }
            }
        }
    }
    proof {
        assert(t.subrange(0, 309) =~= t);
        assert(OVERFLOW_DIGITS@.subrange(0, 309) =~= OVERFLOW_DIGITS@);
        assert(t =~= OVERFLOW_DIGITS@);
    }
    false
}

proof fn lemma_pow10_monotone(a: nat, b: nat)
    requires
        a <= b,
    ensures
        pow10(a) <= pow10(b),
    decreases b,
{
    if a < b {
        lemma_pow10_monotone(a, (b - 1) as nat);
    }
}

} // verus!
