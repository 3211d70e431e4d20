//! Exact musical durations on the 960 PPQN clock; no floating-point accumulation.
use vstd::prelude::*;

use super::{PPQN, STEP_TICKS};
use crate::text::chars_of;

verus! {

/// A duration in ticks of the 960 PPQN clock.
#[derive(Clone, Copy, Debug, PartialEq, Eq, Structural)]
pub struct NoteValue(pub u64);

/// The denominators a note value may name, in the order labels are tried.
pub open spec fn denominator_at(i: int) -> nat {
    if i == 0 { 1 }
    else if i == 1 { 2 }
    else if i == 2 { 4 }
    else if i == 3 { 8 }
    else if i == 4 { 16 }
    else if i == 5 { 32 }
    else { 64 }
}

pub open spec fn is_denominator(d: nat) -> bool {
    d == 1 || d == 2 || d == 4 || d == 8 || d == 16 || d == 32 || d == 64
}

/// The value of `1/d` scaled by `num/den`: whole-note ticks times the ratio.
pub open spec fn scaled_value(d: nat, num: nat, den: nat) -> nat {
    ((PPQN as nat) * 4 * num / (d * den)) as nat
}

/// Decimal digits, as Rust's unsigned parse reads them: an optional `+`, then one or more
/// ASCII digits, with no sign or space anywhere else.
pub open spec fn digits_value(s: Seq<char>) -> nat
    decreases s.len(),
{
    if s.len() == 0 {
        0
    } else {
        digits_value(s.drop_last()) * 10 + ((s.last() as u32) - ('0' as u32)) as nat
    }
}

pub open spec fn is_digit(c: char) -> bool {
    '0' <= c && c <= '9'
}

pub open spec fn all_digits(s: Seq<char>) -> bool {
    forall|i: int| 0 <= i < s.len() ==> is_digit(#[trigger] s[i])
}

/// What `str::parse::<u64>` accepts, and the value it returns.
pub open spec fn parse_unsigned(s: Seq<char>) -> Option<nat> {
    let body = if s.len() > 0 && s[0] == '+' { s.drop_first() } else { s };
    if body.len() > 0 && all_digits(body) && digits_value(body) <= u64::MAX {
        Some(digits_value(body))
    } else {
        None
    }
}

/// The text with its suffix removed, and the ratio the suffix applies: `T` is a triplet
/// (2/3), `.` is dotted (3/2).
pub open spec fn split_suffix(s: Seq<char>) -> (Seq<char>, nat, nat) {
    if s.len() > 0 && s.last() == 'T' {
        (s.drop_last(), 2, 3)
    } else if s.len() > 0 && s.last() == '.' {
        (s.drop_last(), 3, 2)
    } else {
        (s, 1, 1)
    }
}

/// The denominator that `1/<d>` names, when the text has that shape.
pub open spec fn note_divisor(s: Seq<char>) -> Option<nat> {
    let base = split_suffix(s).0;
    if base.len() >= 2 && base[0] == '1' && base[1] == '/' {
        parse_unsigned(base.skip(2))
    } else {
        None
    }
}

pub open spec fn note_value_text(s: Seq<char>) -> Option<nat> {
    match note_divisor(s) {
        Some(d) if is_denominator(d) => Some(scaled_value(d, split_suffix(s).1, split_suffix(s).2)),
        _ => None,
    }
}

/// The ratio of suffix `j` in the label order: plain, triplet, dotted.
pub open spec fn suffix_ratio(j: int) -> (nat, nat) {
    if j == 0 { (1, 1) } else if j == 1 { (2, 3) } else { (3, 2) }
}

/// The value of label `i` in the order `1/1, 1/1T, 1/1., 1/2, ... 1/64.`.
pub open spec fn label_value(i: int) -> nat {
    scaled_value(denominator_at(i / 3), suffix_ratio(i % 3).0, suffix_ratio(i % 3).1)
}

/// The text of label `i`.
pub open spec fn label_text(i: int) -> Seq<char> {
    let d = if i / 3 == 0 { seq!['1'] }
        else if i / 3 == 1 { seq!['2'] }
        else if i / 3 == 2 { seq!['4'] }
        else if i / 3 == 3 { seq!['8'] }
        else if i / 3 == 4 { seq!['1', '6'] }
        else if i / 3 == 5 { seq!['3', '2'] }
        else { seq!['6', '4'] };
    let suffix = if i % 3 == 0 { seq![] } else if i % 3 == 1 { seq!['T'] } else { seq!['.'] };
    seq!['1', '/'] + d + suffix
}

pub open spec fn is_note_value(v: nat) -> bool {
    exists|i: int| 0 <= i < 21 && label_value(i) == v
}

/// Every note value is a positive number of ticks.
pub proof fn lemma_note_value_positive(v: nat)
    requires
        is_note_value(v),
    ensures
        v > 0,
{
    let i = choose|i: int| 0 <= i < 21 && label_value(i) == v;
    let d = denominator_at(i / 3);
    let (num, den) = suffix_ratio(i % 3);
    assert(1 <= d <= 64);
    assert(1 <= num <= 3 && 1 <= den <= 3);
    assert(d * den <= 192) by (nonlinear_arith) requires d <= 64, den <= 3;
    assert(d * den >= 1) by (nonlinear_arith) requires d >= 1, den >= 1;
    assert((PPQN as nat) * 4 * num >= 3840);
    vstd::arithmetic::div_mod::lemma_div_is_ordered((d * den) as int, ((PPQN as nat) * 4 * num) as int, (d * den) as int);
    vstd::arithmetic::div_mod::lemma_div_by_multiple(1, (d * den) as int);
}

/// The first label, in label order, whose value is `v`.
pub open spec fn first_label(v: nat) -> int {
    choose|i: int| 0 <= i < 21 && label_value(i) == v && forall|j: int| 0 <= j < i ==> label_value(j) != v
}

/// The label that names the note value `v`.
pub open spec fn note_label(v: nat) -> Seq<char> {
    label_text(first_label(v))
}

pub open spec fn parse_error_shape() -> Seq<char> {
    "note value must be 1/4, 1/8, 1/16 etc., optionally followed by T (triplet) or . (dotted)"@
}

pub open spec fn parse_error_denominator() -> Seq<char> {
    "note denominator must be 1, 2, 4, 8, 16, 32 or 64"@
}

/// Reads the digits after `1/`, as `str::parse::<u64>` does.
fn parse_u64_chars(s: &Vec<char>, start: usize, end: usize) -> (r: Option<u64>)
    requires
        start <= end <= s@.len(),
    ensures
        r matches Some(v) ==> parse_unsigned(s@.subrange(start as int, end as int)) == Some(v as nat),
        r is None ==> parse_unsigned(s@.subrange(start as int, end as int)) is None,
{
    let ghost full = s@.subrange(start as int, end as int);
    let mut i = start;
    if i < end && s[i] == '+' {
        i += 1;
    }
    let ghost body = s@.subrange(i as int, end as int);
    proof {
        if start < end && s@[start as int] == '+' {
            assert(body =~= full.drop_first());
        } else {
            assert(body =~= full);
        }
    }
    if i == end {
        return None;
    }
    let first = i;
    let mut value: u64 = 0;
    proof {
        assert(body.len() > 0);
    }
    while i < end
        invariant
            first <= i <= end <= s@.len(),
            body == s@.subrange(first as int, end as int),
            body.len() > 0,
            full == s@.subrange(start as int, end as int),
            parse_unsigned(full) == (if all_digits(body) && digits_value(body) <= u64::MAX {
                Some(digits_value(body))
            } else {
                None
            }),
            all_digits(s@.subrange(first as int, i as int)),
            value as nat == digits_value(s@.subrange(first as int, i as int)),
        decreases end - i,
    {
        let c = s[i];
        if !('0' <= c && c <= '9') {
            proof {
                assert(body[i - first] == c);
                assert(!is_digit(body[i - first]));
            }
            return None;
        }
        let d = (c as u32 - '0' as u32) as u64;
        proof {
            let pre = s@.subrange(first as int, i as int);
            let next = s@.subrange(first as int, i + 1);
            assert(next.drop_last() =~= pre);
            assert(next.last() == c);
            assert(all_digits(next)) by {
                assert forall|k: int| 0 <= k < next.len() implies is_digit(#[trigger] next[k]) by {
                    if k < pre.len() {
                        assert(next[k] == pre[k]);
                    }
                }
            }
        }
        if value > (u64::MAX - d) / 10 {
            proof {
                let next = s@.subrange(first as int, i + 1);
                if all_digits(body) {
                    lemma_digits_monotone(body, (i + 1 - first) as int);
                    assert(body.subrange(0, (i + 1 - first) as int) =~= next);
                }
            }
            return None;
        }
        value = value * 10 + d;
        i += 1;
    }
    proof {
        assert(s@.subrange(first as int, i as int) =~= body);
    }
    Some(value)
}

/// The value of a digit prefix never exceeds the value of the whole digit string.
pub proof fn lemma_digits_monotone(s: Seq<char>, n: int)
    requires
        0 <= n <= s.len(),
        all_digits(s),
    ensures
        digits_value(s.subrange(0, n)) <= digits_value(s),
    decreases s.len(),
{
    if n < s.len() {
        assert(s.drop_last() =~= s.subrange(0, s.len() - 1));
        assert(all_digits(s.drop_last()));
        lemma_digits_monotone(s.drop_last(), n);
        assert(s.drop_last().subrange(0, n) =~= s.subrange(0, n));
    } else {
        assert(s.subrange(0, n) =~= s);
    }
}

impl NoteValue {
    /// The default subdivision: one sixteenth.
    pub fn default_cell() -> (v: NoteValue)
        ensures
            v.0 == STEP_TICKS,
    {
        NoteValue(STEP_TICKS)
    }

    pub fn is_default(&self) -> (r: bool)
        ensures
            r == (self.0 == STEP_TICKS),
    {
        self.0 == STEP_TICKS
    }

    /// `1/d`, optionally followed by `T` (triplet) or `.` (dotted), for `d` in
    /// 1, 2, 4, 8, 16, 32, 64.
    pub fn parse(s: &str) -> (r: Result<NoteValue, String>)
        ensures
            r matches Ok(v) ==> note_value_text(s@) == Some(v.0 as nat),
            r is Err <==> note_value_text(s@) is None,
            r matches Err(e) ==> e@ == (if note_divisor(s@) is None {
                parse_error_shape()
            } else {
                parse_error_denominator()
            }),
    {
        let chars = chars_of(s);
        let n = chars.len();
        let (end, num, den): (usize, u64, u64) = if n > 0 && chars[n - 1] == 'T' {
            (n - 1, 2, 3)
        } else if n > 0 && chars[n - 1] == '.' {
            (n - 1, 3, 2)
        } else {
            (n, 1, 1)
        };
        proof {
            let sp = split_suffix(s@);
            assert(sp.0 =~= chars@.subrange(0, end as int));
            assert(sp.1 == num && sp.2 == den);
        }
        let divisor = if end >= 2 && chars[0] == '1' && chars[1] == '/' {
            let r = parse_u64_chars(&chars, 2, end);
            proof {
                assert(chars@.subrange(0, end as int).skip(2) =~= chars@.subrange(2, end as int));
            }
            r
        } else {
            None
        };
        let divisor = match divisor {
            Some(d) => d,
            None => {
                return Err(String::from_str(
                    "note value must be 1/4, 1/8, 1/16 etc., optionally followed by T (triplet) or . (dotted)",
                ));
            },
        };
        if !(divisor == 1 || divisor == 2 || divisor == 4 || divisor == 8 || divisor == 16
            || divisor == 32 || divisor == 64) {
            return Err(String::from_str("note denominator must be 1, 2, 4, 8, 16, 32 or 64"));
        }
        Ok(NoteValue(PPQN * 4 * num / (divisor * den)))
    }

    /// Whether the value is one that some note-value label names.
    pub fn valid(self) -> (r: bool)
        ensures
            r == is_note_value(self.0 as nat),
    {
        let mut i: usize = 0;
        while i < 21
            invariant
                i <= 21,
                forall|j: int| 0 <= j < i ==> label_value(j) != self.0,
            decreases 21 - i,
        {
            if label_ticks(i) == self.0 {
                return true;
            }
            i += 1;
        }
        false
    }

    /// The label that names this value, such as `1/16` or `1/8T`.
    pub fn label(self) -> (r: String)
        requires
            is_note_value(self.0 as nat),
        ensures
            r@ == note_label(self.0 as nat),
            exists|i: int| 0 <= i < 21 && label_value(i) == self.0 && r@ == label_text(i)
                && forall|j: int| 0 <= j < i ==> label_value(j) != self.0,
    {
        let mut i: usize = 0;
        while i < 21
            invariant
                i <= 21,
                is_note_value(self.0 as nat),
                forall|j: int| 0 <= j < i ==> label_value(j) != self.0,
            decreases 21 - i,
        {
            if label_ticks(i) == self.0 {
                proof {
                    let v = self.0 as nat;
                    assert(0 <= i < 21 && label_value(i as int) == v && forall|j: int| 0 <= j < i ==> label_value(j) != v);
                    let w = first_label(v);
                    assert(0 <= w < 21 && label_value(w) == v && forall|j: int| 0 <= j < w ==> label_value(j) != v);
                    if w < i {
                        assert(label_value(w) != v);
                    } else if w > i {
                        assert(label_value(i as int) != v);
                    }
                }
                return label_string(i);
            }
            i += 1;
        }
        proof {
            let w = choose|j: int| 0 <= j < 21 && label_value(j) == self.0;
            assert(label_value(w) != self.0);
        }
        String::new()
    }
}

/// The ticks of label `i`.
fn label_ticks(i: usize) -> (t: u64)
    requires
        i < 21,
    ensures
        t as nat == label_value(i as int),
{
    let d: u64 = if i / 3 == 0 { 1 } else if i / 3 == 1 { 2 } else if i / 3 == 2 { 4 }
        else if i / 3 == 3 { 8 } else if i / 3 == 4 { 16 } else if i / 3 == 5 { 32 } else { 64 };
    let (num, den): (u64, u64) = if i % 3 == 0 { (1, 1) } else if i % 3 == 1 { (2, 3) } else { (3, 2) };
    PPQN * 4 * num / (d * den)
}

/// The text of label `i`.
fn label_string(i: usize) -> (s: String)
    requires
        i < 21,
    ensures
        s@ == label_text(i as int),
{
    proof {
        reveal_strlit("1/");
        reveal_strlit("1");
        reveal_strlit("2");
        reveal_strlit("4");
        reveal_strlit("8");
        reveal_strlit("16");
        reveal_strlit("32");
        reveal_strlit("64");
        reveal_strlit("T");
        reveal_strlit(".");
    }
    let mut s = String::from_str("1/");
    let d = if i / 3 == 0 { "1" } else if i / 3 == 1 { "2" } else if i / 3 == 2 { "4" }
        else if i / 3 == 3 { "8" } else if i / 3 == 4 { "16" } else if i / 3 == 5 { "32" } else { "64" };
    s.append(d);
    if i % 3 == 1 {
        s.append("T");
    } else if i % 3 == 2 {
        s.append(".");
    }
    proof {
        assert(s@ =~= label_text(i as int));
    }
    s
}

/// The digits a label writes its denominator with read back as that denominator.
proof fn lemma_label_digits(k: int)
    requires
        0 <= k < 7,
    ensures
        ({
            let d = if k == 0 { seq!['1'] } else if k == 1 { seq!['2'] } else if k == 2 { seq!['4'] }
                else if k == 3 { seq!['8'] } else if k == 4 { seq!['1', '6'] } else if k == 5 { seq!['3', '2'] }
                else { seq!['6', '4'] };
            parse_unsigned(d) == Some(denominator_at(k)) && d.len() > 0 && is_digit(d.last())
        }),
{
    let e = Seq::<char>::empty();
    assert(digits_value(e) == 0);
    let one = seq!['1'];
    assert(one.drop_last() =~= e);
    let two = seq!['2'];
    assert(two.drop_last() =~= e);
    let four = seq!['4'];
    assert(four.drop_last() =~= e);
    let eight = seq!['8'];
    assert(eight.drop_last() =~= e);
    let three = seq!['3'];
    assert(three.drop_last() =~= e);
    let six = seq!['6'];
    assert(six.drop_last() =~= e);
    let sixteen = seq!['1', '6'];
    assert(sixteen.drop_last() =~= one);
    let thirty_two = seq!['3', '2'];
    assert(thirty_two.drop_last() =~= three);
    let sixty_four = seq!['6', '4'];
    assert(sixty_four.drop_last() =~= six);
    assert(digits_value(one) == 1);
    assert(digits_value(three) == 3);
    assert(digits_value(six) == 6);
    assert(all_digits(sixteen) && all_digits(thirty_two) && all_digits(sixty_four));
    assert(all_digits(one) && all_digits(two) && all_digits(four) && all_digits(eight));
}

/// Every label reads back as the value it names.
pub proof fn lemma_label_parses(i: int)
    requires
        0 <= i < 21,
    ensures
        note_value_text(label_text(i)) == Some(label_value(i)),
{
    let k = i / 3;
    let j = i % 3;
    lemma_label_digits(k);
    let d = if k == 0 { seq!['1'] } else if k == 1 { seq!['2'] } else if k == 2 { seq!['4'] }
        else if k == 3 { seq!['8'] } else if k == 4 { seq!['1', '6'] } else if k == 5 { seq!['3', '2'] }
        else { seq!['6', '4'] };
    let suffix: Seq<char> = if j == 0 { seq![] } else if j == 1 { seq!['T'] } else { seq!['.'] };
    let base = seq!['1', '/'] + d;
    let t = base + suffix;
    assert(label_text(i) == t);
    if j == 0 {
        assert(t =~= base);
        assert(t.last() == d.last());
    } else {
        assert(t.drop_last() =~= base);
    }
    assert(split_suffix(t).0 == base);
    assert(split_suffix(t).1 == suffix_ratio(j).0 && split_suffix(t).2 == suffix_ratio(j).1);
    assert(base.skip(2) =~= d);
    assert(note_divisor(t) == Some(denominator_at(k)));
}

/// Parsing the label of a note value gives that value back.
pub proof fn lemma_label_round_trip(v: nat)
    requires
        is_note_value(v),
    ensures
        note_value_text(note_label(v)) == Some(v),
{
    let w = first_label(v);
    assert(0 <= w < 21 && label_value(w) == v);
    lemma_label_parses(w);
}

} // verus!
