//! The notation grammar, stated over the characters of the text. Each rule takes a position
//! and gives back what it read and where it stopped, or the message of the first error.
//! Where a rule continues from a position that an inner rule returned, it requires that
//! position to have moved forward; a rule that did not move would be an error of the grammar
//! itself, and such a branch answers with an empty message.
use vstd::prelude::*;

use super::{AtomV, Euclid, StepV, TokenV};
use super::decimal::finite_literal;
use crate::music::ratio::{reduced, Ratio};
use crate::music::time::{digits_value, is_digit};
use crate::text::{debug_char, decimal};

verus! {

/// What one rule gives back: the value read and the next position, or an error message.
pub type Parsed<T> = Result<(T, int), Seq<char>>;

/// The deepest nesting of `[ ]`, `< >` and `{ }`.
pub const MAX_DEPTH: u64 = 8;
/// The most slots a euclid or a polymeter may have, and the largest rotation.
pub const MAX_STEPS: u64 = 1024;

/// The ASCII whitespace characters.
pub open spec fn is_ws(c: char) -> bool {
    c == ' ' || c == '\t' || c == '\n' || c == '\u{c}' || c == '\r'
}

pub open spec fn peek(s: Seq<char>, p: int) -> Option<char> {
    if 0 <= p < s.len() { Some(s[p]) } else { None }
}

/// The first position at or after `p` that is not whitespace.
pub open spec fn skip_ws(s: Seq<char>, p: int) -> int
    decreases s.len() - p,
{
    if 0 <= p < s.len() && is_ws(s[p]) { skip_ws(s, p + 1) } else { p }
}

/// The end of the run of ASCII digits that starts at `p`.
pub open spec fn digit_end(s: Seq<char>, p: int) -> int
    decreases s.len() - p,
{
    if 0 <= p < s.len() && is_digit(s[p]) { digit_end(s, p + 1) } else { p }
}

/// The end of the run of lowercase letters, digits and underscores that starts at `p`.
pub open spec fn word_end(s: Seq<char>, p: int) -> int
    decreases s.len() - p,
{
    if 0 <= p < s.len() && is_word_char(s[p]) { word_end(s, p + 1) } else { p }
}

pub open spec fn is_word_char(c: char) -> bool {
    ('a' <= c && c <= 'z') || is_digit(c) || c == '_'
}

/// What the text holds at `p`, for a message.
pub open spec fn here(s: Seq<char>, p: int) -> Seq<char> {
    if 0 <= p < s.len() { debug_char(s[p]) } else { "end of pattern"@ }
}

/// An error at position `p`.
pub open spec fn fail_at(p: int, what: Seq<char>) -> Seq<char> {
    "at byte "@ + decimal(p as nat) + ": "@ + what
}

/// A step ends at whitespace, at the end of the text, or at a closing or separating mark.
pub open spec fn ends_step(c: Option<char>) -> bool {
    match c {
        None => true,
        Some(c) => c == ']' || c == '>' || c == '}' || c == ',' || is_ws(c),
    }
}

/// A token may also end where a modifier begins.
pub open spec fn ends_token(c: Option<char>) -> bool {
    c == Some('*') || c == Some('@') || c == Some('?') || c == Some('(') || ends_step(c)
}

/// `digits+`: a whole number that fits in `u64`.
pub open spec fn integer(s: Seq<char>, p: int) -> Parsed<u64> {
    let q = digit_end(s, p);
    if q == p {
        Err(fail_at(p, "expected a whole number, found "@ + here(s, p)))
    } else if digits_value(s.subrange(p, q)) > u64::MAX {
        Err(fail_at(p, "whole number is too large"@))
    } else {
        Ok((digits_value(s.subrange(p, q)) as u64, q))
    }
}

/// Skip whitespace, then require the character `b`.
pub open spec fn expect(s: Seq<char>, p: int, b: char) -> Result<int, Seq<char>> {
    let q = skip_ws(s, p);
    if peek(s, q) == Some(b) {
        Ok(q + 1)
    } else {
        Err(fail_at(q, "expected "@ + debug_char(b) + ", found "@ + here(s, q)))
    }
}

/// The whole number `whole` followed by the fractional digits `frac`, as an integer.
pub open spec fn scaled(whole: nat, frac: Seq<char>) -> nat
    decreases frac.len(),
{
    if frac.len() == 0 {
        whole
    } else {
        scaled(whole, frac.drop_last()) * 10 + ((frac.last() as u32) - ('0' as u32)) as nat
    }
}

pub open spec fn pow10(n: nat) -> nat
    decreases n,
{
    if n == 0 { 1 } else { 10 * pow10((n - 1) as nat) }
}

/// `digits ('.' digits)?`: a positive weight, exact.
pub open spec fn weight(s: Seq<char>, p: int) -> Parsed<Ratio> {
    match integer(s, p) {
        Err(e) => Err(e),
        Ok((whole, p1)) => {
            let (num, den, q) = if peek(s, p1) == Some('.') {
                let q = digit_end(s, p1 + 1);
                (scaled(whole as nat, s.subrange(p1 + 1, q)), pow10((q - p1 - 1) as nat), q)
            } else {
                (whole as nat, 1nat, p1)
            };
            if peek(s, p1) == Some('.') && q == p1 + 1 {
                Err(fail_at(q, "expected digits after '.'"@))
            } else if num > u128::MAX || den > u128::MAX {
                Err(fail_at(p, "weight has too many digits"@))
            } else if num == 0 {
                Err(fail_at(p, "weight must be positive"@))
            } else if num > u64::MAX || den > u64::MAX {
                Err(fail_at(p, "weight is too large"@))
            } else {
                Ok((reduced(num, den), q))
            }
        },
    }
}

/// The optional `, rotate` of a euclid.
pub open spec fn euclid_rotation(s: Seq<char>, p: int) -> Parsed<u64> {
    if peek(s, p) == Some(',') {
        integer(s, skip_ws(s, p + 1))
    } else {
        Ok((0u64, p))
    }
}

/// `pulses, steps (, rotate)? )` after the opening parenthesis.
pub open spec fn euclid(s: Seq<char>, p: int) -> Parsed<Euclid> {
    match integer(s, skip_ws(s, p)) {
        Err(e) => Err(e),
        Ok((pulses, p2)) => match expect(s, p2, ',') {
            Err(e) => Err(e),
            Ok(p3) => match integer(s, skip_ws(s, p3)) {
                Err(e) => Err(e),
                Ok((steps, p5)) => match euclid_rotation(s, skip_ws(s, p5)) {
                    Err(e) => Err(e),
                    Ok((rotate, p8)) => match expect(s, p8, ')') {
                        Err(e) => Err(e),
                        Ok(p9) => {
                            if pulses == 0 || steps == 0 || steps > MAX_STEPS || pulses > steps {
                                Err(fail_at(p9, "expected euclid 1 <= pulses <= steps <= 1024"@))
                            } else if rotate > MAX_STEPS {
                                Err(fail_at(p9, "expected euclid rotation 0..=1024"@))
                            } else {
                                Ok((Euclid { pulses, steps, rotate: rotate as i64 }, p9))
                            }
                        },
                    },
                },
            },
        },
    }
}

/// The pitch class of a note letter.
pub open spec fn letter_class(c: char) -> Option<int> {
    if c == 'c' { Some(0) }
    else if c == 'd' { Some(2) }
    else if c == 'e' { Some(4) }
    else if c == 'f' { Some(5) }
    else if c == 'g' { Some(7) }
    else if c == 'a' { Some(9) }
    else if c == 'b' { Some(11) }
    else { None }
}

/// `[a-g](#|b)?-?\d` ending the word: the end offset and the MIDI number (c1 = 36).
pub open spec fn note_at(s: Seq<char>, p: int) -> Option<(int, int)> {
    match peek(s, p) {
        None => None,
        Some(letter) => match letter_class(letter) {
            None => None,
            Some(pc0) => {
                let (pc, i1) = if peek(s, p + 1) == Some('#') {
                    (pc0 + 1, p + 2)
                } else if peek(s, p + 1) == Some('b') {
                    (pc0 - 1, p + 2)
                } else {
                    (pc0, p + 1)
                };
                let negative = peek(s, i1) == Some('-');
                let i2 = if negative { i1 + 1 } else { i1 };
                match peek(s, i2) {
                    Some(d) if is_digit(d) && ends_token(peek(s, i2 + 1)) => {
                        let digit = (d as u32 - '0' as u32) as int;
                        let octave = if negative { -digit } else { digit };
                        Some((i2 + 1, (octave + 2) * 12 + pc))
                    },
                    _ => None,
                }
            },
        },
    }
}

/// Whether every character of `w` is an underscore.
pub open spec fn all_underscores(w: Seq<char>) -> bool {
    forall|i: int| 0 <= i < w.len() ==> w[i] == '_'
}

/// A note, the hit `x`, or a name.
pub open spec fn word(s: Seq<char>, p: int) -> Parsed<AtomV> {
    match note_at(s, p) {
        Some((end, midi)) => {
            if midi < 0 || midi > 127 {
                Err(fail_at(p, "note "@ + s.subrange(p, end) + " is outside MIDI 0..=127"@))
            } else {
                Ok((AtomV::Token(TokenV::Note { name: s.subrange(p, end), midi: midi as u8 }), end))
            }
        },
        None => {
            let q = word_end(s, p);
            let w = s.subrange(p, q);
            if w == "x"@ {
                Ok((AtomV::Token(TokenV::Hit), q))
            } else if all_underscores(w) {
                Err(fail_at(p, "'_' is not a token (elongate is not in this grammar)"@))
            } else {
                Ok((AtomV::Token(TokenV::Name(w)), q))
            }
        },
    }
}

/// `-?digits(.digits)?`: a finite decimal number.
pub open spec fn number(s: Seq<char>, p: int) -> Parsed<AtomV> {
    let p1 = if peek(s, p) == Some('-') { p + 1 } else { p };
    let q1 = digit_end(s, p1);
    if q1 == p1 {
        Err(fail_at(q1, "expected digits"@))
    } else {
        let has_frac = peek(s, q1) == Some('.');
        let end = if has_frac { digit_end(s, q1 + 1) } else { q1 };
        if has_frac && end == q1 + 1 {
            Err(fail_at(end, "expected digits after '.'"@))
        } else if !finite_literal(s.subrange(p1, q1)) {
            Err(fail_at(p, s.subrange(p, end) + " is not a finite number"@))
        } else {
            Ok((AtomV::Token(TokenV::Number(s.subrange(p, end))), end))
        }
    }
}

/// The step as it stands before its modifiers.
pub open spec fn bare_step(a: AtomV) -> StepV {
    StepV { atom: a, weight: None, ratchet: None, draw: false, euclid: None }
}

/// The modifiers `*n`, `@w`, `?` and `(p,s,r)`, each at most once, in any order.
pub open spec fn modifiers(s: Seq<char>, p: int, st: StepV) -> Parsed<StepV>
    decreases s.len() - p,
{
    if !(0 <= p <= s.len()) {
        Err(Seq::empty())
    } else if peek(s, p) == Some('*') {
        if st.ratchet is Some {
            Err(fail_at(p, "'*' already given on this step"@))
        } else {
            match integer(s, p + 1) {
                Err(e) => Err(e),
                Ok((n, q)) => {
                    if !(2 <= n <= 8) {
                        Err(fail_at(q, "expected a ratchet count 2..=8"@))
                    } else if p < q <= s.len() {
                        modifiers(s, q, StepV { ratchet: Some(n as u8), ..st })
                    } else {
                        Err(Seq::empty())
                    }
                },
            }
        }
    } else if peek(s, p) == Some('@') {
        if st.weight is Some {
            Err(fail_at(p, "'@' already given on this step"@))
        } else {
            match weight(s, p + 1) {
                Err(e) => Err(e),
                Ok((w, q)) => {
                    if p < q <= s.len() {
                        modifiers(s, q, StepV { weight: Some(w), ..st })
                    } else {
                        Err(Seq::empty())
                    }
                },
            }
        }
    } else if peek(s, p) == Some('?') {
        if st.draw {
            Err(fail_at(p, "'?' already given on this step"@))
        } else {
            modifiers(s, p + 1, StepV { draw: true, ..st })
        }
    } else if peek(s, p) == Some('(') {
        if st.euclid is Some {
            Err(fail_at(p, "euclid already given on this step"@))
        } else {
            match euclid(s, p + 1) {
                Err(e) => Err(e),
                Ok((e, q)) => {
                    if p < q <= s.len() {
                        modifiers(s, q, StepV { euclid: Some(e), ..st })
                    } else {
                        Err(Seq::empty())
                    }
                },
            }
        }
    } else {
        Ok((st, p))
    }
}

/// A stack: one or more comma-separated sequences over the same span.
pub open spec fn stack(s: Seq<char>, p: int, depth: nat) -> Parsed<Seq<Seq<StepV>>>
    decreases s.len() - p, 6int,
{
    if !(0 <= p <= s.len()) {
        Err(Seq::empty())
    } else {
        match sequence(s, p, depth) {
            Err(e) => Err(e),
            Ok((first, p1)) => {
                if p < p1 <= s.len() {
                    stack_more(s, p1, depth, seq![first])
                } else {
                    Err(Seq::empty())
                }
            },
        }
    }
}

/// The sequences after the first, each introduced by a comma.
pub open spec fn stack_more(s: Seq<char>, p: int, depth: nat, acc: Seq<Seq<StepV>>) -> Parsed<
    Seq<Seq<StepV>>,
>
    decreases s.len() - p, 5int,
{
    if !(0 <= p <= s.len()) {
        Err(Seq::empty())
    } else {
        let q = skip_ws(s, p);
        if !(p <= q < s.len()) || s[q] != ',' {
            Ok((acc, q))
        } else {
            match sequence(s, q + 1, depth) {
                Err(e) => Err(e),
                Ok((next, r)) => {
                    if p < r <= s.len() {
                        stack_more(s, r, depth, acc.push(next))
                    } else {
                        Err(Seq::empty())
                    }
                },
            }
        }
    }
}

/// A sequence: one or more steps separated by whitespace.
pub open spec fn sequence(s: Seq<char>, p: int, depth: nat) -> Parsed<Seq<StepV>>
    decreases s.len() - p, 4int,
{
    sequence_more(s, p, depth, Seq::empty())
}

/// Whether `c` closes a sequence.
pub open spec fn closes_sequence(c: Option<char>) -> bool {
    c == None::<char> || c == Some(']') || c == Some('>') || c == Some('}') || c == Some(',')
}

pub open spec fn sequence_more(s: Seq<char>, p: int, depth: nat, acc: Seq<StepV>) -> Parsed<
    Seq<StepV>,
>
    decreases s.len() - p, 3int,
{
    if !(0 <= p <= s.len()) {
        Err(Seq::empty())
    } else {
        let q = skip_ws(s, p);
        if !(p <= q <= s.len()) {
            Err(Seq::empty())
        } else if closes_sequence(peek(s, q)) {
            if acc.len() == 0 {
                Err(fail_at(q, "expected a step, found "@ + here(s, q)))
            } else {
                Ok((acc, q))
            }
        } else {
            match step(s, q, depth) {
                Err(e) => Err(e),
                Ok((st, r)) => {
                    if p < r <= s.len() {
                        sequence_more(s, r, depth, acc.push(st))
                    } else {
                        Err(Seq::empty())
                    }
                },
            }
        }
    }
}

/// A step: an atom, its modifiers, and then the end of the step.
pub open spec fn step(s: Seq<char>, p: int, depth: nat) -> Parsed<StepV>
    decreases s.len() - p, 2int,
{
    if !(0 <= p <= s.len()) {
        Err(Seq::empty())
    } else {
        match atom(s, p, depth) {
            Err(e) => Err(e),
            Ok((a, p1)) => match modifiers(s, p1, bare_step(a)) {
                Err(e) => Err(e),
                Ok((st, p2)) => {
                    if !ends_step(peek(s, p2)) {
                        Err(fail_at(p2, "expected whitespace between steps, found "@ + here(s, p2)))
                    } else {
                        Ok((st, p2))
                    }
                },
            },
        }
    }
}

/// The character that starts a number.
pub open spec fn starts_number(c: char) -> bool {
    c == '-' || is_digit(c)
}

/// The character that starts a word.
pub open spec fn starts_word(c: char) -> bool {
    ('a' <= c && c <= 'z') || c == '_'
}

pub open spec fn too_deep(p: int, depth: nat) -> Seq<char> {
    fail_at(p, "nesting deeper than 8 levels"@)
}

/// A rest, a group, an alternation, a polymeter, a number or a word.
pub open spec fn atom(s: Seq<char>, p: int, depth: nat) -> Parsed<AtomV>
    decreases s.len() - p, 1int,
{
    if !(0 <= p <= s.len()) {
        Err(Seq::empty())
    } else {
        match peek(s, p) {
            None => Err(fail_at(p, "expected a step, found end of pattern"@)),
            Some(c) => {
                if c == '~' {
                    Ok((AtomV::Rest, p + 1))
                } else if c == '[' {
                    if depth + 1 > MAX_DEPTH {
                        Err(too_deep(p, depth))
                    } else {
                        match stack(s, p + 1, depth + 1) {
                            Err(e) => Err(e),
                            Ok((inner, q)) => match expect(s, q, ']') {
                                Err(e) => Err(e),
                                Ok(q2) => Ok((AtomV::Stack(inner), q2)),
                            },
                        }
                    }
                } else if c == '<' {
                    if depth + 1 > MAX_DEPTH {
                        Err(too_deep(p, depth))
                    } else {
                        match sequence(s, p + 1, depth + 1) {
                            Err(e) => Err(e),
                            Ok((inner, q)) => match expect(s, q, '>') {
                                Err(e) => Err(e),
                                Ok(q2) => Ok((AtomV::Alt(inner), q2)),
                            },
                        }
                    }
                } else if c == '{' {
                    if depth + 1 > MAX_DEPTH {
                        Err(too_deep(p, depth))
                    } else {
                        match sequence(s, p + 1, depth + 1) {
                            Err(e) => Err(e),
                            Ok((inner, q)) => match expect(s, q, '}') {
                                Err(e) => Err(e),
                                Ok(q2) => match expect(s, q2, '%') {
                                    Err(e) => Err(e),
                                    Ok(q3) => match integer(s, q3) {
                                        Err(e) => Err(e),
                                        Ok((n, q4)) => {
                                            if n == 0 || n > MAX_STEPS {
                                                Err(fail_at(q4, "expected a '%' step count 1..=1024"@))
                                            } else {
                                                Ok((AtomV::Poly { steps: inner, per_cycle: n }, q4))
                                            }
                                        },
                                    },
                                },
                            },
                        }
                    }
                } else if starts_number(c) {
                    number(s, p)
                } else if starts_word(c) {
                    word(s, p)
                } else {
                    Err(fail_at(p, "unexpected "@ + here(s, p)))
                }
            },
        }
    }
}

} // verus!
