//! The recursive-descent reader of the notation, held to the grammar rule by rule.
use vstd::prelude::*;

use super::grammar::{
    all_underscores, atom, bare_step, closes_sequence, digit_end, ends_step, ends_token, euclid,
    euclid_rotation, expect, fail_at, here, integer, is_word_char, is_ws, letter_class,
    modifiers, note_at, number, peek, pow10, scaled, sequence, sequence_more, skip_ws, stack,
    stack_more, starts_number, starts_word, step, too_deep, weight, word, word_end, Parsed,
    MAX_DEPTH, MAX_STEPS,
};
use super::decimal::finite_digits;
use super::{
    atom_view, lemma_alt_view, lemma_poly_view, lemma_stack_view, seq_view, stack_view, step_view,
    Atom, AtomV, Euclid, Step, StepV, Token, TokenV,
};
use crate::music::ratio::{lemma_div_le, lemma_gcd_divides, divisor, Ratio};
use crate::music::time::{all_digits, digits_value, is_digit, lemma_digits_monotone};
use crate::text::{push_decimal, quoted_char};

verus! {

pub proof fn lemma_skip_ws(s: Seq<char>, p: int)
    requires
        0 <= p <= s.len(),
    ensures
        p <= skip_ws(s, p) <= s.len(),
        skip_ws(s, p) == s.len() || !is_ws(s[skip_ws(s, p)]),
    decreases s.len() - p,
{
    if p < s.len() && is_ws(s[p]) {
        lemma_skip_ws(s, p + 1);
    }
}

pub proof fn lemma_digit_end(s: Seq<char>, p: int)
    requires
        0 <= p <= s.len(),
    ensures
        p <= digit_end(s, p) <= s.len(),
        digit_end(s, p) == s.len() || !is_digit(s[digit_end(s, p)]),
        all_digits(s.subrange(p, digit_end(s, p))),
    decreases s.len() - p,
{
    if p < s.len() && is_digit(s[p]) {
        lemma_digit_end(s, p + 1);
        let q = digit_end(s, p);
        assert forall|k: int| 0 <= k < q - p implies is_digit(#[trigger] s.subrange(p, q)[k]) by {
            if k > 0 {
                assert(s.subrange(p, q)[k] == s.subrange(p + 1, q)[k - 1]);
            }
        }
    } else {
        assert forall|k: int| 0 <= k < 0 implies is_digit(#[trigger] s.subrange(p, p)[k]) by {}
    }
}

/// A run of digits ends where the run from any later digit position ends.
pub proof fn lemma_digit_end_from(s: Seq<char>, p: int, i: int)
    requires
        0 <= p <= i <= s.len(),
        forall|k: int| p <= k < i ==> is_digit(s[k]),
    ensures
        digit_end(s, p) == digit_end(s, i),
    decreases i - p,
{
    if p < i {
        lemma_digit_end_from(s, p + 1, i);
    }
}

pub proof fn lemma_word_end(s: Seq<char>, p: int)
    requires
        0 <= p <= s.len(),
    ensures
        p <= word_end(s, p) <= s.len(),
        word_end(s, p) == s.len() || !is_word_char(s[word_end(s, p)]),
    decreases s.len() - p,
{
    if p < s.len() && is_word_char(s[p]) {
        lemma_word_end(s, p + 1);
    }
}

pub proof fn lemma_word_end_from(s: Seq<char>, p: int, i: int)
    requires
        0 <= p <= i <= s.len(),
        forall|k: int| p <= k < i ==> is_word_char(s[k]),
    ensures
        word_end(s, p) == word_end(s, i),
    decreases i - p,
{
    if p < i {
        lemma_word_end_from(s, p + 1, i);
    }
}

pub proof fn lemma_skip_ws_from(s: Seq<char>, p: int, i: int)
    requires
        0 <= p <= i <= s.len(),
        forall|k: int| p <= k < i ==> is_ws(s[k]),
    ensures
        skip_ws(s, p) == skip_ws(s, i),
    decreases i - p,
{
    if p < i {
        lemma_skip_ws_from(s, p + 1, i);
    }
}

/// Scaling by one more fractional digit never lowers the value.
pub proof fn lemma_scaled_monotone(w: nat, f: Seq<char>, k: int)
    requires
        0 <= k <= f.len(),
    ensures
        scaled(w, f.subrange(0, k)) <= scaled(w, f),
        pow10(k as nat) <= pow10(f.len()),
    decreases f.len(),
{
    if k < f.len() {
        assert(f.drop_last() =~= f.subrange(0, f.len() - 1));
        lemma_scaled_monotone(w, f.drop_last(), k);
        assert(f.drop_last().subrange(0, k) =~= f.subrange(0, k));
    } else {
        assert(f.subrange(0, k) =~= f);
    }
}

pub open spec fn agrees<T>(r: Result<T, String>, pos: int, spec: Parsed<T>) -> bool {
    match r {
        Ok(v) => spec == Ok::<(T, int), Seq<char>>((v, pos)),
        Err(e) => spec == Err::<(T, int), Seq<char>>(e@),
    }
}

pub open spec fn agrees_atom(r: Result<Atom, String>, pos: int, spec: Parsed<AtomV>) -> bool {
    match r {
        Ok(v) => spec == Ok::<(AtomV, int), Seq<char>>((atom_view(v), pos)),
        Err(e) => spec == Err::<(AtomV, int), Seq<char>>(e@),
    }
}

pub open spec fn agrees_step(r: Result<Step, String>, pos: int, spec: Parsed<StepV>) -> bool {
    match r {
        Ok(v) => spec == Ok::<(StepV, int), Seq<char>>((step_view(v), pos)),
        Err(e) => spec == Err::<(StepV, int), Seq<char>>(e@),
    }
}

pub open spec fn agrees_seq(r: Result<Vec<Step>, String>, pos: int, spec: Parsed<Seq<StepV>>) -> bool {
    match r {
        Ok(v) => spec == Ok::<(Seq<StepV>, int), Seq<char>>((seq_view(v@), pos)),
        Err(e) => spec == Err::<(Seq<StepV>, int), Seq<char>>(e@),
    }
}

pub open spec fn agrees_stack(
    r: Result<Vec<Vec<Step>>, String>,
    pos: int,
    spec: Parsed<Seq<Seq<StepV>>>,
) -> bool {
    match r {
        Ok(v) => spec == Ok::<(Seq<Seq<StepV>>, int), Seq<char>>((stack_view(v@), pos)),
        Err(e) => spec == Err::<(Seq<Seq<StepV>>, int), Seq<char>>(e@),
    }
}

/// The reader: the text, its characters, and the position of the next character.
pub struct Parser<'a> {
    pub text: &'a str,
    pub src: Vec<char>,
    pub pos: usize,
}

fn is_digit_char(c: char) -> (r: bool)
    ensures
        r == is_digit(c),
{
    '0' <= c && c <= '9'
}

fn is_ws_char(c: char) -> (r: bool)
    ensures
        r == is_ws(c),
{
    c == ' ' || c == '\t' || c == '\n' || c == '\u{c}' || c == '\r'
}

fn is_word_char_exec(c: char) -> (r: bool)
    ensures
        r == is_word_char(c),
{
    ('a' <= c && c <= 'z') || is_digit_char(c) || c == '_'
}

fn ends_step_char(c: Option<char>) -> (r: bool)
    ensures
        r == ends_step(c),
{
    match c {
        None => true,
        Some(c) => c == ']' || c == '>' || c == '}' || c == ',' || is_ws_char(c),
    }
}

fn ends_token_char(c: Option<char>) -> (r: bool)
    ensures
        r == ends_token(c),
{
    match c {
        Some(x) => x == '*' || x == '@' || x == '?' || x == '(' || ends_step_char(c),
        None => true,
    }
}

impl<'a> Parser<'a> {
    pub open spec fn wf(&self) -> bool {
        &&& self.src@ == self.text@
        &&& self.pos <= self.src@.len()
    }

    pub fn new(text: &'a str) -> (p: Parser<'a>)
        ensures
            p.wf(),
            p.text == text,
            p.pos == 0,
    {
        Parser { text, src: crate::text::chars_of(text), pos: 0 }
    }

    fn peek(&self) -> (c: Option<char>)
        requires
            self.wf(),
        ensures
            c == peek(self.src@, self.pos as int),
    {
        if self.pos < self.src.len() {
            Some(self.src[self.pos])
        } else {
            None
        }
    }

    fn skip_ws(&mut self)
        requires
            old(self).wf(),
        ensures
            final(self).wf(),
            final(self).text == old(self).text,
            final(self).src@ == old(self).src@,
            final(self).pos == skip_ws(old(self).src@, old(self).pos as int),
    {
        let ghost p0 = self.pos as int;
        while self.pos < self.src.len() && is_ws_char(self.src[self.pos])
            invariant
                self.wf(),
                self.text == old(self).text,
                self.src@ == old(self).src@,
                p0 <= self.pos,
                forall|k: int| p0 <= k < self.pos ==> is_ws(self.src@[k]),
            decreases self.src@.len() - self.pos,
        {
            self.pos += 1;
        }
        proof {
            lemma_skip_ws_from(self.src@, p0, self.pos as int);
        }
    }

    fn here(&self) -> (h: String)
        requires
            self.wf(),
        ensures
            h@ == here(self.src@, self.pos as int),
    {
        if self.pos < self.src.len() {
            quoted_char(self.src[self.pos])
        } else {
            String::from_str("end of pattern")
        }
    }

    /// `at byte <pos>: <what>`.
    fn fail(&self, what: &str) -> (e: String)
        ensures
            e@ == fail_at(self.pos as int, what@),
    {
        fail_at_pos(self.pos, what)
    }

    /// `<what><here>` at the current position.
    fn fail_found(&self, what: &str) -> (e: String)
        requires
            self.wf(),
        ensures
            e@ == fail_at(self.pos as int, what@ + here(self.src@, self.pos as int)),
    {
        let mut w = String::from_str(what);
        let h = self.here();
        w.append(h.as_str());
        fail_at_pos(self.pos, w.as_str())
    }

    fn integer(&mut self) -> (r: Result<u64, String>)
        requires
            old(self).wf(),
        ensures
            final(self).wf(),
            final(self).text == old(self).text,
            final(self).src@ == old(self).src@,
            agrees(r, final(self).pos as int, integer(old(self).src@, old(self).pos as int)),
            r is Ok ==> final(self).pos > old(self).pos,
    {
        let ghost s = self.src@;
        let start = self.pos;
        let mut value: u64 = 0;
        proof {
            lemma_digit_end(s, start as int);
        }
        while self.pos < self.src.len() && is_digit_char(self.src[self.pos])
            invariant
                self.wf(),
                self.text == old(self).text,
                self.src@ == s,
                s == old(self).src@,
                start == old(self).pos,
                start <= self.pos,
                forall|k: int| start <= k < self.pos ==> is_digit(s[k]),
                all_digits(s.subrange(start as int, self.pos as int)),
                value as nat == digits_value(s.subrange(start as int, self.pos as int)),
                start <= digit_end(s, start as int) <= s.len(),
                all_digits(s.subrange(start as int, digit_end(s, start as int))),
            decreases self.src@.len() - self.pos,
        {
            let c = self.src[self.pos];
            let d = (c as u32 - '0' as u32) as u64;
            let ghost pre = s.subrange(start as int, self.pos as int);
            let ghost next = s.subrange(start as int, self.pos + 1);
            proof {
                assert(next.drop_last() =~= pre);
                assert(next.last() == c);
                lemma_digit_end_from(s, start as int, self.pos + 1);
                lemma_digit_end(s, self.pos + 1);
            }
            if value > (u64::MAX - d) / 10 {
                proof {
                    let q = digit_end(s, start as int);
                    let full = s.subrange(start as int, q);
                    lemma_digits_monotone(full, self.pos + 1 - start);
                    assert(full.subrange(0, self.pos + 1 - start) =~= next);
                }
                return Err(fail_at_pos(start, "whole number is too large"));
            }
            value = value * 10 + d;
            self.pos += 1;
            proof {
                assert(all_digits(s.subrange(start as int, self.pos as int))) by {
                    assert forall|k: int| 0 <= k < self.pos - start implies is_digit(#[trigger] s.subrange(start as int, self.pos as int)[k]) by {
                        assert(s.subrange(start as int, self.pos as int)[k] == s[start + k]);
                    }
                }
            }
        }
        proof {
            lemma_digit_end_from(s, start as int, self.pos as int);
        }
        if self.pos == start {
            return Err(self.fail_found("expected a whole number, found "));
        }
        Ok(value)
    }

    fn expect(&mut self, b: char) -> (r: Result<(), String>)
        requires
            old(self).wf(),
        ensures
            final(self).wf(),
            final(self).text == old(self).text,
            final(self).src@ == old(self).src@,
            match r {
                Ok(_) => expect(old(self).src@, old(self).pos as int, b) == Ok::<int, Seq<char>>(
                    final(self).pos as int,
                ),
                Err(e) => expect(old(self).src@, old(self).pos as int, b) == Err::<int, Seq<char>>(e@),
            },
            r is Ok ==> final(self).pos > old(self).pos,
    {
        self.skip_ws();
        proof {
            lemma_skip_ws(self.src@, old(self).pos as int);
        }
        if self.pos < self.src.len() && self.src[self.pos] == b {
            self.pos += 1;
            return Ok(());
        }
        let mut w = String::from_str("expected ");
        let q = quoted_char(b);
        w.append(q.as_str());
        w.append(", found ");
        let h = self.here();
        w.append(h.as_str());
        proof {
            assert(w@ =~= "expected "@ + crate::text::debug_char(b) + ", found "@ + here(
                self.src@,
                self.pos as int,
            ));
        }
        Err(fail_at_pos(self.pos, w.as_str()))
    }
}

impl<'a> Parser<'a> {
    fn weight(&mut self) -> (r: Result<Ratio, String>)
        requires
            old(self).wf(),
        ensures
            final(self).wf(),
            final(self).text == old(self).text,
            final(self).src@ == old(self).src@,
            agrees(r, final(self).pos as int, weight(old(self).src@, old(self).pos as int)),
            r is Ok ==> final(self).pos > old(self).pos,
    {
        let ghost s = self.src@;
        let start = self.pos;
        let whole = match self.integer() {
            Ok(w) => w,
            Err(e) => return Err(e),
        };
        let ghost p1 = self.pos as int;
        let mut num: u128 = whole as u128;
        let mut den: u128 = 1;
        if self.pos < self.src.len() && self.src[self.pos] == '.' {
            self.pos += 1;
            let digits = self.pos;
            proof {
                lemma_digit_end(s, digits as int);
            }
            while self.pos < self.src.len() && is_digit_char(self.src[self.pos])
                invariant
                    self.wf(),
                    self.text == old(self).text,
                    self.src@ == s,
                    s == old(self).src@,
                    integer(s, start as int) == Ok::<(u64, int), Seq<char>>((whole, p1)),
                    peek(s, p1) == Some('.'),
                    den >= 1,
                    digits as int == p1 + 1,
                    p1 < s.len(),
                    digits <= self.pos,
                    forall|k: int| digits <= k < self.pos ==> is_digit(s[k]),
                    num as nat == scaled(whole as nat, s.subrange(digits as int, self.pos as int)),
                    den as nat == pow10((self.pos - digits) as nat),
                    digits <= digit_end(s, digits as int) <= s.len(),
                    start == old(self).pos,
                decreases self.src@.len() - self.pos,
            {
                let c = self.src[self.pos];
                let d = (c as u32 - '0' as u32) as u128;
                let ghost pre = s.subrange(digits as int, self.pos as int);
                let ghost next = s.subrange(digits as int, self.pos + 1);
                proof {
                    assert(next.drop_last() =~= pre);
                    lemma_digit_end_from(s, digits as int, self.pos + 1);
                    lemma_digit_end(s, self.pos + 1);
                }
                if num > (u128::MAX - d) / 10 || den > u128::MAX / 10 {
                    proof {
                        let q = digit_end(s, digits as int);
                        let f = s.subrange(digits as int, q);
                        lemma_scaled_monotone(whole as nat, f, self.pos + 1 - digits);
                        assert(f.subrange(0, self.pos + 1 - digits) =~= next);
                        assert(pow10((self.pos + 1 - digits) as nat) == 10 * pow10((self.pos - digits) as nat));
                    }
                    return Err(fail_at_pos(start, "weight has too many digits"));
                }
                num = num * 10 + d;
                den = den * 10;
                self.pos += 1;
            }
            proof {
                lemma_digit_end_from(s, digits as int, self.pos as int);
            }
            if self.pos == digits {
                return Err(self.fail("expected digits after '.'"));
            }
        }
        if num == 0 {
            return Err(fail_at_pos(start, "weight must be positive"));
        }
        if num > u64::MAX as u128 || den > u64::MAX as u128 {
            return Err(fail_at_pos(start, "weight is too large"));
        }
        proof {
            lemma_gcd_divides(num as nat, den as nat);
            lemma_div_le(num as nat, divisor(num as nat, den as nat));
            lemma_div_le(den as nat, divisor(num as nat, den as nat));
        }
        Ok(Ratio::reduce(num, den))
    }

    fn euclid(&mut self) -> (r: Result<Euclid, String>)
        requires
            old(self).wf(),
        ensures
            final(self).wf(),
            final(self).text == old(self).text,
            final(self).src@ == old(self).src@,
            agrees(r, final(self).pos as int, euclid(old(self).src@, old(self).pos as int)),
            r is Ok ==> final(self).pos > old(self).pos,
    {
        let ghost s = self.src@;
        let ghost p0 = self.pos as int;
        self.skip_ws();
        proof {
            lemma_skip_ws(s, p0);
        }
        let pulses = match self.integer() {
            Ok(v) => v,
            Err(e) => return Err(e),
        };
        match self.expect(',') {
            Ok(()) => {},
            Err(e) => return Err(e),
        }
        let ghost p3 = self.pos as int;
        self.skip_ws();
        proof {
            lemma_skip_ws(s, p3);
        }
        let steps = match self.integer() {
            Ok(v) => v,
            Err(e) => return Err(e),
        };
        let ghost p5 = self.pos as int;
        self.skip_ws();
        proof {
            lemma_skip_ws(s, p5);
        }
        let ghost p6 = self.pos as int;
        let rotate = if self.pos < self.src.len() && self.src[self.pos] == ',' {
            self.pos += 1;
            let ghost p7 = self.pos as int;
            self.skip_ws();
            proof {
                lemma_skip_ws(s, p7);
            }
            match self.integer() {
                Ok(v) => v,
                Err(e) => return Err(e),
            }
        } else {
            0
        };
        proof {
            assert(euclid_rotation(s, p6) == Ok::<(u64, int), Seq<char>>((rotate, self.pos as int)));
        }
        match self.expect(')') {
            Ok(()) => {},
            Err(e) => return Err(e),
        }
        if pulses == 0 || steps == 0 || steps > MAX_STEPS || pulses > steps {
            return Err(self.fail("expected euclid 1 <= pulses <= steps <= 1024"));
        }
        if rotate > MAX_STEPS {
            return Err(self.fail("expected euclid rotation 0..=1024"));
        }
        Ok(Euclid { pulses, steps, rotate: rotate as i64 })
    }

    fn note_at(&self) -> (r: Option<(usize, i64)>)
        requires
            self.wf(),
        ensures
            match r {
                Some((end, midi)) => note_at(self.src@, self.pos as int) == Some((end as int, midi as int))
                    && self.pos < end <= self.src@.len(),
                None => note_at(self.src@, self.pos as int) is None,
            },
    {
        let n = self.src.len();
        let p = self.pos;
        if p >= n {
            return None;
        }
        let letter = self.src[p];
        let mut pc: i64 = if letter == 'c' { 0 } else if letter == 'd' { 2 } else if letter == 'e' { 4 }
            else if letter == 'f' { 5 } else if letter == 'g' { 7 } else if letter == 'a' { 9 }
            else if letter == 'b' { 11 } else { return None; };
        let mut i = p + 1;
        if i < n && self.src[i] == '#' {
            pc += 1;
            i += 1;
        } else if i < n && self.src[i] == 'b' {
            pc -= 1;
            i += 1;
        }
        let negative = i < n && self.src[i] == '-';
        if negative {
            i += 1;
        }
        if i >= n {
            return None;
        }
        let digit = self.src[i];
        if !is_digit_char(digit) {
            return None;
        }
        let next = if i + 1 < n { Some(self.src[i + 1]) } else { None };
        if !ends_token_char(next) {
            return None;
        }
        let value = (digit as u32 - '0' as u32) as i64;
        let octave = if negative { -value } else { value };
        Some((i + 1, (octave + 2) * 12 + pc))
    }

    fn word(&mut self) -> (r: Result<Atom, String>)
        requires
            old(self).wf(),
            old(self).pos < old(self).src@.len(),
            starts_word(old(self).src@[old(self).pos as int]),
        ensures
            final(self).wf(),
            final(self).text == old(self).text,
            final(self).src@ == old(self).src@,
            agrees_atom(r, final(self).pos as int, word(old(self).src@, old(self).pos as int)),
            r is Ok ==> final(self).pos > old(self).pos,
    {
        let ghost s = self.src@;
        let start = self.pos;
        if let Some((end, midi)) = self.note_at() {
            if midi < 0 || midi > 127 {
                let mut w = String::from_str("note ");
                w.append(self.text.substring_char(start, end));
                w.append(" is outside MIDI 0..=127");
                proof {
                    assert(w@ =~= "note "@ + s.subrange(start as int, end as int) + " is outside MIDI 0..=127"@);
                }
                return Err(self.fail(w.as_str()));
            }
            let name = self.text.substring_char(start, end).to_owned();
            self.pos = end;
            return Ok(Atom::Token(Token::Note { name, midi: midi as u8 }));
        }
        proof {
            lemma_word_end(s, start as int);
        }
        while self.pos < self.src.len() && is_word_char_exec(self.src[self.pos])
            invariant
                self.wf(),
                self.text == old(self).text,
                self.src@ == s,
                start <= self.pos,
                forall|k: int| start <= k < self.pos ==> is_word_char(s[k]),
            decreases self.src@.len() - self.pos,
        {
            self.pos += 1;
        }
        proof {
            lemma_word_end_from(s, start as int, self.pos as int);
            assert(is_word_char(s[start as int]));
        }
        let w = self.text.substring_char(start, self.pos);
        proof {
            reveal_strlit("x");
        }
        if self.pos == start + 1 && self.src[start] == 'x' {
            proof {
                assert(w@ =~= "x"@);
            }
            return Ok(Atom::Token(Token::Hit));
        }
        proof {
            if w@ == "x"@ {
                assert(w@.len() == 1);
                assert(w@[0] == 'x');
            }
        }
        let mut all = true;
        let mut k = start;
        while k < self.pos
            invariant
                start <= k <= self.pos <= self.src@.len(),
                self.src@ == s,
                all == (forall|j: int| start <= j < k ==> s[j] == '_'),
            decreases self.pos - k,
        {
            if self.src[k] != '_' {
                all = false;
            }
            k += 1;
        }
        proof {
            if all {
                assert(all_underscores(w@)) by {
                    assert forall|j: int| 0 <= j < w@.len() implies w@[j] == '_' by {
                        assert(w@[j] == s[start + j]);
                    }
                }
            } else {
                let j = choose|j: int| start <= j < self.pos && s[j] != '_';
                assert(w@[j - start] == s[j]);
            }
        }
        if all {
            return Err(fail_at_pos(start, "'_' is not a token (elongate is not in this grammar)"));
        }
        Ok(Atom::Token(Token::Name(w.to_owned())))
    }

    fn number(&mut self) -> (r: Result<Atom, String>)
        requires
            old(self).wf(),
        ensures
            final(self).wf(),
            final(self).text == old(self).text,
            final(self).src@ == old(self).src@,
            agrees_atom(r, final(self).pos as int, number(old(self).src@, old(self).pos as int)),
            r is Ok ==> final(self).pos > old(self).pos,
    {
        let ghost s = self.src@;
        let start = self.pos;
        if self.pos < self.src.len() && self.src[self.pos] == '-' {
            self.pos += 1;
        }
        let digits = self.pos;
        proof {
            lemma_digit_end(s, digits as int);
        }
        while self.pos < self.src.len() && is_digit_char(self.src[self.pos])
            invariant
                self.wf(),
                self.text == old(self).text,
                self.src@ == s,
                digits <= self.pos,
                forall|k: int| digits <= k < self.pos ==> is_digit(s[k]),
            decreases self.src@.len() - self.pos,
        {
            self.pos += 1;
        }
        proof {
            lemma_digit_end_from(s, digits as int, self.pos as int);
        }
        if self.pos == digits {
            return Err(self.fail("expected digits"));
        }
        let whole_end = self.pos;
        proof {
            lemma_digit_end(s, digits as int);
        }
        if self.pos < self.src.len() && self.src[self.pos] == '.' {
            self.pos += 1;
            let frac = self.pos;
            while self.pos < self.src.len() && is_digit_char(self.src[self.pos])
                invariant
                    self.wf(),
                    self.text == old(self).text,
                    self.src@ == s,
                    frac <= self.pos,
                    forall|k: int| frac <= k < self.pos ==> is_digit(s[k]),
                decreases self.src@.len() - self.pos,
            {
                self.pos += 1;
            }
            proof {
                lemma_digit_end_from(s, frac as int, self.pos as int);
                lemma_digit_end(s, frac as int);
            }
            if self.pos == frac {
                return Err(self.fail("expected digits after '.'"));
            }
        }
        let text = self.text.substring_char(start, self.pos);
        if !finite_digits(&self.src, digits, whole_end) {
            let mut w = text.to_owned();
            w.append(" is not a finite number");
            return Err(fail_at_pos(start, w.as_str()));
        }
        Ok(Atom::Token(Token::Number(text.to_owned())))
    }

    fn modifiers(&mut self, st: Step) -> (r: Result<Step, String>)
        requires
            old(self).wf(),
        ensures
            final(self).wf(),
            final(self).text == old(self).text,
            final(self).src@ == old(self).src@,
            agrees_step(r, final(self).pos as int, modifiers(old(self).src@, old(self).pos as int, step_view(st))),
            r is Ok ==> final(self).pos >= old(self).pos,
        decreases old(self).src@.len() - old(self).pos,
    {
        let ghost s = self.src@;
        let ghost p = self.pos as int;
        if self.pos >= self.src.len() {
            return Ok(st);
        }
        let c = self.src[self.pos];
        if c == '*' {
            if st.ratchet.is_some() {
                return Err(self.fail("'*' already given on this step"));
            }
            self.pos += 1;
            let n = match self.integer() {
                Ok(n) => n,
                Err(e) => return Err(e),
            };
            if !(2 <= n && n <= 8) {
                return Err(self.fail("expected a ratchet count 2..=8"));
            }
            let next = Step { ratchet: Some(n as u8), ..st };
            proof {
                assert(step_view(next) == (StepV { ratchet: Some(n as u8), ..step_view(st) }));
            }
            self.modifiers(next)
        } else if c == '@' {
            if st.weight.is_some() {
                return Err(self.fail("'@' already given on this step"));
            }
            self.pos += 1;
            let w = match self.weight() {
                Ok(w) => w,
                Err(e) => return Err(e),
            };
            let next = Step { weight: Some(w), ..st };
            proof {
                assert(step_view(next) == (StepV { weight: Some(w), ..step_view(st) }));
            }
            self.modifiers(next)
        } else if c == '?' {
            if st.draw {
                return Err(self.fail("'?' already given on this step"));
            }
            self.pos += 1;
            let next = Step { draw: true, ..st };
            proof {
                assert(step_view(next) == (StepV { draw: true, ..step_view(st) }));
            }
            self.modifiers(next)
        } else if c == '(' {
            if st.euclid.is_some() {
                return Err(self.fail("euclid already given on this step"));
            }
            self.pos += 1;
            let e = match self.euclid() {
                Ok(e) => e,
                Err(e) => return Err(e),
            };
            let next = Step { euclid: Some(e), ..st };
            proof {
                assert(step_view(next) == (StepV { euclid: Some(e), ..step_view(st) }));
            }
            self.modifiers(next)
        } else {
            Ok(st)
        }
    }
}

impl<'a> Parser<'a> {
    /// A stack: one or more comma-separated sequences over the same span.
    fn stack(&mut self, depth: u64) -> (r: Result<Vec<Vec<Step>>, String>)
        requires
            old(self).wf(),
            depth <= MAX_DEPTH,
        ensures
            final(self).wf(),
            final(self).text == old(self).text,
            final(self).src@ == old(self).src@,
            agrees_stack(r, final(self).pos as int, stack(old(self).src@, old(self).pos as int, depth as nat)),
            r is Ok ==> final(self).pos > old(self).pos,
        decreases MAX_DEPTH - depth, 4int,
    {
        let ghost s = self.src@;
        let ghost p0 = self.pos as int;
        let first = match self.sequence(depth) {
            Ok(v) => v,
            Err(e) => return Err(e),
        };
        let mut seqs: Vec<Vec<Step>> = Vec::new();
        seqs.push(first);
        proof {
            assert(stack_view(seqs@) =~= seq![seq_view(first@)]);
        }
        loop
            invariant
                self.wf(),
                self.text == old(self).text,
                self.src@ == s,
                s == old(self).src@,
                p0 == old(self).pos,
                p0 < self.pos,
                depth <= MAX_DEPTH,
                stack_more(s, self.pos as int, depth as nat, stack_view(seqs@)) == stack(s, p0, depth as nat),
            decreases self.src@.len() - self.pos,
        {
            let ghost p = self.pos as int;
            self.skip_ws();
            proof {
                lemma_skip_ws(s, p);
            }
            if !(self.pos < self.src.len() && self.src[self.pos] == ',') {
                return Ok(seqs);
            }
            self.pos += 1;
            let next = match self.sequence(depth) {
                Ok(v) => v,
                Err(e) => return Err(e),
            };
            proof {
                assert(stack_view(seqs@.push(next)) =~= stack_view(seqs@).push(seq_view(next@)));
            }
            seqs.push(next);
        }
    }

    /// A sequence: one or more steps separated by whitespace.
    fn sequence(&mut self, depth: u64) -> (r: Result<Vec<Step>, String>)
        requires
            old(self).wf(),
            depth <= MAX_DEPTH,
        ensures
            final(self).wf(),
            final(self).text == old(self).text,
            final(self).src@ == old(self).src@,
            agrees_seq(r, final(self).pos as int, sequence(old(self).src@, old(self).pos as int, depth as nat)),
            r is Ok ==> final(self).pos > old(self).pos,
        decreases MAX_DEPTH - depth, 3int,
    {
        let ghost s = self.src@;
        let ghost p0 = self.pos as int;
        let mut steps: Vec<Step> = Vec::new();
        proof {
            assert(seq_view(steps@) =~= Seq::<StepV>::empty());
        }
        loop
            invariant
                self.wf(),
                self.text == old(self).text,
                self.src@ == s,
                s == old(self).src@,
                p0 == old(self).pos,
                p0 <= self.pos,
                steps@.len() > 0 ==> p0 < self.pos,
                depth <= MAX_DEPTH,
                sequence_more(s, self.pos as int, depth as nat, seq_view(steps@)) == sequence(s, p0, depth as nat),
            decreases self.src@.len() - self.pos,
        {
            let ghost p = self.pos as int;
            self.skip_ws();
            proof {
                lemma_skip_ws(s, p);
            }
            let closes = if self.pos < self.src.len() {
                let c = self.src[self.pos];
                c == ']' || c == '>' || c == '}' || c == ','
            } else {
                true
            };
            if closes {
                if steps.len() == 0 {
                    return Err(self.fail_found("expected a step, found "));
                }
                return Ok(steps);
            }
            let st = match self.step(depth) {
                Ok(st) => st,
                Err(e) => return Err(e),
            };
            proof {
                assert(seq_view(steps@.push(st)) =~= seq_view(steps@).push(step_view(st)));
            }
            steps.push(st);
        }
    }

    /// A step: an atom, its modifiers, and then the end of the step.
    fn step(&mut self, depth: u64) -> (r: Result<Step, String>)
        requires
            old(self).wf(),
            depth <= MAX_DEPTH,
        ensures
            final(self).wf(),
            final(self).text == old(self).text,
            final(self).src@ == old(self).src@,
            agrees_step(r, final(self).pos as int, step(old(self).src@, old(self).pos as int, depth as nat)),
            r is Ok ==> final(self).pos > old(self).pos,
        decreases MAX_DEPTH - depth, 2int,
    {
        let a = match self.atom(depth) {
            Ok(a) => a,
            Err(e) => return Err(e),
        };
        let bare = Step { atom: a, weight: None, ratchet: None, draw: false, euclid: None };
        proof {
            assert(step_view(bare) == bare_step(atom_view(a)));
        }
        let st = match self.modifiers(bare) {
            Ok(st) => st,
            Err(e) => return Err(e),
        };
        let next = if self.pos < self.src.len() { Some(self.src[self.pos]) } else { None };
        if !ends_step_char(next) {
            return Err(self.fail_found("expected whitespace between steps, found "));
        }
        Ok(st)
    }

    /// A rest, a group, an alternation, a polymeter, a number or a word.
    fn atom(&mut self, depth: u64) -> (r: Result<Atom, String>)
        requires
            old(self).wf(),
            depth <= MAX_DEPTH,
        ensures
            final(self).wf(),
            final(self).text == old(self).text,
            final(self).src@ == old(self).src@,
            agrees_atom(r, final(self).pos as int, atom(old(self).src@, old(self).pos as int, depth as nat)),
            r is Ok ==> final(self).pos > old(self).pos,
        decreases MAX_DEPTH - depth, 1int,
    {
        if self.pos >= self.src.len() {
            return Err(self.fail("expected a step, found end of pattern"));
        }
        let c = self.src[self.pos];
        if c == '~' {
            self.pos += 1;
            return Ok(Atom::Rest);
        }
        if c == '[' || c == '<' || c == '{' {
            if depth + 1 > MAX_DEPTH {
                return Err(self.fail("nesting deeper than 8 levels"));
            }
            return self.group(depth);
        }
        if c == '-' || is_digit_char(c) {
            return self.number();
        }
        if ('a' <= c && c <= 'z') || c == '_' {
            return self.word();
        }
        Err(self.fail_found("unexpected "))
    }

    /// `[ ]`, `< >` or `{ }%n`, one level deeper.
    fn group(&mut self, depth: u64) -> (r: Result<Atom, String>)
        requires
            old(self).wf(),
            depth + 1 <= MAX_DEPTH,
            old(self).pos < old(self).src@.len(),
            old(self).src@[old(self).pos as int] == '[' || old(self).src@[old(self).pos as int] == '<'
                || old(self).src@[old(self).pos as int] == '{',
        ensures
            final(self).wf(),
            final(self).text == old(self).text,
            final(self).src@ == old(self).src@,
            agrees_atom(r, final(self).pos as int, atom(old(self).src@, old(self).pos as int, depth as nat)),
            r is Ok ==> final(self).pos > old(self).pos,
        decreases MAX_DEPTH - depth, 0int,
    {
        let c = self.src[self.pos];
        let n = self.src.len();
        assert(self.pos < n);
        self.pos += 1;
        if c == '[' {
            let inner = match self.stack(depth + 1) {
                Ok(v) => v,
                Err(e) => return Err(e),
            };
            match self.expect(']') {
                Ok(()) => {},
                Err(e) => return Err(e),
            }
            proof {
                lemma_stack_view(inner);
            }
            Ok(Atom::Stack(inner))
        } else if c == '<' {
            let inner = match self.sequence(depth + 1) {
                Ok(v) => v,
                Err(e) => return Err(e),
            };
            match self.expect('>') {
                Ok(()) => {},
                Err(e) => return Err(e),
            }
            proof {
                lemma_alt_view(inner);
            }
            Ok(Atom::Alt(inner))
        } else {
            let inner = match self.sequence(depth + 1) {
                Ok(v) => v,
                Err(e) => return Err(e),
            };
            match self.expect('}') {
                Ok(()) => {},
                Err(e) => return Err(e),
            }
            match self.expect('%') {
                Ok(()) => {},
                Err(e) => return Err(e),
            }
            let n = match self.integer() {
                Ok(n) => n,
                Err(e) => return Err(e),
            };
            if n == 0 || n > MAX_STEPS {
                return Err(self.fail("expected a '%' step count 1..=1024"));
            }
            proof {
                lemma_poly_view(inner, n);
            }
            Ok(Atom::Poly { steps: inner, per_cycle: n })
        }
    }
}

impl<'a> Parser<'a> {
    /// The whole stack at depth zero.
    pub fn parse_stack(&mut self) -> (r: Result<Vec<Vec<Step>>, String>)
        requires
            old(self).wf(),
        ensures
            final(self).wf(),
            final(self).text == old(self).text,
            final(self).src@ == old(self).src@,
            agrees_stack(r, final(self).pos as int, stack(old(self).src@, old(self).pos as int, 0)),
    {
        self.stack(0)
    }

    pub fn skip_whitespace(&mut self)
        requires
            old(self).wf(),
        ensures
            final(self).wf(),
            final(self).text == old(self).text,
            final(self).src@ == old(self).src@,
            final(self).pos == skip_ws(old(self).src@, old(self).pos as int),
    {
        self.skip_ws()
    }

    /// `unexpected <here>` at the current position.
    pub fn fail_unexpected(&self) -> (e: String)
        requires
            self.wf(),
        ensures
            e@ == fail_at(self.pos as int, "unexpected "@ + here(self.src@, self.pos as int)),
    {
        self.fail_found("unexpected ")
    }
}

/// `at byte <pos>: <what>`.
pub fn fail_at_pos(pos: usize, what: &str) -> (e: String)
    ensures
        e@ == fail_at(pos as int, what@),
{
    let mut e = String::from_str("at byte ");
    push_decimal(&mut e, pos as u128);
    e.append(": ");
    e.append(what);
    proof {
        assert(e@ =~= fail_at(pos as int, what@));
    }
    e
}

} // verus!
