//! The order gaps are listed in: by Part, then instrument, then the controls, each compared
//! as text is, character by character by code point, a prefix first; a gap is listed once.
use vstd::prelude::*;

use super::expansion::gap_view;
use super::library::{strings_view, Gap};
use crate::music::dependency::{id_less, ordered_from};
use crate::text::same_text;

verus! {

/// Whether text `a` comes before text `b`: at the first character where they differ, by code
/// point, or as a proper prefix.
pub open spec fn text_lt(a: Seq<char>, b: Seq<char>) -> bool {
    ordered_from(a, b, 0)
}

/// Lists of texts in lexicographic order, from index `i` on.
pub open spec fn list_from(a: Seq<Seq<char>>, b: Seq<Seq<char>>, i: int) -> bool
    decreases a.len() - i,
{
    if i < 0 || i >= a.len() || i >= b.len() {
        a.len() < b.len()
    } else if a[i] != b[i] {
        text_lt(a[i], b[i])
    } else {
        list_from(a, b, i + 1)
    }
}

/// A gap as values: the Part, the instrument, and the controls.
pub type GapKey = (Seq<char>, Seq<char>, Seq<Seq<char>>);

/// Whether gap `x` is listed before gap `y`.
pub open spec fn gap_lt(x: GapKey, y: GapKey) -> bool {
    if x.0 != y.0 {
        text_lt(x.0, y.0)
    } else if x.1 != y.1 {
        text_lt(x.1, y.1)
    } else {
        list_from(x.2, y.2, 0)
    }
}

proof fn lemma_text_irreflexive(a: Seq<char>, i: int)
    requires
        0 <= i,
    ensures
        !ordered_from(a, a, i),
    decreases a.len() - i,
{
    if i < a.len() {
        lemma_text_irreflexive(a, i + 1);
    }
}

/// Distinct characters have distinct code points.
proof fn lemma_char_code(c: char, d: char)
    requires
        c != d,
    ensures
        (c as u32) != (d as u32),
{
    assert((c as int) != (d as int));
    assert(0 <= (c as int) <= 0x10FFFF);
    assert((c as u32) == (c as int));
    assert((d as u32) == (d as int));
}

proof fn lemma_text_total(a: Seq<char>, b: Seq<char>, i: int)
    requires
        0 <= i <= a.len(),
        i <= b.len(),
        forall|j: int| 0 <= j < i ==> a[j] == b[j],
    ensures
        a != b ==> ordered_from(a, b, i) || ordered_from(b, a, i),
        ordered_from(a, b, i) ==> !ordered_from(b, a, i),
    decreases a.len() - i,
{
    if i < a.len() && i < b.len() {
        if a[i] == b[i] {
            lemma_text_total(a, b, i + 1);
        } else {
            lemma_char_code(a[i], b[i]);
        }
    } else if a.len() == b.len() {
        assert(a =~= b);
    }
}

proof fn lemma_text_trans(a: Seq<char>, b: Seq<char>, c: Seq<char>, i: int)
    requires
        0 <= i <= a.len(),
        i <= b.len(),
        i <= c.len(),
        forall|j: int| 0 <= j < i ==> a[j] == b[j] && b[j] == c[j],
    ensures
        ordered_from(a, b, i) && ordered_from(b, c, i) ==> ordered_from(a, c, i),
    decreases a.len() - i,
{
    if i < a.len() && i < b.len() && i < c.len() {
        if a[i] == b[i] && b[i] == c[i] {
            lemma_text_trans(a, b, c, i + 1);
        }
    }
}

/// Text order is a strict total order.
pub proof fn lemma_text_order(a: Seq<char>, b: Seq<char>, c: Seq<char>)
    ensures
        !text_lt(a, a),
        a != b ==> text_lt(a, b) || text_lt(b, a),
        text_lt(a, b) ==> !text_lt(b, a),
        text_lt(a, b) && text_lt(b, c) ==> text_lt(a, c),
{
    lemma_text_irreflexive(a, 0);
    lemma_text_total(a, b, 0);
    lemma_text_trans(a, b, c, 0);
}

proof fn lemma_list_order(a: Seq<Seq<char>>, b: Seq<Seq<char>>, c: Seq<Seq<char>>, i: int)
    requires
        0 <= i <= a.len(),
        i <= b.len(),
        i <= c.len(),
        forall|j: int| 0 <= j < i ==> a[j] == b[j] && b[j] == c[j],
    ensures
        !list_from(a, a, i),
        a != b ==> list_from(a, b, i) || list_from(b, a, i),
        list_from(a, b, i) ==> !list_from(b, a, i),
        list_from(a, b, i) && list_from(b, c, i) ==> list_from(a, c, i),
    decreases a.len() - i,
{
    if i < a.len() {
        lemma_text_order(a[i], b[i], c[i]);
        lemma_text_order(a[i], c[i], b[i]);
        lemma_text_order(b[i], a[i], c[i]);
        if i < b.len() && i < c.len() && a[i] == b[i] && b[i] == c[i] {
            lemma_list_order(a, b, c, i + 1);
        } else if i < b.len() && a[i] == b[i] {
            lemma_list_order(a, b, b, i + 1);
            lemma_list_order(a, a, a, i + 1);
        } else {
            lemma_list_order(a, a, a, i + 1);
        }
    } else if a.len() == b.len() {
        assert(a =~= b);
    }
}

/// Gap order is a strict total order.
pub proof fn lemma_gap_order(x: GapKey, y: GapKey, z: GapKey)
    ensures
        !gap_lt(x, x),
        x != y ==> gap_lt(x, y) || gap_lt(y, x),
        gap_lt(x, y) ==> !gap_lt(y, x),
        gap_lt(x, y) && gap_lt(y, z) ==> gap_lt(x, z),
{
    lemma_text_order(x.0, y.0, z.0);
    lemma_text_order(x.1, y.1, z.1);
    lemma_text_order(x.0, x.0, x.0);
    lemma_text_order(x.1, x.1, x.1);
    lemma_list_order(x.2, y.2, z.2, 0);
    lemma_list_order(x.2, x.2, x.2, 0);
}

/// Whether the gaps are listed in gap order, each once.
pub open spec fn gaps_ascending(s: Seq<GapKey>) -> bool {
    forall|i: int, j: int| 0 <= i < j < s.len() ==> gap_lt(#[trigger] s[i], #[trigger] s[j])
}

fn list_less(a: &Vec<String>, b: &Vec<String>) -> (r: bool)
    ensures
        r == list_from(strings_view(a@), strings_view(b@), 0),
{
    let ghost x = strings_view(a@);
    let ghost y = strings_view(b@);
    let mut i: usize = 0;
    while i < a.len() && i < b.len()
        invariant
            x == strings_view(a@),
            y == strings_view(b@),
            i <= a@.len(),
            i <= b@.len(),
            list_from(x, y, 0) == list_from(x, y, i as int),
        decreases a@.len() - i,
    {
        if !same_text(a[i].as_str(), b[i].as_str()) {
            return id_less(a[i].as_str(), b[i].as_str());
        }
        i += 1;
    }
    a.len() < b.len()
}

fn gap_less(a: &Gap, b: &Gap) -> (r: bool)
    ensures
        r == gap_lt(gap_view(*a), gap_view(*b)),
{
    if !same_text(a.part.as_str(), b.part.as_str()) {
        id_less(a.part.as_str(), b.part.as_str())
    } else if !same_text(a.instrument.as_str(), b.instrument.as_str()) {
        id_less(a.instrument.as_str(), b.instrument.as_str())
    } else {
        list_less(&a.controls, &b.controls)
    }
}

fn gap_same(a: &Gap, b: &Gap) -> (r: bool)
    ensures
        r == (gap_view(*a) == gap_view(*b)),
{
    if !same_text(a.part.as_str(), b.part.as_str()) || !same_text(a.instrument.as_str(), b.instrument.as_str()) {
        return false;
    }
    if a.controls.len() != b.controls.len() {
        proof {
            assert(strings_view(a.controls@).len() != strings_view(b.controls@).len());
        }
        return false;
    }
    let mut i: usize = 0;
    while i < a.controls.len()
        invariant
            i <= a.controls@.len(),
            a.controls@.len() == b.controls@.len(),
            forall|j: int| 0 <= j < i ==> a.controls@[j]@ == b.controls@[j]@,
        decreases a.controls@.len() - i,
    {
        if !same_text(a.controls[i].as_str(), b.controls[i].as_str()) {
            proof {
                assert(strings_view(a.controls@)[i as int] != strings_view(b.controls@)[i as int]);
            }
            return false;
        }
        i += 1;
    }
    proof {
        assert(strings_view(a.controls@) =~= strings_view(b.controls@));
    }
    true
}

/// The gaps of a list, as values.
pub open spec fn gap_keys(v: Seq<Gap>) -> Seq<GapKey> {
    Seq::new(v.len(), |i: int| gap_view(v[i]))
}

/// `g` put into its place among gaps in gap order, unless it is already there.
fn insert_gap(out: &mut Vec<Gap>, g: Gap)
    requires
        gaps_ascending(gap_keys(old(out)@)),
    ensures
        gaps_ascending(gap_keys(final(out)@)),
        gap_keys(final(out)@).to_set() == gap_keys(old(out)@).to_set().insert(gap_view(g)),
{
    let ghost k = gap_view(g);
    let mut p: usize = 0;
    while p < out.len() && gap_less(&out[p], &g)
        invariant
            p <= out@.len(),
            k == gap_view(g),
            forall|i: int| 0 <= i < p ==> gap_lt(#[trigger] gap_keys(out@)[i], k),
        decreases out@.len() - p,
    {
        p += 1;
    }
    let ghost before = gap_keys(out@);
    if p < out.len() && gap_same(&out[p], &g) {
        proof {
            assert(before[p as int] == k);
            assert(before.to_set().insert(k) =~= before.to_set());
        }
        return;
    }
    proof {
        if p < before.len() {
            lemma_gap_order(before[p as int], k, k);
            assert(gap_lt(k, before[p as int]));
            assert forall|j: int| p <= j < before.len() implies gap_lt(k, #[trigger] before[j]) by {
                if j > p {
                    lemma_gap_order(k, before[p as int], before[j]);
                }
            }
        }
    }
    out.insert(p, g);
    proof {
        let after = gap_keys(out@);
        assert(after =~= before.insert(p as int, k));
        assert forall|i: int, j: int| 0 <= i < j < after.len() implies gap_lt(#[trigger] after[i], #[trigger] after[j]) by {
            if j < p {
            } else if j == p {
            } else if i < p {
                lemma_gap_order(after[i], k, after[j]);
            } else if i == p {
            } else {
                assert(after[i] == before[i - 1] && after[j] == before[j - 1]);
            }
        }
        assert(after.to_set() =~= before.to_set().insert(k)) by {
            assert forall|x: GapKey| after.to_set().contains(x) <==> before.to_set().insert(k).contains(x) by {
                if after.to_set().contains(x) {
                    let i = choose|i: int| 0 <= i < after.len() && after[i] == x;
                    if i < p {
                        assert(before[i] == x);
                    } else if i > p {
                        assert(before[i - 1] == x);
                    }
                }
                if before.to_set().contains(x) {
                    let i = choose|i: int| 0 <= i < before.len() && before[i] == x;
                    if i < p {
                        assert(after[i] == x);
                    } else {
                        assert(after[i + 1] == x);
                    }
                }
                if x == k {
                    assert(after[p as int] == x);
                }
            }
        }
    }
}

/// The gaps in gap order, each listed once.
pub fn collect_gaps(gaps: Vec<Gap>) -> (r: Vec<Gap>)
    ensures
        gaps_ascending(gap_keys(r@)),
        gap_keys(r@).to_set() == gap_keys(gaps@).to_set(),
{
    let mut out: Vec<Gap> = Vec::new();
    let mut rest = gaps;
    let ghost all = gap_keys(rest@);
    let mut i: usize = 0;
    let n = rest.len();
    proof {
        assert(gap_keys(out@).to_set() =~= all.subrange(0, 0).to_set());
    }
    while rest.len() > 0
        invariant
            n == all.len(),
            i + rest@.len() == n,
            gap_keys(rest@) == all.subrange(i as int, n as int),
            gaps_ascending(gap_keys(out@)),
            gap_keys(out@).to_set() == all.subrange(0, i as int).to_set(),
        decreases rest@.len(),
    {
        let ghost before = gap_keys(rest@);
        let g = rest.remove(0);
        proof {
            assert(gap_view(g) == all[i as int]) by {
                assert(before[0] == all[i as int]);
            }
            assert(gap_keys(rest@) =~= all.subrange(i + 1, n as int)) by {
                assert forall|j: int| 0 <= j < rest@.len() implies gap_keys(rest@)[j] == all.subrange(i + 1, n as int)[j] by {
                    assert(before[j + 1] == all[i + 1 + j]);
                }
            }
            assert(all.subrange(0, i + 1) =~= all.subrange(0, i as int).push(all[i as int]));
            all.subrange(0, i as int).lemma_push_to_set_commute(all[i as int]);
        }
        insert_gap(&mut out, g);
        i += 1;
    }
    proof {
        assert(all.subrange(0, n as int) =~= all);
    }
    out
}

} // verus!
