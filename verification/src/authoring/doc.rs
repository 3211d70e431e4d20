//! An authored document as plain values: the tree a TOML file parses to, which authoring
//! normalizes and inherits through before anything is typed. A table keeps its entries in
//! order; a lookup finds a key's first entry.
use vstd::prelude::*;

use crate::text::same_text;

verus! {

/// One authored value.
#[derive(Debug)]
pub enum Doc {
    Str(String),
    Int(i64),
    /// A float, by its IEEE-754 bits.
    Float(u64),
    Bool(bool),
    /// A date or time, by its text.
    Time(String),
    Array(Vec<Doc>),
    Table(Vec<(String, Doc)>),
}

/// A document as mathematical values.
pub enum DocV {
    Str(Seq<char>),
    Int(i64),
    Float(u64),
    Bool(bool),
    Time(Seq<char>),
    Array(Seq<DocV>),
    Table(Seq<(Seq<char>, DocV)>),
}

pub open spec fn doc_view(d: Doc) -> DocV
    decreases d,
{
    match d {
        Doc::Str(s) => DocV::Str(s@),
        Doc::Int(i) => DocV::Int(i),
        Doc::Float(f) => DocV::Float(f),
        Doc::Bool(b) => DocV::Bool(b),
        Doc::Time(s) => DocV::Time(s@),
        Doc::Array(v) => DocV::Array(items_view(v@)),
        Doc::Table(v) => DocV::Table(entries_view(v@)),
    }
}

pub open spec fn items_view(s: Seq<Doc>) -> Seq<DocV>
    decreases s,
{
    if s.len() == 0 {
        Seq::empty()
    } else {
        items_view(s.subrange(0, s.len() - 1)).push(doc_view(s[s.len() - 1]))
    }
}

pub open spec fn entries_view(s: Seq<(String, Doc)>) -> Seq<(Seq<char>, DocV)>
    decreases s,
{
    if s.len() == 0 {
        Seq::empty()
    } else {
        entries_view(s.subrange(0, s.len() - 1)).push((s[s.len() - 1].0@, doc_view(s[s.len() - 1].1)))
    }
}

impl View for Doc {
    type V = DocV;

    open spec fn view(&self) -> DocV {
        doc_view(*self)
    }
}

/// The views of a sequence's items, one for one.
pub proof fn lemma_items_view(s: Seq<Doc>)
    ensures
        items_view(s).len() == s.len(),
        forall|i: int| 0 <= i < s.len() ==> #[trigger] items_view(s)[i] == doc_view(s[i]),
    decreases s.len(),
{
    if s.len() > 0 {
        let p = s.subrange(0, s.len() - 1);
        lemma_items_view(p);
        assert forall|i: int| 0 <= i < s.len() implies #[trigger] items_view(s)[i] == doc_view(s[i]) by {
            if i < s.len() - 1 {
                assert(p[i] == s[i]);
            }
        }
    }
}

/// The views of a table's entries, one for one.
pub proof fn lemma_entries_view(s: Seq<(String, Doc)>)
    ensures
        entries_view(s).len() == s.len(),
        forall|i: int| 0 <= i < s.len() ==> #[trigger] entries_view(s)[i] == (s[i].0@, doc_view(s[i].1)),
    decreases s.len(),
{
    if s.len() > 0 {
        let p = s.subrange(0, s.len() - 1);
        lemma_entries_view(p);
        assert forall|i: int| 0 <= i < s.len() implies #[trigger] entries_view(s)[i] == (s[i].0@, doc_view(s[i].1)) by {
            if i < s.len() - 1 {
                assert(p[i] == s[i]);
            }
        }
    }
}

/// Whether two documents hold the same values.
#[verifier::loop_isolation(false)]
pub fn same_doc(a: &Doc, b: &Doc) -> (r: bool)
    ensures
        r == (a@ == b@),
    decreases a,
{
    match (a, b) {
        (Doc::Str(x), Doc::Str(y)) => same_text(x.as_str(), y.as_str()),
        (Doc::Int(x), Doc::Int(y)) => *x == *y,
        (Doc::Float(x), Doc::Float(y)) => *x == *y,
        (Doc::Bool(x), Doc::Bool(y)) => *x == *y,
        (Doc::Time(x), Doc::Time(y)) => same_text(x.as_str(), y.as_str()),
        (Doc::Array(x), Doc::Array(y)) => {
            proof {
                lemma_items_view(x@);
                lemma_items_view(y@);
            }
            if x.len() != y.len() {
                return false;
            }
            let mut i: usize = 0;
            while i < x.len()
                invariant
                    i <= x@.len(),
                    x@.len() == y@.len(),
                    items_view(x@).len() == x@.len(),
                    items_view(y@).len() == y@.len(),
                    forall|j: int| 0 <= j < x@.len() ==> #[trigger] items_view(x@)[j] == doc_view(x@[j]),
                    forall|j: int| 0 <= j < y@.len() ==> #[trigger] items_view(y@)[j] == doc_view(y@[j]),
                    forall|j: int| 0 <= j < i ==> doc_view(#[trigger] x@[j]) == doc_view(y@[j]),
                decreases x@.len() - i,
            {
                proof {
                    assert(decreases_to!(*a => x@[i as int]));
                }
                if !same_doc(&x[i], &y[i]) {
                    proof {
                        assert(items_view(x@)[i as int] != items_view(y@)[i as int]);
                    }
                    return false;
                }
                i += 1;
            }
            proof {
                assert(items_view(x@) =~= items_view(y@));
            }
            true
        },
        (Doc::Table(x), Doc::Table(y)) => {
            proof {
                lemma_entries_view(x@);
                lemma_entries_view(y@);
            }
            if x.len() != y.len() {
                return false;
            }
            let mut i: usize = 0;
            while i < x.len()
                invariant
                    i <= x@.len(),
                    x@.len() == y@.len(),
                    entries_view(x@).len() == x@.len(),
                    entries_view(y@).len() == y@.len(),
                    forall|j: int| 0 <= j < x@.len() ==> #[trigger] entries_view(x@)[j] == (x@[j].0@, doc_view(x@[j].1)),
                    forall|j: int| 0 <= j < y@.len() ==> #[trigger] entries_view(y@)[j] == (y@[j].0@, doc_view(y@[j].1)),
                    forall|j: int| 0 <= j < i ==> (#[trigger] x@[j]).0@ == y@[j].0@ && doc_view(x@[j].1) == doc_view(y@[j].1),
                decreases x@.len() - i,
            {
                proof {
                    assert(decreases_to!(*a => x@[i as int].1));
                }
                if !same_text(x[i].0.as_str(), y[i].0.as_str()) || !same_doc(&x[i].1, &y[i].1) {
                    proof {
                        assert(entries_view(x@)[i as int] != entries_view(y@)[i as int]);
                    }
                    return false;
                }
                i += 1;
            }
            proof {
                assert(entries_view(x@) =~= entries_view(y@));
            }
            true
        },
        _ => false,
    }
}

/// The index of the first entry under `k`, or -1 when there is none.
pub open spec fn pos(t: Seq<(Seq<char>, DocV)>, k: Seq<char>) -> int
    decreases t.len(),
{
    if t.len() == 0 {
        -1
    } else {
        let p = pos(t.subrange(0, t.len() - 1), k);
        if p >= 0 {
            p
        } else if t[t.len() - 1].0 == k {
            t.len() - 1
        } else {
            -1
        }
    }
}

pub open spec fn has_key(t: Seq<(Seq<char>, DocV)>, k: Seq<char>) -> bool {
    pos(t, k) >= 0
}

/// The value of the first entry under `k`.
pub open spec fn get(t: Seq<(Seq<char>, DocV)>, k: Seq<char>) -> Option<DocV> {
    if has_key(t, k) { Some(t[pos(t, k)].1) } else { None }
}

/// The table without its first entry under `k`.
pub open spec fn without(t: Seq<(Seq<char>, DocV)>, k: Seq<char>) -> Seq<(Seq<char>, DocV)> {
    if has_key(t, k) { t.remove(pos(t, k)) } else { t }
}

/// The first index under `k` is that of an entry under `k`, and no earlier entry is.
pub proof fn lemma_pos(t: Seq<(Seq<char>, DocV)>, k: Seq<char>)
    ensures
        -1 <= pos(t, k) < t.len(),
        pos(t, k) >= 0 ==> t[pos(t, k)].0 == k,
        forall|i: int| 0 <= i < t.len() && (pos(t, k) < 0 || i < pos(t, k)) ==> (#[trigger] t[i]).0 != k,
    decreases t.len(),
{
    if t.len() > 0 {
        let p = t.subrange(0, t.len() - 1);
        lemma_pos(p, k);
        assert forall|i: int| 0 <= i < t.len() && (pos(t, k) < 0 || i < pos(t, k)) implies (#[trigger] t[i]).0 != k by {
            if i < t.len() - 1 {
                assert(p[i] == t[i]);
            }
        }
    }
}

/// The first index of `k` is characterised by where the key occurs.
pub proof fn lemma_pos_exact(t: Seq<(Seq<char>, DocV)>, k: Seq<char>, i: int)
    requires
        -1 <= i < t.len(),
        i >= 0 ==> t[i].0 == k,
        forall|j: int| 0 <= j < t.len() && (i < 0 || j < i) ==> (#[trigger] t[j]).0 != k,
    ensures
        pos(t, k) == i,
{
    lemma_pos(t, k);
}

/// A table with each entry's value merged with what an overlay table sets, in the overlay's
/// order: a key the table has is merged in place, a new key is added at the end.
pub open spec fn overlaid(a: Seq<(Seq<char>, DocV)>, b: Seq<(Seq<char>, DocV)>) -> Seq<(Seq<char>, DocV)>
    decreases b,
{
    if b.len() == 0 {
        a
    } else {
        let r = overlaid(a, b.subrange(0, b.len() - 1));
        let k = b[b.len() - 1].0;
        let v = b[b.len() - 1].1;
        if has_key(r, k) {
            r.update(pos(r, k), (k, merged(r[pos(r, k)].1, v)))
        } else {
            r.push((k, v))
        }
    }
}

/// Layering `overlay` over `base`. Two tables merge key by key, except that an overlay naming
/// `use`, or a `type` other than the base's, replaces the base outright. Before that, an
/// overlay that composes without `use` drops the base's `use`, and an overlay that sets one of
/// `automation` and `ramp` without the other drops the other. Anything else is replaced.
pub open spec fn merged(base: DocV, overlay: DocV) -> DocV
    decreases overlay,
{
    match overlay {
        DocV::Table(b) => match base {
            DocV::Table(a) => {
                let a1 = if has_key(b, "compose"@) && !has_key(b, "use"@) { without(a, "use"@) } else { a };
                let a2 = if has_key(b, "automation"@) && !has_key(b, "ramp"@) { without(a1, "ramp"@) } else { a1 };
                let a3 = if has_key(b, "ramp"@) && !has_key(b, "automation"@) { without(a2, "automation"@) } else { a2 };
                let new_kind = has_key(b, "type"@) && get(a3, "type"@) != get(b, "type"@);
                if !new_kind && !has_key(b, "use"@) {
                    DocV::Table(overlaid(a3, b))
                } else {
                    overlay
                }
            },
            _ => overlay,
        },
        _ => overlay,
    }
}

/// A table's view is its entries' views, one for one.
pub proof fn lemma_entries_view_from(s: Seq<(String, Doc)>, v: Seq<(Seq<char>, DocV)>)
    requires
        s.len() == v.len(),
        forall|i: int| 0 <= i < s.len() ==> (#[trigger] v[i]) == (s[i].0@, doc_view(s[i].1)),
    ensures
        entries_view(s) == v,
{
    lemma_entries_view(s);
    assert(entries_view(s) =~= v);
}

/// The index of the first entry under `k`.
pub fn position(t: &Vec<(String, Doc)>, k: &str) -> (r: Option<usize>)
    ensures
        match r {
            Some(i) => i < t@.len() && pos(entries_view(t@), k@) == i,
            None => pos(entries_view(t@), k@) == -1,
        },
{
    proof {
        lemma_entries_view(t@);
    }
    let mut i: usize = 0;
    while i < t.len()
        invariant
            i <= t@.len(),
            entries_view(t@).len() == t@.len(),
            forall|j: int| 0 <= j < t@.len() ==> #[trigger] entries_view(t@)[j] == (t@[j].0@, doc_view(t@[j].1)),
            forall|j: int| 0 <= j < i ==> (#[trigger] t@[j]).0@ != k@,
        decreases t@.len() - i,
    {
        if same_text(t[i].0.as_str(), k) {
            proof {
                lemma_pos_exact(entries_view(t@), k@, i as int);
            }
            return Some(i);
        }
        i += 1;
    }
    proof {
        lemma_pos_exact(entries_view(t@), k@, -1);
    }
    None
}

/// Drops the first entry under `k`.
pub fn remove_key(t: &mut Vec<(String, Doc)>, k: &str)
    ensures
        entries_view(final(t)@) == without(entries_view(old(t)@), k@),
{
    match position(t, k) {
        Some(i) => {
            let ghost before = t@;
            t.remove(i);
            proof {
                lemma_entries_view(before);
                lemma_entries_view_from(t@, entries_view(before).remove(i as int));
            }
        },
        None => {},
    }
}

/// Merges `overlay` into `base`, as `merged` says.
#[verifier::loop_isolation(false)]
pub fn merge(base: Doc, overlay: Doc) -> (r: Doc)
    ensures
        r@ == merged(base@, overlay@),
    decreases overlay,
{
    let ghost whole = overlay;
    match overlay {
        Doc::Table(b) => match base {
            Doc::Table(a) => {
                let mut a = a;
                let has_use = position(&b, "use").is_some();
                let has_ramp = position(&b, "ramp").is_some();
                let has_automation = position(&b, "automation").is_some();
                if position(&b, "compose").is_some() && !has_use {
                    remove_key(&mut a, "use");
                }
                if has_automation && !has_ramp {
                    remove_key(&mut a, "ramp");
                }
                if has_ramp && !has_automation {
                    remove_key(&mut a, "automation");
                }
                let new_kind = match position(&b, "type") {
                    Some(j) => match position(&a, "type") {
                        Some(i) => !same_doc(&a[i].1, &b[j].1),
                        None => true,
                    },
                    None => false,
                };
                proof {
                    lemma_entries_view(a@);
                    lemma_entries_view(b@);
                }
                if new_kind || has_use {
                    return Doc::Table(b);
                }
                let ghost a3 = entries_view(a@);
                let ghost bv = entries_view(b@);
                let mut rest = b;
                let ghost all = rest@;
                let total = rest.len();
                let mut n: usize = 0;
                while rest.len() > 0
                    invariant
                        n <= all.len(),
                        all.len() == total,
                        rest@ == all.skip(n as int),
                        entries_view(a@) == overlaid(a3, entries_view(all.take(n as int))),
                        whole is Table && whole->Table_0@ == all,
                    decreases rest@.len(),
                {
                    let (k, v) = rest.remove(0);
                    proof {
                        assert(all[n as int] == (k, v));
                        assert(all.skip(n as int).remove(0) =~= all.skip(n + 1));
                        assert(decreases_to!(whole => whole->Table_0@[n as int].1));
                    }
                    let ghost before = a@;
                    let ghost key = k@;
                    let ghost value = doc_view(v);
                    proof {
                        let t = all.take(n + 1);
                        assert(t.subrange(0, t.len() - 1) =~= all.take(n as int));
                        assert(t[n as int] == (k, v));
                        assert(entries_view(t) == entries_view(all.take(n as int)).push((key, value)));
                        let et = entries_view(t);
                        assert(et.subrange(0, et.len() - 1) =~= entries_view(all.take(n as int)));
                        lemma_entries_view(before);
                    }
                    match position(&a, k.as_str()) {
                        Some(i) => {
                            let (_, old) = a.remove(i);
                            let ghost old_view = doc_view(old);
                            let m = merge(old, v);
                            a.insert(i, (k, m));
                            proof {
                                assert(entries_view(before)[i as int] == (before[i as int].0@, old_view));
                                lemma_entries_view_from(
                                    a@,
                                    entries_view(before).update(i as int, (key, merged(old_view, value))),
                                );
                            }
                        },
                        None => {
                            a.push((k, v));
                            proof {
                                lemma_entries_view_from(a@, entries_view(before).push((key, value)));
                            }
                        },
                    }
                    n = n + 1;
                }
                proof {
                    assert(all.take(n as int) =~= all);
                }
                Doc::Table(a)
            },
            other => Doc::Table(b),
        },
        other => other,
    }
}

/// Whether no key occurs twice in a table.
pub open spec fn unique_keys(t: Seq<(Seq<char>, DocV)>) -> bool {
    forall|i: int, j: int| 0 <= i < j < t.len() ==> (#[trigger] t[i]).0 != (#[trigger] t[j]).0
}

/// Replacing an entry by one under the same key keeps every first index.
proof fn lemma_pos_update(t: Seq<(Seq<char>, DocV)>, p: int, e: (Seq<char>, DocV), k: Seq<char>)
    requires
        0 <= p < t.len(),
        t[p].0 == e.0,
    ensures
        pos(t.update(p, e), k) == pos(t, k),
{
    lemma_pos(t, k);
    let u = t.update(p, e);
    assert forall|j: int| 0 <= j < u.len() && (pos(t, k) < 0 || j < pos(t, k)) implies (#[trigger] u[j]).0 != k by {
        assert(t[j].0 != k);
    }
    lemma_pos_exact(u, k, pos(t, k));
}

/// Adding an entry at the end finds a key where it was, or else at the new entry.
proof fn lemma_pos_push(t: Seq<(Seq<char>, DocV)>, e: (Seq<char>, DocV), k: Seq<char>)
    ensures
        pos(t.push(e), k) == (if pos(t, k) >= 0 { pos(t, k) } else if e.0 == k { t.len() as int } else { -1 }),
{
    lemma_pos(t, k);
    let u = t.push(e);
    let expected = if pos(t, k) >= 0 { pos(t, k) } else if e.0 == k { t.len() as int } else { -1 };
    assert forall|j: int| 0 <= j < u.len() && (expected < 0 || j < expected) implies (#[trigger] u[j]).0 != k by {
        if j < t.len() {
            assert(u[j] == t[j]);
        }
    }
    lemma_pos_exact(u, k, expected);
}

/// Overriding sets what the overlay names, merged into what the table held under that key,
/// and keeps every other key's value as it was.
pub proof fn lemma_overlaid_get(a: Seq<(Seq<char>, DocV)>, b: Seq<(Seq<char>, DocV)>, k: Seq<char>)
    requires
        unique_keys(b),
    ensures
        get(overlaid(a, b), k) == (if has_key(b, k) {
            Some(match get(a, k) {
                Some(x) => merged(x, get(b, k)->Some_0),
                None => get(b, k)->Some_0,
            })
        } else {
            get(a, k)
        }),
    decreases b.len(),
{
    if b.len() > 0 {
        let p = b.subrange(0, b.len() - 1);
        let kk = b[b.len() - 1].0;
        let vv = b[b.len() - 1].1;
        assert(unique_keys(p)) by {
            assert forall|i: int, j: int| 0 <= i < j < p.len() implies (#[trigger] p[i]).0 != (#[trigger] p[j]).0 by {
                assert(b[i] == p[i] && b[j] == p[j]);
            }
        }
        lemma_overlaid_get(a, p, k);
        let r = overlaid(a, p);
        lemma_pos(r, kk);
        lemma_pos(r, k);
        lemma_pos(p, k);
        lemma_pos(b, k);
        // the overlay's own lookups of `k`
        assert(b == p.push((kk, vv))) by {
            assert(b =~= p.push((kk, vv)));
        }
        lemma_pos_push(p, (kk, vv), k);
        let res = overlaid(a, b);
        if kk == k {
            assert(!has_key(p, k)) by {
                if has_key(p, k) {
                    let i = pos(p, k);
                    assert(b[i].0 == k && b[b.len() - 1].0 == k);
                }
            }
            assert(pos(b, k) == b.len() - 1);
            assert(get(b, k) == Some(vv));
            assert(get(r, k) == get(a, k));
            if has_key(r, kk) {
                let q = pos(r, kk);
                lemma_pos_update(r, q, (kk, merged(r[q].1, vv)), k);
                assert(res == r.update(q, (kk, merged(r[q].1, vv))));
                assert(get(res, k) == Some(merged(r[q].1, vv)));
            } else {
                lemma_pos_push(r, (kk, vv), k);
                assert(res == r.push((kk, vv)));
                assert(get(res, k) == Some(vv));
            }
        } else {
            assert(pos(b, k) == pos(p, k));
            if has_key(p, k) {
                assert(b[pos(p, k)] == p[pos(p, k)]);
            }
            assert(get(b, k) == get(p, k));
            if has_key(r, kk) {
                let q = pos(r, kk);
                lemma_pos_update(r, q, (kk, merged(r[q].1, vv)), k);
                assert(res == r.update(q, (kk, merged(r[q].1, vv))));
                if has_key(r, k) {
                    assert(pos(r, k) != q);
                }
                assert(get(res, k) == get(r, k));
            } else {
                lemma_pos_push(r, (kk, vv), k);
                assert(res == r.push((kk, vv)));
                if has_key(r, k) {
                    assert(res[pos(r, k)] == r[pos(r, k)]);
                }
                assert(get(res, k) == get(r, k));
            }
        }
    }
}

/// Merging a table over anything gives a table, and under each key the overlay writes it
/// carries the overlay's value, or the overlay's value merged over what was there.
pub proof fn lemma_merged_key(base: DocV, b: Seq<(Seq<char>, DocV)>, k: Seq<char>)
    requires
        unique_keys(b),
        has_key(b, k),
    ensures
        merged(base, DocV::Table(b)) is Table,
        get(merged(base, DocV::Table(b))->Table_0, k) == get(b, k)
            || exists|x: DocV| get(merged(base, DocV::Table(b))->Table_0, k) == Some(#[trigger] merged(x, get(b, k)->Some_0)),
{
    match base {
        DocV::Table(a) => {
            let a1 = if has_key(b, "compose"@) && !has_key(b, "use"@) { without(a, "use"@) } else { a };
            let a2 = if has_key(b, "automation"@) && !has_key(b, "ramp"@) { without(a1, "ramp"@) } else { a1 };
            let a3 = if has_key(b, "ramp"@) && !has_key(b, "automation"@) { without(a2, "automation"@) } else { a2 };
            let new_kind = has_key(b, "type"@) && get(a3, "type"@) != get(b, "type"@);
            if !new_kind && !has_key(b, "use"@) {
                lemma_overlaid_get(a3, b, k);
                match get(a3, k) {
                    Some(x) => {
                        assert(get(merged(base, DocV::Table(b))->Table_0, k) == Some(merged(x, get(b, k)->Some_0)));
                    },
                    None => {},
                }
            }
        },
        _ => {},
    }
}

/// The overlay wins: merging a table over anything, each key the overlay writes with a value
/// that is not a table carries exactly the overlay's value.
pub proof fn lemma_overlay_wins(base: DocV, b: Seq<(Seq<char>, DocV)>, k: Seq<char>)
    requires
        unique_keys(b),
        has_key(b, k),
        !(get(b, k)->Some_0 is Table),
    ensures
        merged(base, DocV::Table(b)) is Table,
        get(merged(base, DocV::Table(b))->Table_0, k) == get(b, k),
{
    lemma_merged_key(base, b, k);
}

/// In a table with unique keys, taking out a key's entry leaves no entry under it.
pub proof fn lemma_without_gone(t: Seq<(Seq<char>, DocV)>, a: Seq<char>)
    requires
        unique_keys(t),
    ensures
        !has_key(without(t, a), a),
{
    lemma_pos(t, a);
    if has_key(t, a) {
        let p = pos(t, a);
        let u = t.remove(p);
        assert forall|j: int| 0 <= j < u.len() implies (#[trigger] u[j]).0 != a by {
            if j < p {
                assert(u[j] == t[j]);
            } else {
                assert(u[j] == t[j + 1]);
            }
        }
        lemma_pos_exact(u, a, -1);
    }
}

/// Merging a table that names no `type`, `use`, `compose`, `ramp` or `automation` over a
/// table keeps every key the overlay does not write.
pub proof fn lemma_merged_keeps(a: Seq<(Seq<char>, DocV)>, b: Seq<(Seq<char>, DocV)>, k: Seq<char>)
    requires
        unique_keys(b),
        !has_key(b, k),
        !has_key(b, "type"@),
        !has_key(b, "use"@),
        !has_key(b, "compose"@),
        !has_key(b, "ramp"@),
        !has_key(b, "automation"@),
    ensures
        merged(DocV::Table(a), DocV::Table(b)) is Table,
        get(merged(DocV::Table(a), DocV::Table(b))->Table_0, k) == get(a, k),
{
    lemma_overlaid_get(a, b, k);
}

/// What is put under a key is what is found there.
pub proof fn lemma_put_get(t: Seq<(Seq<char>, DocV)>, k: Seq<char>, v: DocV)
    ensures
        get(put(t, k, v), k) == Some(v),
{
    lemma_pos(t, k);
    if has_key(t, k) {
        lemma_pos_update(t, pos(t, k), (k, v), k);
    } else {
        lemma_pos_push(t, (k, v), k);
    }
}

/// Taking out the first entry under one key changes no other key's value, and keeps keys
/// unique.
pub proof fn lemma_without_keeps(t: Seq<(Seq<char>, DocV)>, a: Seq<char>, k: Seq<char>)
    requires
        a != k,
    ensures
        get(without(t, a), k) == get(t, k),
        unique_keys(t) ==> unique_keys(without(t, a)),
{
    lemma_pos(t, a);
    lemma_pos(t, k);
    if has_key(t, a) {
        let p = pos(t, a);
        let u = t.remove(p);
        let q = pos(t, k);
        if q < 0 {
            lemma_pos_exact(u, k, -1);
        } else if q < p {
            assert forall|j: int| 0 <= j < u.len() && j < q implies (#[trigger] u[j]).0 != k by {
                assert(u[j] == t[j]);
            }
            assert(u[q] == t[q]);
            lemma_pos_exact(u, k, q);
        } else {
            assert(q != p);
            assert forall|j: int| 0 <= j < u.len() && j < q - 1 implies (#[trigger] u[j]).0 != k by {
                if j < p {
                    assert(u[j] == t[j]);
                } else {
                    assert(u[j] == t[j + 1]);
                }
            }
            assert(u[q - 1] == t[q]);
            lemma_pos_exact(u, k, q - 1);
        }
        if unique_keys(t) {
            assert forall|i: int, j: int| 0 <= i < j < u.len() implies (#[trigger] u[i]).0 != (#[trigger] u[j]).0 by {
                let ti = if i < p { i } else { i + 1 };
                let tj = if j < p { j } else { j + 1 };
                assert(u[i] == t[ti] && u[j] == t[tj]);
            }
        }
    }
}

/// An overlay table with no entries, naming no `type` or `use`, leaves a table as it was.
pub proof fn lemma_empty_overlay(a: Seq<(Seq<char>, DocV)>)
    ensures
        merged(DocV::Table(a), DocV::Table(Seq::empty())) == DocV::Table(a),
{
    let e = Seq::<(Seq<char>, DocV)>::empty();
    assert(pos(e, "use"@) == -1);
    assert(pos(e, "type"@) == -1);
    assert(pos(e, "compose"@) == -1);
    assert(pos(e, "ramp"@) == -1);
    assert(pos(e, "automation"@) == -1);
}

/// A copy of a document.
#[verifier::loop_isolation(false)]
pub fn copy_doc(d: &Doc) -> (r: Doc)
    ensures
        r@ == d@,
    decreases d,
{
    match d {
        Doc::Str(s) => Doc::Str(s.clone()),
        Doc::Int(i) => Doc::Int(*i),
        Doc::Float(f) => Doc::Float(*f),
        Doc::Bool(b) => Doc::Bool(*b),
        Doc::Time(s) => Doc::Time(s.clone()),
        Doc::Array(x) => {
            let mut out: Vec<Doc> = Vec::new();
            let mut i: usize = 0;
            while i < x.len()
                invariant
                    i <= x@.len(),
                    out@.len() == i,
                    forall|j: int| 0 <= j < i ==> doc_view(#[trigger] out@[j]) == doc_view(x@[j]),
                decreases x@.len() - i,
            {
                proof {
                    assert(decreases_to!(*d => x@[i as int]));
                }
                out.push(copy_doc(&x[i]));
                i += 1;
            }
            proof {
                lemma_items_view(out@);
                lemma_items_view(x@);
                assert(items_view(out@) =~= items_view(x@));
            }
            Doc::Array(out)
        },
        Doc::Table(x) => {
            let mut out: Vec<(String, Doc)> = Vec::new();
            let mut i: usize = 0;
            while i < x.len()
                invariant
                    i <= x@.len(),
                    out@.len() == i,
                    forall|j: int| 0 <= j < i ==> (#[trigger] out@[j]).0@ == x@[j].0@ && doc_view(out@[j].1) == doc_view(x@[j].1),
                decreases x@.len() - i,
            {
                proof {
                    assert(decreases_to!(*d => x@[i as int].1));
                }
                out.push((x[i].0.clone(), copy_doc(&x[i].1)));
                i += 1;
            }
            proof {
                lemma_entries_view(out@);
                lemma_entries_view(x@);
                assert(entries_view(out@) =~= entries_view(x@));
            }
            Doc::Table(out)
        },
    }
}

/// The table with `v` under `k`: its first entry under `k` replaced, or a new entry at the end.
pub open spec fn put(t: Seq<(Seq<char>, DocV)>, k: Seq<char>, v: DocV) -> Seq<(Seq<char>, DocV)> {
    if has_key(t, k) { t.update(pos(t, k), (k, v)) } else { t.push((k, v)) }
}

/// Sets `v` under `k`.
pub fn put_key(t: &mut Vec<(String, Doc)>, k: String, v: Doc)
    ensures
        entries_view(final(t)@) == put(entries_view(old(t)@), k@, v@),
{
    let ghost before = t@;
    let ghost key = k@;
    let ghost value = v@;
    proof {
        lemma_entries_view(before);
    }
    match position(t, k.as_str()) {
        Some(i) => {
            t.set(i, (k, v));
            proof {
                lemma_entries_view_from(t@, entries_view(before).update(i as int, (key, value)));
            }
        },
        None => {
            t.push((k, v));
            proof {
                lemma_entries_view_from(t@, entries_view(before).push((key, value)));
            }
        },
    }
}

/// Takes out the value of the first entry under `k`, dropping the entry.
pub fn take_key(t: &mut Vec<(String, Doc)>, k: &str) -> (r: Option<Doc>)
    ensures
        entries_view(final(t)@) == without(entries_view(old(t)@), k@),
        match r {
            Some(v) => has_key(entries_view(old(t)@), k@) && v@ == get(entries_view(old(t)@), k@)->Some_0
                && v == old(t)@[pos(entries_view(old(t)@), k@)].1,
            None => !has_key(entries_view(old(t)@), k@),
        },
        final(t)@ == (if has_key(entries_view(old(t)@), k@) {
            old(t)@.remove(pos(entries_view(old(t)@), k@))
        } else {
            old(t)@
        }),
{
    let ghost before = t@;
    proof {
        lemma_entries_view(before);
    }
    match position(t, k) {
        Some(i) => {
            let (_, v) = t.remove(i);
            proof {
                lemma_entries_view_from(t@, entries_view(before).remove(i as int));
            }
            Some(v)
        },
        None => None,
    }
}

} // verus!
