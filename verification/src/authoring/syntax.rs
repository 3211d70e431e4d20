//! Shorthands an author may write, made explicit before inheritance so that a change of kind is
//! visible to it: `rhythm.part` names a Part's rhythm, a rhythm's kind follows from its fields,
//! `output.gate` is a note value, and `[parts.<id>]` tables become an ordered list.
use vstd::prelude::*;

use super::doc::{
    entries_view, get, has_key, lemma_pos, pos, put, put_key, take_key, without, Doc, DocV,
};
use crate::music::time::{note_divisor, note_value_text, parse_error_denominator, parse_error_shape, NoteValue};

verus! {

/// A rhythm table after `part = "<id>"` became `id` and `type = "part"`, or why it cannot.
pub open spec fn part_ref(t: Seq<(Seq<char>, DocV)>) -> Result<Seq<(Seq<char>, DocV)>, Seq<char>> {
    if has_key(t, "part"@) {
        let t0 = without(t, "part"@);
        if has_key(t0, "id"@) || (has_key(t0, "type"@) && get(t0, "type"@) != Some(DocV::Str("part"@))) {
            Err("rhythm.part conflicts with id or type"@)
        } else {
            Ok(put(put(t0, "id"@, get(t, "part"@)->Some_0), "type"@, DocV::Str("part"@)))
        }
    } else {
        Ok(t)
    }
}

/// A rhythm table with its kind spelled out when its fields imply one; a partial override that
/// implies none inherits the kind it overrides.
pub open spec fn with_kind(t: Seq<(Seq<char>, DocV)>) -> Seq<(Seq<char>, DocV)> {
    if has_key(t, "type"@) {
        t
    } else if has_key(t, "op"@) {
        put(t, "type"@, DocV::Str("binary"@))
    } else if has_key(t, "steps"@) {
        put(t, "type"@, DocV::Str("euclidean"@))
    } else {
        t
    }
}

/// A rhythm with its shorthands made explicit, down through its operands `a` and `b`.
pub open spec fn rhythm_normal(d: DocV) -> Result<DocV, Seq<char>>
    decreases d,
{
    match d {
        DocV::Table(t) => {
            let ta = without(t, "a"@);
            let tb = without(ta, "b"@);
            match part_ref(tb) {
                Err(e) => Err(e),
                Ok(t1) => {
                    let t2 = with_kind(t1);
                    let ra = if has_key(t, "a"@) {
                        proof {
                            lemma_pos(t, "a"@);
                        }
                        rhythm_normal(t[pos(t, "a"@)].1)
                    } else {
                        Ok(DocV::Bool(false))
                    };
                    let rb = if has_key(ta, "b"@) {
                        proof {
                            lemma_pos(ta, "b"@);
                            lemma_pos(t, "a"@);
                            let j = pos(ta, "b"@);
                            if has_key(t, "a"@) {
                                let i = pos(t, "a"@);
                                if j < i {
                                    assert(ta[j] == t[j]);
                                } else {
                                    assert(ta[j] == t[j + 1]);
                                }
                            }
                        }
                        rhythm_normal(ta[pos(ta, "b"@)].1)
                    } else {
                        Ok(DocV::Bool(false))
                    };
                    match (ra, rb) {
                        (Err(e), _) => Err(e),
                        (Ok(x), Err(e)) => Err(e),
                        (Ok(x), Ok(y)) => {
                            let t3 = if has_key(t, "a"@) { put(t2, "a"@, x) } else { t2 };
                            Ok(DocV::Table(if has_key(ta, "b"@) { put(t3, "b"@, y) } else { t3 }))
                        },
                    }
                },
            }
        },
        _ => Err("rhythm must be a table"@),
    }
}

fn text(s: &str) -> (d: Doc)
    ensures
        d@ == DocV::Str(s@),
{
    Doc::Str(String::from_str(s))
}

/// Turns `part = "<id>"` into `id` and `type = "part"`, as `part_ref` says.
fn resolve_part(t: Vec<(String, Doc)>) -> (r: Result<Vec<(String, Doc)>, String>)
    ensures
        match part_ref(entries_view(t@)) {
            Ok(v) => r matches Ok(x) && entries_view(x@) == v,
            Err(e) => r matches Err(m) && m@ == e,
        },
{
    proof {
        reveal_strlit("part");
        reveal_strlit("id");
        reveal_strlit("type");
        reveal_strlit("rhythm.part conflicts with id or type");
    }
    let mut t = t;
    let part = match take_key(&mut t, "part") {
        Some(p) => p,
        None => {
            return Ok(t);
        },
    };
    let conflict = match super::doc::position(&t, "id") {
        Some(_) => true,
        None => match super::doc::position(&t, "type") {
            Some(i) => match &t[i].1 {
                Doc::Str(s) => !crate::text::same_text(s.as_str(), "part"),
                _ => true,
            },
            None => false,
        },
    };
    proof {
        super::doc::lemma_entries_view(t@);
    }
    if conflict {
        return Err(String::from_str("rhythm.part conflicts with id or type"));
    }
    put_key(&mut t, String::from_str("id"), part);
    put_key(&mut t, String::from_str("type"), text("part"));
    Ok(t)
}

/// Spells out the kind a rhythm's fields imply, as `with_kind` says.
fn infer_kind(t: &mut Vec<(String, Doc)>)
    ensures
        entries_view(final(t)@) == with_kind(entries_view(old(t)@)),
{
    proof {
        reveal_strlit("type");
        reveal_strlit("op");
        reveal_strlit("steps");
        reveal_strlit("binary");
        reveal_strlit("euclidean");
    }
    if super::doc::position(t, "type").is_none() {
        if super::doc::position(t, "op").is_some() {
            put_key(t, String::from_str("type"), text("binary"));
        } else if super::doc::position(t, "steps").is_some() {
            put_key(t, String::from_str("type"), text("euclidean"));
        }
    }
}

/// Makes a rhythm's shorthands explicit, as `rhythm_normal` says.
pub fn normalize_rhythm(d: Doc) -> (r: Result<Doc, String>)
    ensures
        match rhythm_normal(d@) {
            Ok(v) => r matches Ok(x) && x@ == v,
            Err(e) => r matches Err(m) && m@ == e,
        },
    decreases d,
{
    proof {
        reveal_strlit("a");
        reveal_strlit("b");
        reveal_strlit("part");
        reveal_strlit("id");
        reveal_strlit("type");
        reveal_strlit("op");
        reveal_strlit("steps");
        reveal_strlit("binary");
        reveal_strlit("euclidean");
        reveal_strlit("rhythm.part conflicts with id or type");
        reveal_strlit("rhythm must be a table");
    }
    let ghost whole = d;
    match d {
        Doc::Table(t) => {
            let mut t = t;
            let ghost t0 = t@;
            assert(whole is Table && whole->Table_0@ == t0);
            let a = take_key(&mut t, "a");
            let ghost t_a = t@;
            let b = take_key(&mut t, "b");
            match resolve_part(t) {
                Ok(next) => {
                    t = next;
                },
                Err(e) => {
                    return Err(e);
                },
            }
            infer_kind(&mut t);
            match a {
                Some(x) => {
                    proof {
                        lemma_pos(entries_view(t0), "a"@);
                        super::doc::lemma_entries_view(t0);
                        let i = pos(entries_view(t0), "a"@);
                        assert(x == t0[i].1);
                        assert(decreases_to!(whole => whole->Table_0@[i].1));
                    }
                    match normalize_rhythm(x) {
                        Ok(n) => put_key(&mut t, String::from_str("a"), n),
                        Err(e) => {
                            return Err(e);
                        },
                    }
                },
                None => {},
            }
            match b {
                Some(y) => {
                    proof {
                        lemma_pos(entries_view(t_a), "b"@);
                        lemma_pos(entries_view(t0), "a"@);
                        super::doc::lemma_entries_view(t0);
                        super::doc::lemma_entries_view(t_a);
                        let j = pos(entries_view(t_a), "b"@);
                        if has_key(entries_view(t0), "a"@) {
                            let i = pos(entries_view(t0), "a"@);
                            if j < i {
                                assert(t_a[j] == t0[j]);
                                assert(decreases_to!(whole => whole->Table_0@[j].1));
                            } else {
                                assert(t_a[j] == t0[j + 1]);
                                assert(decreases_to!(whole => whole->Table_0@[j + 1].1));
                            }
                        } else {
                            assert(t_a == t0);
                            assert(t_a[j] == t0[j]);
                            assert(decreases_to!(whole => whole->Table_0@[j].1));
                        }
                    }
                    match normalize_rhythm(y) {
                        Ok(n) => put_key(&mut t, String::from_str("b"), n),
                        Err(e) => {
                            return Err(e);
                        },
                    }
                },
                None => {},
            }
            Ok(Doc::Table(t))
        },
        _ => Err(String::from_str("rhythm must be a table")),
    }
}

/// An output table with `gate` (a note value) turned into `gate_ticks`, or why it cannot be.
pub open spec fn gate_normal(o: Seq<(Seq<char>, DocV)>) -> Result<Seq<(Seq<char>, DocV)>, Seq<char>> {
    if has_key(o, "gate"@) {
        let o1 = without(o, "gate"@);
        if has_key(o1, "gate_ticks"@) {
            Err("choose output.gate or output.gate_ticks, not both"@)
        } else {
            match get(o, "gate"@) {
                Some(DocV::Str(g)) => match note_value_text(g) {
                    Some(v) => Ok(put(o1, "gate_ticks"@, DocV::Int(v as i64))),
                    None => Err(if note_divisor(g) is None { parse_error_shape() } else { parse_error_denominator() }),
                },
                _ => Err("output.gate must be a note value string"@),
            }
        }
    } else {
        Ok(o)
    }
}

/// The rhythm of lane `lane` normalized, when the lane is a table with a rhythm.
pub open spec fn lane_normal(t: Seq<(Seq<char>, DocV)>, lane: Seq<char>) -> Result<Seq<(Seq<char>, DocV)>, Seq<char>> {
    match get(t, lane) {
        Some(DocV::Table(l)) => if has_key(l, "rhythm"@) {
            match rhythm_normal(get(l, "rhythm"@)->Some_0) {
                Ok(x) => Ok(put(t, lane, DocV::Table(put(l, "rhythm"@, x)))),
                Err(e) => Err(lane + ".rhythm: "@ + e),
            }
        } else {
            Ok(t)
        },
        _ => Ok(t),
    }
}

/// A behavior's fields with its shorthands made explicit: the output's gate, then the trigger
/// and accent rhythms.
pub open spec fn behavior_normal(t: Seq<(Seq<char>, DocV)>) -> Result<Seq<(Seq<char>, DocV)>, Seq<char>> {
    let gated = match get(t, "output"@) {
        Some(DocV::Table(o)) => match gate_normal(o) {
            Ok(o2) => Ok(put(t, "output"@, DocV::Table(o2))),
            Err(e) => Err(e),
        },
        _ => Ok(t),
    };
    match gated {
        Err(e) => Err(e),
        Ok(t1) => match lane_normal(t1, "trigger"@) {
            Err(e) => Err(e),
            Ok(t2) => lane_normal(t2, "accent"@),
        },
    }
}

fn normalize_gate(o: Vec<(String, Doc)>) -> (r: Result<Vec<(String, Doc)>, String>)
    ensures
        match gate_normal(entries_view(o@)) {
            Ok(v) => r matches Ok(x) && entries_view(x@) == v,
            Err(e) => r matches Err(m) && m@ == e,
        },
{
    proof {
        reveal_strlit("gate");
        reveal_strlit("gate_ticks");
        reveal_strlit("choose output.gate or output.gate_ticks, not both");
        reveal_strlit("output.gate must be a note value string");
    }
    let mut o = o;
    let gate = match take_key(&mut o, "gate") {
        Some(g) => g,
        None => {
            return Ok(o);
        },
    };
    if super::doc::position(&o, "gate_ticks").is_some() {
        return Err(String::from_str("choose output.gate or output.gate_ticks, not both"));
    }
    match gate {
        Doc::Str(g) => match NoteValue::parse(g.as_str()) {
            Ok(v) => {
                put_key(&mut o, String::from_str("gate_ticks"), Doc::Int(v.0 as i64));
                Ok(o)
            },
            Err(e) => Err(e),
        },
        _ => Err(String::from_str("output.gate must be a note value string")),
    }
}

fn normalize_lane(t: Vec<(String, Doc)>, lane: &str) -> (r: Result<Vec<(String, Doc)>, String>)
    ensures
        match lane_normal(entries_view(t@), lane@) {
            Ok(v) => r matches Ok(x) && entries_view(x@) == v,
            Err(e) => r matches Err(m) && m@ == e,
        },
{
    proof {
        reveal_strlit("rhythm");
        reveal_strlit(".rhythm: ");
    }
    let mut t = t;
    let ghost t0 = t@;
    let i = match super::doc::position(&t, lane) {
        Some(i) => i,
        None => {
            return Ok(t);
        },
    };
    proof {
        super::doc::lemma_entries_view(t0);
    }
    let j = match &t[i].1 {
        Doc::Table(l) => {
            proof {
                super::doc::lemma_entries_view(l@);
            }
            match super::doc::position(l, "rhythm") {
                Some(j) => j,
                None => {
                    return Ok(t);
                },
            }
        },
        _ => {
            return Ok(t);
        },
    };
    let (k, d) = t.remove(i);
    let mut l = match d {
        Doc::Table(l) => l,
        other => {
            t.insert(i, (k, other));
            return Ok(t);
        },
    };
    let ghost l0 = l@;
    let (rk, rhythm) = l.remove(j);
    match normalize_rhythm(rhythm) {
        Ok(x) => {
            let ghost xv = x@;
            l.insert(j, (rk, x));
            proof {
                super::doc::lemma_entries_view(l0);
                lemma_pos(entries_view(l0), "rhythm"@);
                lemma_pos(entries_view(t0), lane@);
                assert(rk@ == "rhythm"@);
                assert(k@ == lane@);
                assert(l@ =~= l0.update(j as int, l@[j as int]));
                super::doc::lemma_entries_view_from(l@, entries_view(l0).update(j as int, ("rhythm"@, xv)));
            }
            let ghost lv = entries_view(l@);
            t.insert(i, (k, Doc::Table(l)));
            proof {
                assert(t@ =~= t0.update(i as int, t@[i as int]));
                super::doc::lemma_entries_view_from(t@, entries_view(t0).update(i as int, (lane@, DocV::Table(lv))));
            }
            Ok(t)
        },
        Err(e) => {
            let mut m = String::from_str(lane);
            m.append(".rhythm: ");
            m.append(e.as_str());
            Err(m)
        },
    }
}

/// Makes a behavior's shorthands explicit, as `behavior_normal` says.
pub fn normalize_behavior(t: Vec<(String, Doc)>) -> (r: Result<Vec<(String, Doc)>, String>)
    ensures
        match behavior_normal(entries_view(t@)) {
            Ok(v) => r matches Ok(x) && entries_view(x@) == v,
            Err(e) => r matches Err(m) && m@ == e,
        },
{
    proof {
        reveal_strlit("output");
        reveal_strlit("trigger");
        reveal_strlit("accent");
    }
    let mut t = t;
    let ghost t0 = t@;
    match super::doc::position(&t, "output") {
        Some(i) => {
            proof {
                super::doc::lemma_entries_view(t0);
            }
            let is_table = match &t[i].1 {
                Doc::Table(_) => true,
                _ => false,
            };
            if is_table {
                let (k, d) = t.remove(i);
                match d {
                    Doc::Table(o) => match normalize_gate(o) {
                        Ok(o2) => {
                            let ghost ov = entries_view(o2@);
                            t.insert(i, (k, Doc::Table(o2)));
                            proof {
                                lemma_pos(entries_view(t0), "output"@);
                                assert(k@ == "output"@);
                                assert(t@ =~= t0.update(i as int, t@[i as int]));
                                super::doc::lemma_entries_view_from(t@, entries_view(t0).update(i as int, ("output"@, DocV::Table(ov))));
                            }
                        },
                        Err(e) => {
                            return Err(e);
                        },
                    },
                    other => {
                        t.insert(i, (k, other));
                    },
                }
            }
        },
        None => {},
    }
    let t = match normalize_lane(t, "trigger") {
        Ok(t) => t,
        Err(e) => {
            return Err(e);
        },
    };
    normalize_lane(t, "accent")
}

} // verus!
