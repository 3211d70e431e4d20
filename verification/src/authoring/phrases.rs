//! Phrase inheritance and arrangement sections, expanded before playback: a phrase is the
//! composition with some of its fields overridden, possibly through another phrase, and an
//! arrangement lists sections that each play a phrase, or a composition of their own, for some
//! bars, possibly repeated.
use vstd::prelude::*;

use super::doc::{
    copy_doc, entries_view, get, has_key, lemma_entries_view, lemma_pos, merge, merged, position, put, put_key,
    take_key, without, Doc, DocV, lemma_overlay_wins, lemma_without_keeps, unique_keys,
};
use super::expansion::{copy_of, flat, gaps_view, pushed, Registry, RegistryV};
use super::library::{joined, push_joined, strings_view, Gap};
use crate::text::{blank, debug_str, is_blank, quoted, same_text};

verus! {

/// The keys a phrase may set.
pub open spec fn phrase_key(k: Seq<char>) -> bool {
    k == "use"@ || k == "seed"@ || k == "phrase_bars"@ || k == "parts"@ || k == "part"@ || k == "accents"@
}

pub open spec fn phrase_cycle_text(stack: Seq<Seq<char>>, name: Seq<char>) -> Seq<char> {
    "phrase dependency cycle or excessive depth: "@ + joined(stack, " -> "@) + " -> "@ + name
}

/// Phrase `name` derived: its own fields, without `use`, over the phrase it uses or else the
/// composition `base`; a chain deeper than sixteen or a repeated name is refused.
pub open spec fn derived(name: Seq<char>, defs: Seq<(Seq<char>, DocV)>, base: DocV, stack: Seq<Seq<char>>) -> Result<DocV, Seq<char>>
    decreases 17 - stack.len(),
{
    if stack.len() >= 16 || stack.contains(name) {
        Err(phrase_cycle_text(stack, name))
    } else {
        match get(defs, name) {
            Some(DocV::Table(local)) => if exists|i: int| 0 <= i < local.len() && !phrase_key(#[trigger] local[i].0) {
                Err("phrase "@ + debug_str(name) + " only accepts use, seed, phrase_bars, parts and accents"@)
            } else {
                let parent = match get(local, "use"@) {
                    Some(DocV::Str(p)) => derived(p, defs, base, stack.push(name)),
                    Some(_) => Err("phrase.use must be a phrase name"@),
                    None => Ok(base),
                };
                match parent {
                    Err(e) => Err(e),
                    Ok(r) => Ok(merged(r, DocV::Table(without(local, "use"@)))),
                }
            },
            _ => Err("unknown phrase "@ + debug_str(name)),
        }
    }
}

/// A phrase's own fields win: every field other than `use` that a phrase writes with a value
/// that is not a table, its derived composition carries with the phrase's value, whatever the
/// composition or the phrase it uses wrote there.
pub proof fn lemma_phrase_fields_win(
    name: Seq<char>,
    defs: Seq<(Seq<char>, DocV)>,
    base: DocV,
    stack: Seq<Seq<char>>,
    local: Seq<(Seq<char>, DocV)>,
    k: Seq<char>,
)
    requires
        derived(name, defs, base, stack) is Ok,
        get(defs, name) == Some(DocV::Table(local)),
        unique_keys(local),
        k != "use"@,
        has_key(local, k),
        !(get(local, k)->Some_0 is Table),
    ensures
        derived(name, defs, base, stack)->Ok_0 is Table,
        get(derived(name, defs, base, stack)->Ok_0->Table_0, k) == get(local, k),
{
    let parent = match get(local, "use"@) {
        Some(DocV::Str(p)) => derived(p, defs, base, stack.push(name)),
        Some(_) => Err("phrase.use must be a phrase name"@),
        None => Ok(base),
    };
    let r = parent->Ok_0;
    let own = without(local, "use"@);
    lemma_without_keeps(local, "use"@, k);
    assert(derived(name, defs, base, stack) == Ok::<DocV, Seq<char>>(merged(r, DocV::Table(own))));
    lemma_overlay_wins(r, own, k);
}

/// A phrase inherits every field it does not write: from the phrase it uses, or else from the
/// composition it derives from.
pub proof fn lemma_phrase_inherits(
    name: Seq<char>,
    defs: Seq<(Seq<char>, DocV)>,
    base: DocV,
    stack: Seq<Seq<char>>,
    local: Seq<(Seq<char>, DocV)>,
    k: Seq<char>,
)
    requires
        derived(name, defs, base, stack) is Ok,
        get(defs, name) == Some(DocV::Table(local)),
        unique_keys(local),
        !has_key(local, k),
        base is Table,
    ensures
        derived(name, defs, base, stack)->Ok_0 is Table,
        get(derived(name, defs, base, stack)->Ok_0->Table_0, k) == (match get(local, "use"@) {
            Some(DocV::Str(p)) => get(derived(p, defs, base, stack.push(name))->Ok_0->Table_0, k),
            _ => get(base->Table_0, k),
        }),
{
    reveal_strlit("use");
    reveal_strlit("type");
    reveal_strlit("compose");
    reveal_strlit("ramp");
    reveal_strlit("automation");
    reveal_strlit("seed");
    reveal_strlit("part");
    reveal_strlit("parts");
    reveal_strlit("accents");
    reveal_strlit("phrase_bars");
    let own = without(local, "use"@);
    let parent = match get(local, "use"@) {
        Some(DocV::Str(p)) => derived(p, defs, base, stack.push(name)),
        Some(_) => Err("phrase.use must be a phrase name"@),
        None => Ok(base),
    };
    let r = parent->Ok_0;
    // the parent is a table: the composition, or a phrase derived from it
    match get(local, "use"@) {
        Some(DocV::Str(p)) => {
            lemma_derived_table(p, defs, base, stack.push(name));
        },
        _ => {},
    }
    if k != "use"@ {
        lemma_without_keeps(local, "use"@, k);
    }
    super::doc::lemma_without_gone(local, "use"@);
    assert("use"@ != "type"@) by { assert("use"@[0] != "type"@[0]); }
    assert("use"@ != "compose"@) by { assert("use"@.len() != "compose"@.len()); }
    assert("use"@ != "ramp"@) by { assert("use"@.len() != "ramp"@.len()); }
    assert("use"@ != "automation"@) by { assert("use"@.len() != "automation"@.len()); }
    assert(!phrase_key("type"@) && !phrase_key("compose"@) && !phrase_key("ramp"@) && !phrase_key("automation"@)) by {
        assert("type"@.len() != "seed"@.len() || "type"@[0] != "seed"@[0]);
        assert("type"@[0] != "part"@[0]);
        assert("type"@.len() != "parts"@.len() && "type"@.len() != "accents"@.len() && "type"@.len() != "phrase_bars"@.len());
        assert("compose"@.len() != "seed"@.len() && "compose"@.len() != "part"@.len() && "compose"@.len() != "parts"@.len());
        assert("compose"@[0] != "accents"@[0] && "compose"@.len() != "phrase_bars"@.len());
        assert("ramp"@[0] != "seed"@[0] && "ramp"@[0] != "part"@[0] && "ramp"@.len() != "parts"@.len());
        assert("ramp"@.len() != "accents"@.len() && "ramp"@.len() != "phrase_bars"@.len());
        assert("automation"@.len() != "seed"@.len() && "automation"@.len() != "part"@.len() && "automation"@.len() != "parts"@.len());
        assert("automation"@.len() != "accents"@.len() && "automation"@.len() != "phrase_bars"@.len());
    }
    assert forall|key: Seq<char>| !phrase_key(key) implies !has_key(local, key) by {
        lemma_pos(local, key);
        if has_key(local, key) {
            assert(!phrase_key(local[super::doc::pos(local, key)].0));
        }
    }
    lemma_without_keeps(local, "use"@, "type"@);
    lemma_without_keeps(local, "use"@, "compose"@);
    lemma_without_keeps(local, "use"@, "ramp"@);
    lemma_without_keeps(local, "use"@, "automation"@);
    super::doc::lemma_merged_keeps(r->Table_0, own, k);
    assert(derived(name, defs, base, stack) == Ok::<DocV, Seq<char>>(merged(r, DocV::Table(own))));
}

/// A derived phrase is a table, when it derives from a table.
proof fn lemma_derived_table(name: Seq<char>, defs: Seq<(Seq<char>, DocV)>, base: DocV, stack: Seq<Seq<char>>)
    requires
        derived(name, defs, base, stack) is Ok,
    ensures
        derived(name, defs, base, stack)->Ok_0 is Table,
{
}

/// An arrangement repeats exactly when it says `repeat = true`: one that does not name
/// `repeat` plays its sections once.
pub proof fn lemma_repeat_only_when_asked(t: Seq<(Seq<char>, DocV)>)
    requires
        sequence_of(DocV::Table(t)) is Ok,
    ensures
        sequence_of(DocV::Table(t))->Ok_0.0 <==> get(t, "repeat"@) == Some(DocV::Bool(true)),
        !has_key(t, "repeat"@) ==> !sequence_of(DocV::Table(t))->Ok_0.0,
{
}

/// The expanded composition repeats its arrangement exactly when the authored arrangement
/// says `repeat = true`; one that does not name `repeat` plays its sections once.
pub proof fn lemma_expanded_repeat(reg: RegistryV, root: Seq<(Seq<char>, DocV)>, at: Seq<(Seq<char>, DocV)>)
    requires
        phrased(reg, root) is Ok,
        get(root, "arrangement"@) == Some(DocV::Table(at)),
    ensures
        phrased(reg, root)->Ok_0.0 matches DocV::Table(rt) && get(rt, "arrangement"@) matches Some(DocV::Table(art))
            && get(art, "repeat"@) == Some(DocV::Bool(get(at, "repeat"@) == Some(DocV::Bool(true)))),
{
    reveal_strlit("phrases");
    reveal_strlit("arrangement");
    reveal_strlit("repeat");
    assert("phrases"@.len() != "arrangement"@.len());
    let r1 = without(root, "phrases"@);
    lemma_without_keeps(root, "phrases"@, "arrangement"@);
    assert(get(r1, "arrangement"@) == Some(DocV::Table(at)));
    lemma_repeat_only_when_asked(at);
    let d = definitions_of(root)->Ok_0;
    let r2 = without(r1, "arrangement"@);
    let (ps, g1) = phrases_from(reg, d, DocV::Table(r2), d.len() as int)->Ok_0;
    let (res, g2) = flat(reg, r2)->Ok_0;
    let (rep, es) = sequence_of(DocV::Table(at))->Ok_0;
    let (secs, g3) = sections_from(reg, d, ps, es, es.len() as int)->Ok_0;
    assert(res is Table);
    let art = seq![("repeat"@, DocV::Bool(rep)), ("sections"@, DocV::Array(secs))];
    super::doc::lemma_put_get(res->Table_0, "arrangement"@, DocV::Table(art));
    super::doc::lemma_pos_exact(art, "repeat"@, 0);
}

fn phrase_key_exec(k: &str) -> (r: bool)
    ensures
        r == phrase_key(k@),
{
    same_text(k, "use") || same_text(k, "seed") || same_text(k, "phrase_bars") || same_text(k, "parts")
        || same_text(k, "part") || same_text(k, "accents")
}

fn stack_has(stack: &Vec<String>, name: &str) -> (r: bool)
    ensures
        r == strings_view(stack@).contains(name@),
{
    let mut i: usize = 0;
    while i < stack.len()
        invariant
            i <= stack@.len(),
            forall|j: int| 0 <= j < i ==> (#[trigger] stack@[j])@ != name@,
        decreases stack@.len() - i,
    {
        if same_text(stack[i].as_str(), name) {
            proof {
                assert(strings_view(stack@)[i as int] == name@);
            }
            return true;
        }
        i += 1;
    }
    proof {
        assert forall|j: int| 0 <= j < strings_view(stack@).len() implies strings_view(stack@)[j] != name@ by {
            assert(stack@[j]@ != name@);
        }
    }
    false
}

/// Derives phrase `name`, as `derived` says.
#[verifier::loop_isolation(false)]
pub fn derive(name: &str, defs: &Vec<(String, Doc)>, base: &Doc, stack: &Vec<String>) -> (r: Result<Doc, String>)
    ensures
        match derived(name@, entries_view(defs@), base@, strings_view(stack@)) {
            Ok(v) => r matches Ok(x) && x@ == v,
            Err(e) => r matches Err(m) && m@ == e,
        },
    decreases 17 - stack@.len(),
{
    proof {
        reveal_strlit("phrase dependency cycle or excessive depth: ");
        reveal_strlit(" -> ");
        reveal_strlit("phrase ");
        reveal_strlit(" only accepts use, seed, phrase_bars, parts and accents");
        reveal_strlit("use");
        reveal_strlit("phrase.use must be a phrase name");
        reveal_strlit("unknown phrase ");
        assert(strings_view(stack@).len() == stack@.len());
    }
    if stack.len() >= 16 || stack_has(stack, name) {
        let mut m = String::from_str("phrase dependency cycle or excessive depth: ");
        push_joined(&mut m, stack, " -> ");
        m.append(" -> ");
        m.append(name);
        return Err(m);
    }
    let local = match copy_of(defs, name) {
        Some(Doc::Table(t)) => t,
        _ => {
            let mut m = String::from_str("unknown phrase ");
            let q = quoted(name);
            m.append(q.as_str());
            return Err(m);
        },
    };
    proof {
        lemma_entries_view(local@);
    }
    let mut i: usize = 0;
    while i < local.len()
        invariant
            i <= local@.len(),
            entries_view(local@).len() == local@.len(),
            forall|j: int| 0 <= j < local@.len() ==> #[trigger] entries_view(local@)[j] == (local@[j].0@, super::doc::doc_view(local@[j].1)),
            forall|j: int| 0 <= j < i ==> phrase_key(#[trigger] entries_view(local@)[j].0),
        decreases local@.len() - i,
    {
        if !phrase_key_exec(local[i].0.as_str()) {
            proof {
                assert(!phrase_key(entries_view(local@)[i as int].0));
            }
            let mut m = String::from_str("phrase ");
            let q = quoted(name);
            m.append(q.as_str());
            m.append(" only accepts use, seed, phrase_bars, parts and accents");
            return Err(m);
        }
        i += 1;
    }
    let mut local = local;
    let parent = match take_key(&mut local, "use") {
        Some(Doc::Str(p)) => {
            let next = pushed(stack, name);
            proof {
                assert(strings_view(next@).len() == next@.len());
                assert(next@.len() == stack@.len() + 1);
            }
            match derive(p.as_str(), defs, base, &next) {
                Ok(d) => d,
                Err(e) => {
                    return Err(e);
                },
            }
        },
        Some(_) => {
            return Err(String::from_str("phrase.use must be a phrase name"));
        },
        None => copy_doc(base),
    };
    Ok(merge(parent, Doc::Table(local)))
}

/// The phrase definitions of a composition table: at most 64, each with a name.
pub open spec fn definitions_of(root: Seq<(Seq<char>, DocV)>) -> Result<Seq<(Seq<char>, DocV)>, Seq<char>> {
    match get(root, "phrases"@) {
        None => Ok(Seq::empty()),
        Some(DocV::Table(d)) => if d.len() > 64 || exists|i: int| 0 <= i < d.len() && blank(#[trigger] d[i].0) {
            Err("phrases requires at most 64 nonempty names"@)
        } else {
            Ok(d)
        },
        Some(_) => Err("phrases must be named tables"@),
    }
}

pub type GapV = (Seq<char>, Seq<char>, Seq<Seq<char>>);

/// The first `n` phrases derived and expanded, by name, with the gaps they leave.
pub open spec fn phrases_from(reg: RegistryV, d: Seq<(Seq<char>, DocV)>, base: DocV, n: int) -> Result<(Seq<(Seq<char>, DocV)>, Seq<GapV>), Seq<char>>
    decreases n,
{
    if n <= 0 || n > d.len() {
        Ok((Seq::empty(), Seq::empty()))
    } else {
        match phrases_from(reg, d, base, n - 1) {
            Err(e) => Err(e),
            Ok((ps, gs)) => {
                let name = d[n - 1].0;
                match derived(name, d, base, Seq::empty()) {
                    Err(e) => Err(e),
                    Ok(DocV::Table(t)) => match flat(reg, t) {
                        Err(e) => Err("phrase "@ + debug_str(name) + ": "@ + e),
                        Ok((v, g)) => Ok((ps.push((name, v)), gs + g)),
                    },
                    Ok(_) => Err("expected a TOML table"@),
                }
            },
        }
    }
}

/// One arrangement entry as written.
pub struct EntryV {
    pub phrase: Seq<char>,
    pub bars: Option<u32>,
    pub phase: Seq<char>,
    pub repeat: u32,
    pub composition: Option<DocV>,
}

pub open spec fn entry_key(k: Seq<char>) -> bool {
    k == "phrase"@ || k == "bars"@ || k == "phase"@ || k == "repeat"@ || k == "composition"@
}

/// An arrangement entry read: a phrase name, optional bars, a phase policy (`restart` unless
/// given), a repeat count (1 unless given) and an optional composition of its own.
pub open spec fn entry_of(e: DocV) -> Result<EntryV, Seq<char>> {
    match e {
        DocV::Table(t) => if exists|i: int| 0 <= i < t.len() && !entry_key(#[trigger] t[i].0) {
            Err("an arrangement section accepts only phrase, bars, phase, repeat and composition"@)
        } else {
            match get(t, "phrase"@) {
                Some(DocV::Str(phrase)) => {
                    let bars = match get(t, "bars"@) {
                        None => Ok(None),
                        Some(DocV::Int(b)) => if 0 <= b <= u32::MAX { Ok(Some(b as u32)) } else { Err("section.bars must be a whole number of bars"@) },
                        Some(_) => Err("section.bars must be a whole number of bars"@),
                    };
                    let phase = match get(t, "phase"@) {
                        None => Ok("restart"@),
                        Some(DocV::Str(p)) => if p == "restart"@ || p == "continue"@ { Ok(p) } else { Err("section.phase must be restart or continue"@) },
                        Some(_) => Err("section.phase must be restart or continue"@),
                    };
                    let repeat = match get(t, "repeat"@) {
                        None => Ok(1u32),
                        Some(DocV::Int(r)) => if 0 <= r <= u32::MAX { Ok(r as u32) } else { Err("section.repeat must be a whole number"@) },
                        Some(_) => Err("section.repeat must be a whole number"@),
                    };
                    match (bars, phase, repeat) {
                        (Err(e), _, _) => Err(e),
                        (_, Err(e), _) => Err(e),
                        (_, _, Err(e)) => Err(e),
                        (Ok(b), Ok(p), Ok(r)) => Ok(EntryV { phrase, bars: b, phase: p, repeat: r, composition: get(t, "composition"@) }),
                    }
                },
                Some(_) => Err("section.phrase must be a phrase name"@),
                None => Err("an arrangement section needs a phrase"@),
            }
        },
        _ => Err("an arrangement section must be a table"@),
    }
}

/// The first `n` entries read.
pub open spec fn entries_from(items: Seq<DocV>, n: int) -> Result<Seq<EntryV>, Seq<char>>
    decreases n,
{
    if n <= 0 || n > items.len() {
        Ok(Seq::empty())
    } else {
        match entries_from(items, n - 1) {
            Err(e) => Err(e),
            Ok(es) => match entry_of(items[n - 1]) {
                Err(e) => Err(e),
                Ok(x) => Ok(es.push(x)),
            },
        }
    }
}

/// An `[arrangement]` read: whether it repeats, and its entries.
pub open spec fn sequence_of(s: DocV) -> Result<(bool, Seq<EntryV>), Seq<char>> {
    match s {
        DocV::Table(t) => if exists|i: int| 0 <= i < t.len() && !(t[i].0 == "repeat"@ || t[i].0 == "sections"@) {
            Err("arrangement accepts only repeat and sections"@)
        } else {
            let repeat = match get(t, "repeat"@) {
                None => Ok(false),
                Some(DocV::Bool(b)) => Ok(b),
                Some(_) => Err("arrangement.repeat must be true or false"@),
            };
            match repeat {
                Err(e) => Err(e),
                Ok(rep) => match get(t, "sections"@) {
                    Some(DocV::Array(items)) => match entries_from(items, items.len() as int) {
                        Err(e) => Err(e),
                        Ok(es) => Ok((rep, es)),
                    },
                    Some(_) => Err("arrangement.sections must be a list of sections"@),
                    None => Err("arrangement needs sections"@),
                },
            }
        },
        _ => Err("arrangement must be a table"@),
    }
}

/// The bars a section plays: its own, or its composition's phrase length, or four.
pub open spec fn bars_of(e: EntryV, value: DocV) -> u32 {
    match e.bars {
        Some(b) => b,
        None => match value {
            DocV::Table(t) => match get(t, "phrase_bars"@) {
                Some(DocV::Int(i)) => i as u32,
                _ => 4,
            },
            _ => 4,
        },
    }
}

pub open spec fn section_doc(e: EntryV, value: DocV) -> DocV {
    DocV::Table(seq![
        ("phrase"@, DocV::Str(e.phrase)),
        ("bars"@, DocV::Int(bars_of(e, value) as i64)),
        ("phase"@, DocV::Str(e.phase)),
        ("composition"@, value),
    ])
}

pub open spec fn repeat_limit_text() -> Seq<char> {
    "expanded arrangement requires 1..64 sections; entry repeat must be 1..64"@
}

/// The composition entry `e` plays, with the gaps expanding it leaves.
pub open spec fn section_value(reg: RegistryV, d: Seq<(Seq<char>, DocV)>, ps: Seq<(Seq<char>, DocV)>, e: EntryV) -> Result<(DocV, Seq<GapV>), Seq<char>> {
    match e.composition {
        Some(c) => if has_key(d, e.phrase) {
            Err("choose a phrase reference or expanded composition, not both"@)
        } else {
            match c {
                DocV::Table(t) => flat(reg, t),
                _ => Err("section.composition must be a table"@),
            }
        },
        None => match get(ps, e.phrase) {
            Some(v) => Ok((v, Seq::empty())),
            None => Err("unknown arrangement phrase "@ + debug_str(e.phrase)),
        },
    }
}

/// The sections of the first `n` entries, each repeated, with the gaps they leave.
pub open spec fn sections_from(reg: RegistryV, d: Seq<(Seq<char>, DocV)>, ps: Seq<(Seq<char>, DocV)>, es: Seq<EntryV>, n: int) -> Result<(Seq<DocV>, Seq<GapV>), Seq<char>>
    decreases n,
{
    if n <= 0 || n > es.len() {
        Ok((Seq::empty(), Seq::empty()))
    } else {
        match sections_from(reg, d, ps, es, n - 1) {
            Err(e) => Err(e),
            Ok((secs, gs)) => {
                let e = es[n - 1];
                if e.repeat == 0 || e.repeat > 64 || secs.len() + e.repeat > 64 {
                    Err(repeat_limit_text())
                } else {
                    match section_value(reg, d, ps, e) {
                        Err(x) => Err(x),
                        Ok((v, g)) => Ok((secs + Seq::new(e.repeat as nat, |i: int| section_doc(e, v)), gs + g)),
                    }
                }
            },
        }
    }
}

pub open spec fn with_arrangement(res: DocV, repeat: bool, secs: Seq<DocV>) -> DocV {
    match res {
        DocV::Table(t) => DocV::Table(put(t, "arrangement"@, DocV::Table(seq![
            ("repeat"@, DocV::Bool(repeat)),
            ("sections"@, DocV::Array(secs)),
        ]))),
        _ => res,
    }
}

/// A composition table with its phrases derived and expanded and its arrangement's sections
/// expanded, and the gaps every expansion leaves.
pub open spec fn phrased(reg: RegistryV, root: Seq<(Seq<char>, DocV)>) -> Result<(DocV, Seq<GapV>), Seq<char>> {
    match definitions_of(root) {
        Err(e) => Err(e),
        Ok(d) => {
            let r1 = without(root, "phrases"@);
            let sq = get(r1, "arrangement"@);
            let r2 = without(r1, "arrangement"@);
            match phrases_from(reg, d, DocV::Table(r2), d.len() as int) {
                Err(e) => Err(e),
                Ok((ps, g1)) => match flat(reg, r2) {
                    Err(e) => Err(e),
                    Ok((res, g2)) => match sq {
                        None => Ok((res, g1 + g2)),
                        Some(s) => match sequence_of(s) {
                            Err(e) => Err(e),
                            Ok((rep, es)) => if es.len() == 0 || es.len() > 64 {
                                Err("arrangement requires 1..64 sections"@)
                            } else {
                                match sections_from(reg, d, ps, es, es.len() as int) {
                                    Err(e) => Err(e),
                                    Ok((secs, g3)) => Ok((with_arrangement(res, rep, secs), g1 + g2 + g3)),
                                }
                            },
                        },
                    },
                },
            }
        },
    }
}

/// One arrangement entry.
pub struct Entry {
    pub phrase: String,
    pub bars: Option<u32>,
    pub phase: String,
    pub repeat: u32,
    pub composition: Option<Doc>,
}

pub open spec fn entry_view(e: Entry) -> EntryV {
    EntryV {
        phrase: e.phrase@,
        bars: e.bars,
        phase: e.phase@,
        repeat: e.repeat,
        composition: match e.composition {
            Some(c) => Some(c@),
            None => None,
        },
    }
}

fn entry_key_exec(k: &str) -> (r: bool)
    ensures
        r == entry_key(k@),
{
    same_text(k, "phrase") || same_text(k, "bars") || same_text(k, "phase") || same_text(k, "repeat")
        || same_text(k, "composition")
}

fn whole_u32(d: Option<Doc>) -> (r: Option<Option<u32>>)
    ensures
        match d {
            None => r == Some(None::<u32>),
            Some(x) => match x@ {
                DocV::Int(b) => if 0 <= b <= u32::MAX { r == Some(Some(b as u32)) } else { r is None },
                _ => r is None,
            },
        },
{
    match d {
        None => Some(None),
        Some(Doc::Int(b)) => {
            if 0 <= b && b <= 4294967295 {
                Some(Some(b as u32))
            } else {
                None
            }
        },
        Some(_) => None,
    }
}

/// Reads an arrangement entry, as `entry_of` says.
#[verifier::loop_isolation(false)]
fn read_entry(e: Doc) -> (r: Result<Entry, String>)
    ensures
        match entry_of(e@) {
            Ok(v) => r matches Ok(x) && entry_view(x) == v,
            Err(m) => r matches Err(x) && x@ == m,
        },
{
    proof {
        reveal_strlit("an arrangement section accepts only phrase, bars, phase, repeat and composition");
        reveal_strlit("phrase");
        reveal_strlit("bars");
        reveal_strlit("phase");
        reveal_strlit("repeat");
        reveal_strlit("composition");
        reveal_strlit("restart");
        reveal_strlit("continue");
        reveal_strlit("section.bars must be a whole number of bars");
        reveal_strlit("section.phase must be restart or continue");
        reveal_strlit("section.repeat must be a whole number");
        reveal_strlit("section.phrase must be a phrase name");
        reveal_strlit("an arrangement section needs a phrase");
        reveal_strlit("an arrangement section must be a table");
    }
    let mut t = match e {
        Doc::Table(t) => t,
        _ => {
            return Err(String::from_str("an arrangement section must be a table"));
        },
    };
    let ghost tv = entries_view(t@);
    proof {
        lemma_entries_view(t@);
    }
    let mut i: usize = 0;
    while i < t.len()
        invariant
            i <= t@.len(),
            tv == entries_view(t@),
            tv.len() == t@.len(),
            forall|j: int| 0 <= j < t@.len() ==> #[trigger] tv[j] == (t@[j].0@, super::doc::doc_view(t@[j].1)),
            forall|j: int| 0 <= j < i ==> entry_key(#[trigger] tv[j].0),
        decreases t@.len() - i,
    {
        if !entry_key_exec(t[i].0.as_str()) {
            proof {
                assert(!entry_key(tv[i as int].0));
            }
            return Err(String::from_str("an arrangement section accepts only phrase, bars, phase, repeat and composition"));
        }
        i += 1;
    }
    let phrase = match copy_of(&t, "phrase") {
        Some(Doc::Str(p)) => p,
        Some(_) => {
            return Err(String::from_str("section.phrase must be a phrase name"));
        },
        None => {
            return Err(String::from_str("an arrangement section needs a phrase"));
        },
    };
    let bars = match whole_u32(copy_of(&t, "bars")) {
        Some(b) => b,
        None => {
            return Err(String::from_str("section.bars must be a whole number of bars"));
        },
    };
    let phase = match copy_of(&t, "phase") {
        None => String::from_str("restart"),
        Some(Doc::Str(p)) => {
            if same_text(p.as_str(), "restart") || same_text(p.as_str(), "continue") {
                p
            } else {
                return Err(String::from_str("section.phase must be restart or continue"));
            }
        },
        Some(_) => {
            return Err(String::from_str("section.phase must be restart or continue"));
        },
    };
    let repeat = match whole_u32(copy_of(&t, "repeat")) {
        Some(Some(r)) => r,
        Some(None) => 1,
        None => {
            return Err(String::from_str("section.repeat must be a whole number"));
        },
    };
    let composition = take_key(&mut t, "composition");
    Ok(Entry { phrase, bars, phase, repeat, composition })
}

proof fn lemma_entries_refused(items: Seq<DocV>, n: int, m: int)
    requires
        0 <= n <= m <= items.len(),
        entries_from(items, n) is Err,
    ensures
        entries_from(items, m) == entries_from(items, n),
    decreases m - n,
{
    if n < m {
        lemma_entries_refused(items, n, m - 1);
    }
}

pub open spec fn entries_view_of(v: Seq<Entry>) -> Seq<EntryV> {
    v.map_values(|e: Entry| entry_view(e))
}

/// Reads an `[arrangement]`, as `sequence_of` says.
#[verifier::loop_isolation(false)]
fn read_sequence(s: Doc) -> (r: Result<(bool, Vec<Entry>), String>)
    ensures
        match sequence_of(s@) {
            Ok(v) => r matches Ok(x) && x.0 == v.0 && entries_view_of(x.1@) == v.1,
            Err(m) => r matches Err(x) && x@ == m,
        },
{
    proof {
        reveal_strlit("arrangement accepts only repeat and sections");
        reveal_strlit("repeat");
        reveal_strlit("sections");
        reveal_strlit("arrangement.repeat must be true or false");
        reveal_strlit("arrangement.sections must be a list of sections");
        reveal_strlit("arrangement needs sections");
        reveal_strlit("arrangement must be a table");
    }
    let mut t = match s {
        Doc::Table(t) => t,
        _ => {
            return Err(String::from_str("arrangement must be a table"));
        },
    };
    let ghost tv = entries_view(t@);
    proof {
        lemma_entries_view(t@);
    }
    let mut i: usize = 0;
    while i < t.len()
        invariant
            i <= t@.len(),
            tv == entries_view(t@),
            tv.len() == t@.len(),
            forall|j: int| 0 <= j < t@.len() ==> #[trigger] tv[j] == (t@[j].0@, super::doc::doc_view(t@[j].1)),
            forall|j: int| 0 <= j < i ==> (#[trigger] tv[j].0 == "repeat"@ || tv[j].0 == "sections"@),
        decreases t@.len() - i,
    {
        if !(same_text(t[i].0.as_str(), "repeat") || same_text(t[i].0.as_str(), "sections")) {
            proof {
                assert(!(tv[i as int].0 == "repeat"@ || tv[i as int].0 == "sections"@));
            }
            return Err(String::from_str("arrangement accepts only repeat and sections"));
        }
        i += 1;
    }
    let repeat = match copy_of(&t, "repeat") {
        None => false,
        Some(Doc::Bool(b)) => b,
        Some(_) => {
            return Err(String::from_str("arrangement.repeat must be true or false"));
        },
    };
    let items = match take_key(&mut t, "sections") {
        Some(Doc::Array(items)) => items,
        Some(_) => {
            return Err(String::from_str("arrangement.sections must be a list of sections"));
        },
        None => {
            return Err(String::from_str("arrangement needs sections"));
        },
    };
    proof {
        super::doc::lemma_items_view(items@);
    }
    let ghost iv = super::doc::items_view(items@);
    let mut rest = items;
    let ghost all = rest@;
    let total = rest.len();
    let mut out: Vec<Entry> = Vec::new();
    let mut n: usize = 0;
    proof {
        assert(entries_view_of(out@) =~= Seq::<EntryV>::empty());
    }
    while rest.len() > 0
        invariant
            n <= all.len(),
            all.len() == total,
            rest@ == all.skip(n as int),
            iv == super::doc::items_view(all),
            iv.len() == all.len(),
            forall|j: int| 0 <= j < all.len() ==> #[trigger] iv[j] == super::doc::doc_view(all[j]),
            out@.len() == n,
            entries_from(iv, n as int) == Ok::<Seq<EntryV>, Seq<char>>(entries_view_of(out@)),
        decreases rest@.len(),
    {
        let x = rest.remove(0);
        proof {
            assert(all[n as int] == x);
            assert(all.skip(n as int).remove(0) =~= all.skip(n + 1));
        }
        match read_entry(x) {
            Ok(en) => {
                let ghost before = out@;
                out.push(en);
                proof {
                    assert(entries_view_of(out@) =~= entries_view_of(before).push(entry_view(out@[n as int])));
                }
            },
            Err(e) => {
                proof {
                    lemma_entries_refused(iv, n + 1, all.len() as int);
                }
                return Err(e);
            },
        }
        n = n + 1;
    }
    Ok((repeat, out))
}

proof fn lemma_phrases_refused(reg: RegistryV, d: Seq<(Seq<char>, DocV)>, base: DocV, n: int, m: int)
    requires
        0 <= n <= m <= d.len(),
        phrases_from(reg, d, base, n) is Err,
    ensures
        phrases_from(reg, d, base, m) == phrases_from(reg, d, base, n),
    decreases m - n,
{
    if n < m {
        lemma_phrases_refused(reg, d, base, n, m - 1);
    }
}

proof fn lemma_sections_refused(reg: RegistryV, d: Seq<(Seq<char>, DocV)>, ps: Seq<(Seq<char>, DocV)>, es: Seq<EntryV>, n: int, m: int)
    requires
        0 <= n <= m <= es.len(),
        sections_from(reg, d, ps, es, n) is Err,
    ensures
        sections_from(reg, d, ps, es, m) == sections_from(reg, d, ps, es, n),
    decreases m - n,
{
    if n < m {
        lemma_sections_refused(reg, d, ps, es, n, m - 1);
    }
}

impl Registry {
    /// Derives and expands every phrase definition, in order, as `phrases_from` says.
    #[verifier::loop_isolation(false)]
    fn expand_definitions(&self, d: &Vec<(String, Doc)>, base: &Doc) -> (r: Result<(Vec<(String, Doc)>, Vec<Gap>), String>)
        ensures
            match phrases_from(self@, entries_view(d@), base@, d@.len() as int) {
                Ok(v) => r matches Ok(x) && entries_view(x.0@) == v.0 && gaps_view(x.1@) == v.1,
                Err(e) => r matches Err(m) && m@ == e,
            },
    {
        proof {
            reveal_strlit("phrase ");
            reveal_strlit(": ");
            reveal_strlit("expected a TOML table");
            lemma_entries_view(d@);
        }
        let ghost dv = entries_view(d@);
        let mut out: Vec<(String, Doc)> = Vec::new();
        let mut gaps: Vec<Gap> = Vec::new();
        let empty: Vec<String> = Vec::new();
        proof {
            assert(strings_view(empty@) =~= Seq::<Seq<char>>::empty());
            assert(entries_view(out@) =~= Seq::empty());
            assert(gaps_view(gaps@) =~= Seq::empty());
        }
        let mut i: usize = 0;
        while i < d.len()
            invariant
                i <= d@.len(),
                dv == entries_view(d@),
                dv.len() == d@.len(),
                forall|j: int| 0 <= j < d@.len() ==> #[trigger] dv[j] == (d@[j].0@, super::doc::doc_view(d@[j].1)),
                strings_view(empty@) == Seq::<Seq<char>>::empty(),
                phrases_from(self@, dv, base@, i as int) == Ok::<(Seq<(Seq<char>, DocV)>, Seq<GapV>), Seq<char>>(
                    (entries_view(out@), gaps_view(gaps@))),
            decreases d@.len() - i,
        {
            let name = d[i].0.as_str();
            let raw = match derive(name, d, base, &empty) {
                Ok(r) => r,
                Err(e) => {
                    proof {
                        lemma_phrases_refused(self@, dv, base@, i + 1, dv.len() as int);
                    }
                    return Err(e);
                },
            };
            let t = match raw {
                Doc::Table(t) => t,
                _ => {
                    proof {
                        lemma_phrases_refused(self@, dv, base@, i + 1, dv.len() as int);
                    }
                    return Err(String::from_str("expected a TOML table"));
                },
            };
            match self.expand_flat(t) {
                Ok((v, mut g)) => {
                    let ghost before = out@;
                    let ghost gb = gaps_view(gaps@);
                    let ghost gg = gaps_view(g@);
                    let ghost vv = v@;
                    out.push((d[i].0.clone(), v));
                    gaps.append(&mut g);
                    proof {
                        lemma_entries_view(before);
                        super::doc::lemma_entries_view_from(out@, entries_view(before).push((dv[i as int].0, vv)));
                        assert(gaps_view(gaps@) =~= gb + gg);
                    }
                },
                Err(e) => {
                    let mut m = String::from_str("phrase ");
                    let q = quoted(name);
                    m.append(q.as_str());
                    m.append(": ");
                    m.append(e.as_str());
                    proof {
                        lemma_phrases_refused(self@, dv, base@, i + 1, dv.len() as int);
                    }
                    return Err(m);
                },
            }
            i += 1;
        }
        Ok((out, gaps))
    }
}

fn bars_exec(bars: Option<u32>, value: &Doc) -> (r: u32)
    ensures
        r == (match bars {
            Some(b) => b,
            None => match value@ {
                DocV::Table(t) => match get(t, "phrase_bars"@) {
                    Some(DocV::Int(i)) => i as u32,
                    _ => 4u32,
                },
                _ => 4u32,
            },
        }),
{
    proof {
        reveal_strlit("phrase_bars");
    }
    match bars {
        Some(b) => b,
        None => match value {
            Doc::Table(t) => {
                proof {
                    lemma_entries_view(t@);
                }
                match position(t, "phrase_bars") {
                    Some(i) => match &t[i].1 {
                        Doc::Int(v) => *v as u32,
                        _ => 4,
                    },
                    None => 4,
                }
            },
            _ => 4,
        },
    }
}

fn section_exec(phrase: &String, bars: u32, phase: &String, value: &Doc) -> (r: Doc)
    ensures
        r@ == DocV::Table(seq![
            ("phrase"@, DocV::Str(phrase@)),
            ("bars"@, DocV::Int(bars as i64)),
            ("phase"@, DocV::Str(phase@)),
            ("composition"@, value@),
        ]),
{
    proof {
        reveal_strlit("phrase");
        reveal_strlit("bars");
        reveal_strlit("phase");
        reveal_strlit("composition");
    }
    let mut t: Vec<(String, Doc)> = Vec::new();
    t.push((String::from_str("phrase"), Doc::Str(phrase.clone())));
    t.push((String::from_str("bars"), Doc::Int(bars as i64)));
    t.push((String::from_str("phase"), Doc::Str(phase.clone())));
    t.push((String::from_str("composition"), copy_doc(value)));
    proof {
        super::doc::lemma_entries_view_from(t@, seq![
            ("phrase"@, DocV::Str(phrase@)),
            ("bars"@, DocV::Int(bars as i64)),
            ("phase"@, DocV::Str(phase@)),
            ("composition"@, value@),
        ]);
    }
    Doc::Table(t)
}

impl Registry {
    fn section_value_exec(&self, d: &Vec<(String, Doc)>, ps: &Vec<(String, Doc)>, phrase: &String, composition: Option<Doc>) -> (r: Result<(Doc, Vec<Gap>), String>)
        ensures
            match section_value(self@, entries_view(d@), entries_view(ps@), EntryV {
                phrase: phrase@,
                bars: None,
                phase: Seq::empty(),
                repeat: 0,
                composition: match composition { Some(c) => Some(c@), None => None },
            }) {
                Ok(v) => r matches Ok(x) && x.0@ == v.0 && gaps_view(x.1@) == v.1,
                Err(e) => r matches Err(m) && m@ == e,
            },
    {
        proof {
            reveal_strlit("choose a phrase reference or expanded composition, not both");
            reveal_strlit("section.composition must be a table");
            reveal_strlit("unknown arrangement phrase ");
        }
        match composition {
            Some(c) => {
                if position(d, phrase.as_str()).is_some() {
                    return Err(String::from_str("choose a phrase reference or expanded composition, not both"));
                }
                match c {
                    Doc::Table(t) => self.expand_flat(t),
                    _ => Err(String::from_str("section.composition must be a table")),
                }
            },
            None => match copy_of(ps, phrase.as_str()) {
                Some(v) => {
                    let g: Vec<Gap> = Vec::new();
                    proof {
                        assert(gaps_view(g@) =~= Seq::empty());
                    }
                    Ok((v, g))
                },
                None => {
                    let mut m = String::from_str("unknown arrangement phrase ");
                    let q = quoted(phrase.as_str());
                    m.append(q.as_str());
                    Err(m)
                },
            },
        }
    }

    /// The sections of the entries, as `sections_from` says.
    #[verifier::loop_isolation(false)]
    fn expand_sections(&self, d: &Vec<(String, Doc)>, ps: &Vec<(String, Doc)>, es: Vec<Entry>) -> (r: Result<(Vec<Doc>, Vec<Gap>), String>)
        ensures
            match sections_from(self@, entries_view(d@), entries_view(ps@), entries_view_of(es@), es@.len() as int) {
                Ok(v) => r matches Ok(x) && super::doc::items_view(x.0@) == v.0 && gaps_view(x.1@) == v.1,
                Err(e) => r matches Err(m) && m@ == e,
            },
    {
        proof {
            reveal_strlit("expanded arrangement requires 1..64 sections; entry repeat must be 1..64");
        }
        let ghost ev = entries_view_of(es@);
        let mut rest = es;
        let ghost all = rest@;
        let total = rest.len();
        let mut out: Vec<Doc> = Vec::new();
        let mut gaps: Vec<Gap> = Vec::new();
        proof {
            assert(super::doc::items_view(out@) =~= Seq::empty());
            assert(gaps_view(gaps@) =~= Seq::empty());
        }
        let mut n: usize = 0;
        while rest.len() > 0
            invariant
                n <= all.len(),
                all.len() == total,
                rest@ == all.skip(n as int),
                ev == entries_view_of(all),
                out@.len() <= 64,
                sections_from(self@, entries_view(d@), entries_view(ps@), ev, n as int)
                    == Ok::<(Seq<DocV>, Seq<GapV>), Seq<char>>((super::doc::items_view(out@), gaps_view(gaps@))),
            decreases rest@.len(),
        {
            let e = rest.remove(0);
            proof {
                assert(all[n as int] == e);
                assert(ev[n as int] == entry_view(e));
                assert(all.skip(n as int).remove(0) =~= all.skip(n + 1));
                super::doc::lemma_items_view(out@);
            }
            if e.repeat == 0 || e.repeat > 64 || out.len() + (e.repeat as usize) > 64 {
                proof {
                    lemma_sections_refused(self@, entries_view(d@), entries_view(ps@), ev, n + 1, all.len() as int);
                }
                return Err(String::from_str("expanded arrangement requires 1..64 sections; entry repeat must be 1..64"));
            }
            let (value, mut g) = match self.section_value_exec(d, ps, &e.phrase, e.composition) {
                Ok(v) => v,
                Err(m) => {
                    proof {
                        lemma_sections_refused(self@, entries_view(d@), entries_view(ps@), ev, n + 1, all.len() as int);
                    }
                    return Err(m);
                },
            };
            let bars = bars_exec(e.bars, &value);
            let section = section_exec(&e.phrase, bars, &e.phase, &value);
            let ghost sv = section@;
            let ghost before = out@;
            let mut k: u32 = 0;
            while k < e.repeat
                invariant
                    k <= e.repeat,
                    out@.len() == before.len() + k,
                    out@.subrange(0, before.len() as int) == before,
                    forall|j: int| before.len() <= j < out@.len() ==> super::doc::doc_view(#[trigger] out@[j]) == sv,
                decreases e.repeat - k,
            {
                let c = copy_doc(&section);
                let ghost prior = out@;
                out.push(c);
                proof {
                    assert(out@.subrange(0, before.len() as int) =~= prior.subrange(0, before.len() as int));
                }
                k += 1;
            }
            proof {
                super::doc::lemma_items_view(before);
                super::doc::lemma_items_view(out@);
                assert(super::doc::items_view(out@) =~= super::doc::items_view(before)
                    + Seq::new(e.repeat as nat, |i: int| section_doc(entry_view(e), value@)));
            }
            let ghost gb = gaps_view(gaps@);
            let ghost gg = gaps_view(g@);
            gaps.append(&mut g);
            proof {
                assert(gaps_view(gaps@) =~= gb + gg);
            }
            n = n + 1;
        }
        Ok((out, gaps))
    }
}

fn arrangement_doc(res: Doc, repeat: bool, secs: Vec<Doc>) -> (r: Doc)
    ensures
        r@ == with_arrangement(res@, repeat, super::doc::items_view(secs@)),
{
    proof {
        reveal_strlit("arrangement");
        reveal_strlit("repeat");
        reveal_strlit("sections");
    }
    match res {
        Doc::Table(t) => {
            let mut t = t;
            let mut a: Vec<(String, Doc)> = Vec::new();
            let ghost sv = super::doc::items_view(secs@);
            a.push((String::from_str("repeat"), Doc::Bool(repeat)));
            a.push((String::from_str("sections"), Doc::Array(secs)));
            proof {
                super::doc::lemma_entries_view_from(a@, seq![("repeat"@, DocV::Bool(repeat)), ("sections"@, DocV::Array(sv))]);
            }
            put_key(&mut t, String::from_str("arrangement"), Doc::Table(a));
            Doc::Table(t)
        },
        other => other,
    }
}

impl Registry {
    /// Expands a composition table with its phrases and arrangement, as `phrased` says.
    #[verifier::loop_isolation(false)]
    pub fn expand_phrased(&self, root: Vec<(String, Doc)>) -> (r: Result<(Doc, Vec<Gap>), String>)
        ensures
            match phrased(self@, entries_view(root@)) {
                Ok(v) => r matches Ok(x) && x.0@ == v.0 && gaps_view(x.1@) == v.1,
                Err(e) => r matches Err(m) && m@ == e,
            },
    {
        proof {
            reveal_strlit("phrases");
            reveal_strlit("arrangement");
            reveal_strlit("phrases requires at most 64 nonempty names");
            reveal_strlit("phrases must be named tables");
            reveal_strlit("arrangement requires 1..64 sections");
        }
        let mut root = root;
        let defs = match take_key(&mut root, "phrases") {
            None => Vec::new(),
            Some(Doc::Table(d)) => d,
            Some(_) => {
                return Err(String::from_str("phrases must be named tables"));
            },
        };
        proof {
            lemma_entries_view(defs@);
        }
        if defs.len() > 64 {
            return Err(String::from_str("phrases requires at most 64 nonempty names"));
        }
        let mut i: usize = 0;
        while i < defs.len()
            invariant
                i <= defs@.len(),
                entries_view(defs@).len() == defs@.len(),
                forall|j: int| 0 <= j < defs@.len() ==> #[trigger] entries_view(defs@)[j] == (defs@[j].0@, super::doc::doc_view(defs@[j].1)),
                forall|j: int| 0 <= j < i ==> !blank(#[trigger] entries_view(defs@)[j].0),
            decreases defs@.len() - i,
        {
            if is_blank(defs[i].0.as_str()) {
                proof {
                    assert(blank(entries_view(defs@)[i as int].0));
                }
                return Err(String::from_str("phrases requires at most 64 nonempty names"));
            }
            i += 1;
        }
        let sequence = take_key(&mut root, "arrangement");
        let base = Doc::Table(root);
        let (ps, mut g1) = match self.expand_definitions(&defs, &base) {
            Ok(v) => v,
            Err(e) => {
                return Err(e);
            },
        };
        let root = match base {
            Doc::Table(t) => t,
            _ => Vec::new(),
        };
        let (res, mut g2) = match self.expand_flat(root) {
            Ok(v) => v,
            Err(e) => {
                return Err(e);
            },
        };
        let ghost a = gaps_view(g1@);
        let ghost b = gaps_view(g2@);
        g1.append(&mut g2);
        proof {
            assert(gaps_view(g1@) =~= a + b);
        }
        let s = match sequence {
            None => {
                return Ok((res, g1));
            },
            Some(s) => s,
        };
        let (repeat, es) = match read_sequence(s) {
            Ok(v) => v,
            Err(e) => {
                return Err(e);
            },
        };
        if es.len() == 0 || es.len() > 64 {
            return Err(String::from_str("arrangement requires 1..64 sections"));
        }
        let (secs, mut g3) = match self.expand_sections(&defs, &ps, es) {
            Ok(v) => v,
            Err(e) => {
                return Err(e);
            },
        };
        let ghost c = gaps_view(g1@);
        let ghost dd = gaps_view(g3@);
        g1.append(&mut g3);
        proof {
            assert(gaps_view(g1@) =~= c + dd);
        }
        Ok((arrangement_doc(res, repeat, secs), g1))
    }
}

} // verus!
