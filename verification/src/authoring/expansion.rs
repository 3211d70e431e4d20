//! Library expansion: an authored composition names behaviors, profiles and kit instruments
//! from libraries, and expands into concrete Parts before anything is typed. Libraries load
//! in order; a name is defined once; `use` and `compose` inherit, a kit binding replaces the
//! output, and the Part's own fields overlay what it inherits. A kit instrument that declares
//! no controls leaves the controls a Part addresses as gaps.
use vstd::prelude::*;

use super::doc::{
    copy_doc, entries_view, get, has_key, lemma_entries_view, lemma_pos, merge, merged, pos, position, put,
    put_key, take_key, without, Doc, DocV, lemma_overlay_wins, lemma_merged_key, lemma_without_keeps, unique_keys,
};
use super::syntax::{behavior_normal, normalize_behavior};
use super::gap_order::{collect_gaps, gap_keys, gaps_ascending};
use super::library::{joined, push_joined, refuse, refusal, strings_view, Gap};
use super::syntax::{normalize_rhythm, rhythm_normal};
use crate::text::{blank, debug_str, is_blank, quoted, same_text};

verus! {

/// The document a TOML text parses to, a table, or the parser's error.
pub uninterp spec fn toml_table(text: Seq<char>) -> Result<DocV, Seq<char>>;

#[verifier::external_type_specification]
#[verifier::external_body]
pub struct ExTomlValue(toml::Value);

/// A parsed TOML value as a document: a float by its bits, a date-time by its text.
#[verifier::external_body]
fn doc_of(v: toml::Value) -> Doc {
    match v {
        toml::Value::String(s) => Doc::Str(s),
        toml::Value::Integer(i) => Doc::Int(i),
        toml::Value::Float(f) => Doc::Float(f.to_bits()),
        toml::Value::Boolean(b) => Doc::Bool(b),
        toml::Value::Datetime(d) => Doc::Time(d.to_string()),
        toml::Value::Array(a) => Doc::Array(a.into_iter().map(doc_of).collect()),
        toml::Value::Table(t) => Doc::Table(t.into_iter().map(|(k, v)| (k, doc_of(v))).collect()),
    }
}

/// `toml::from_str::<toml::Table>`: parses a TOML text into its top-level table, or gives the
/// parser's error text. The result is named, not stated: a table whenever it parses.
#[verifier::external_body]
pub fn parse_toml(text: &str) -> (r: Result<Doc, String>)
    ensures
        match toml_table(text@) {
            Ok(d) => r matches Ok(x) && x@ == d,
            Err(m) => r matches Err(e) && e@ == m,
        },
        r matches Ok(x) ==> x@ is Table,
{
    match toml::from_str::<toml::Table>(text) {
        Ok(t) => Ok(doc_of(toml::Value::Table(t))),
        Err(e) => Err(e.to_string()),
    }
}

/// `field` read as a list of names: an array of strings.
pub open spec fn names_of(v: DocV, field: Seq<char>) -> Result<Seq<Seq<char>>, Seq<char>> {
    match v {
        DocV::Array(items) => if forall|i: int| 0 <= i < items.len() ==> (#[trigger] items[i]) is Str {
            Ok(Seq::new(items.len(), |i: int| items[i]->Str_0))
        } else {
            Err(field + " entries must be strings"@)
        },
        _ => Err(field + " must be an array of names"@),
    }
}

/// The names a list of names holds, or why it is not one.
pub fn names(value: &Doc, field: &str) -> (r: Result<Vec<String>, String>)
    ensures
        match names_of(value@, field@) {
            Ok(v) => r matches Ok(x) && strings_view(x@) == v,
            Err(e) => r matches Err(m) && m@ == e,
        },
{
    proof {
        reveal_strlit(" entries must be strings");
        reveal_strlit(" must be an array of names");
    }
    match value {
        Doc::Array(items) => {
            proof {
                super::doc::lemma_items_view(items@);
            }
            let ghost iv = super::doc::items_view(items@);
            let mut out: Vec<String> = Vec::new();
            let mut i: usize = 0;
            proof {
                assert(value@ == DocV::Array(iv));
                assert(strings_view(out@) =~= Seq::new(0nat, |j: int| iv[j]->Str_0));
            }
            while i < items.len()
                invariant
                    value@ == DocV::Array(iv),
                    i <= items@.len(),
                    iv == super::doc::items_view(items@),
                    iv.len() == items@.len(),
                    forall|j: int| 0 <= j < items@.len() ==> #[trigger] iv[j] == super::doc::doc_view(items@[j]),
                    forall|j: int| 0 <= j < i ==> (#[trigger] iv[j]) is Str,
                    strings_view(out@) == Seq::new(i as nat, |j: int| iv[j]->Str_0),
                decreases items@.len() - i,
            {
                match &items[i] {
                    Doc::Str(s) => {
                        let ghost before = strings_view(out@);
                        out.push(String::from_str(s.as_str()));
                        proof {
                            assert(iv[i as int] == DocV::Str(s@));
                            assert(strings_view(out@) =~= before.push(s@));
                        }
                    },
                    _ => {
                        proof {
                            assert(!(iv[i as int] is Str));
                        }
                        let mut m = String::from_str(field);
                        m.append(" entries must be strings");
                        return Err(m);
                    },
                }
                i += 1;
                proof {
                    assert(strings_view(out@) =~= Seq::new(i as nat, |j: int| iv[j]->Str_0));
                }
            }
            Ok(out)
        },
        _ => {
            let mut m = String::from_str(field);
            m.append(" must be an array of names");
            Err(m)
        },
    }
}

/// The files a text's `imports` names, in order: none when it has no `imports`.
pub open spec fn imports_named(text: Seq<char>) -> Result<Seq<Seq<char>>, Seq<char>> {
    match toml_table(text) {
        Err(e) => Err(e),
        Ok(DocV::Table(t)) => match get(t, "imports"@) {
            None => Ok(Seq::empty()),
            Some(v) => names_of(v, "imports"@),
        },
        Ok(_) => Err("expected a TOML table"@),
    }
}

/// Reads the names of the files a composition or library text imports.
pub fn import_names(text: &str) -> (r: Result<Vec<String>, String>)
    ensures
        match imports_named(text@) {
            Ok(v) => r matches Ok(x) && strings_view(x@) == v,
            Err(e) => r matches Err(m) && m@ == e,
        },
{
    proof {
        reveal_strlit("imports");
        reveal_strlit("expected a TOML table");
    }
    let t = match parse_toml(text) {
        Ok(Doc::Table(t)) => t,
        Ok(_) => {
            return Err(String::from_str("expected a TOML table"));
        },
        Err(e) => {
            return Err(e);
        },
    };
    match copy_of(&t, "imports") {
        None => {
            let v: Vec<String> = Vec::new();
            proof {
                assert(strings_view(v@) =~= Seq::empty());
            }
            Ok(v)
        },
        Some(v) => names(&v, "imports"),
    }
}

/// Whether loading the file at `path` while the files `active` are being loaded would close
/// an import cycle or nest deeper than sixteen files.
pub fn import_refused(active: &Vec<String>, path: &str) -> (r: bool)
    ensures
        r == (active@.len() >= 16 || exists|i: int| 0 <= i < active@.len() && (#[trigger] active@[i])@ == path@),
{
    if active.len() >= 16 {
        return true;
    }
    let mut i: usize = 0;
    while i < active.len()
        invariant
            i <= active@.len(),
            forall|j: int| 0 <= j < i ==> (#[trigger] active@[j])@ != path@,
        decreases active@.len() - i,
    {
        if same_text(active[i].as_str(), path) {
            return true;
        }
        i += 1;
    }
    false
}

/// What the libraries define: behaviors, profiles, and kit instruments, each by name in the
/// order they were defined.
pub struct Registry {
    pub behaviors: Vec<(String, Doc)>,
    pub profiles: Vec<(String, Doc)>,
    pub kit: Vec<(String, Doc)>,
}

pub struct RegistryV {
    pub behaviors: Seq<(Seq<char>, DocV)>,
    pub profiles: Seq<(Seq<char>, DocV)>,
    pub kit: Seq<(Seq<char>, DocV)>,
}

impl View for Registry {
    type V = RegistryV;

    open spec fn view(&self) -> RegistryV {
        RegistryV {
            behaviors: entries_view(self.behaviors@),
            profiles: entries_view(self.profiles@),
            kit: entries_view(self.kit@),
        }
    }
}

/// A kit entry as written: the name of a behavior, or an output table with its gate made
/// explicit.
pub open spec fn instrument_entry(body: DocV) -> Result<DocV, Seq<char>> {
    match body {
        DocV::Str(b) => if blank(b) {
            Err("an instrument alias must name a behavior"@)
        } else {
            Ok(body)
        },
        DocV::Table(o) => match behavior_normal(seq![("output"@, body)]) {
            Ok(t) => Ok(get(t, "output"@)->Some_0),
            Err(e) => Err(e),
        },
        _ => Err("an instrument is an output table or the name of a behavior"@),
    }
}

/// The section a library kind fills.
pub open spec fn section(r: RegistryV, kind: Seq<char>) -> Seq<(Seq<char>, DocV)> {
    if kind == "behaviors"@ { r.behaviors } else if kind == "profiles"@ { r.profiles } else { r.kit }
}

pub open spec fn with_section(r: RegistryV, kind: Seq<char>, s: Seq<(Seq<char>, DocV)>) -> RegistryV {
    if kind == "behaviors"@ {
        RegistryV { behaviors: s, ..r }
    } else if kind == "profiles"@ {
        RegistryV { profiles: s, ..r }
    } else {
        RegistryV { kit: s, ..r }
    }
}

pub open spec fn known_kind(kind: Seq<char>) -> bool {
    kind == "behaviors"@ || kind == "profiles"@ || kind == "kit"@
}

/// The registry after the first `n` definitions of one section of kind `kind`.
pub open spec fn added_names(r: RegistryV, kind: Seq<char>, entries: Seq<(Seq<char>, DocV)>, n: int) -> Result<RegistryV, Seq<char>>
    decreases n,
{
    if n <= 0 || n > entries.len() {
        Ok(r)
    } else {
        match added_names(r, kind, entries, n - 1) {
            Err(e) => Err(e),
            Ok(r1) => {
                let name = entries[n - 1].0;
                let body = entries[n - 1].1;
                if blank(name) {
                    Err("library names cannot be empty"@)
                } else {
                    let checked = if kind == "kit"@ {
                        match instrument_entry(body) {
                            Ok(b) => Ok(b),
                            Err(e) => Err("kit."@ + name + ": "@ + e),
                        }
                    } else if body is Table {
                        Ok(body)
                    } else {
                        Err("expected a TOML table"@)
                    };
                    match checked {
                        Err(e) => Err(e),
                        Ok(b) => if has_key(section(r1, kind), name) {
                            Err("duplicate library definition "@ + kind + "."@ + name)
                        } else {
                            Ok(with_section(r1, kind, section(r1, kind).push((name, b))))
                        },
                    }
                }
            },
        }
    }
}

/// The registry after one section of a library: its kind must be known and its body a table.
pub open spec fn added_section(r: RegistryV, kind: Seq<char>, body: DocV) -> Result<RegistryV, Seq<char>> {
    if !known_kind(kind) {
        Err("unknown library section "@ + debug_str(kind))
    } else {
        match body {
            DocV::Table(entries) => added_names(r, kind, entries, entries.len() as int),
            _ => Err("expected a TOML table"@),
        }
    }
}

/// The registry after the first `n` sections of a library table.
pub open spec fn added_sections(r: RegistryV, sections: Seq<(Seq<char>, DocV)>, n: int) -> Result<RegistryV, Seq<char>>
    decreases n,
{
    if n <= 0 || n > sections.len() {
        Ok(r)
    } else {
        match added_sections(r, sections, n - 1) {
            Err(e) => Err(e),
            Ok(r1) => added_section(r1, sections[n - 1].0, sections[n - 1].1),
        }
    }
}

/// The registry after one library, or the error, prefixed with where the library was
/// written when `origin` names a place.
pub open spec fn added(r: RegistryV, library: DocV, origin: Seq<char>) -> Result<RegistryV, Seq<char>> {
    let plain = match library {
        DocV::Table(sections) => added_sections(r, sections, sections.len() as int),
        _ => Err("expected a TOML table"@),
    };
    match plain {
        Ok(r1) => Ok(r1),
        Err(e) => Err(if origin.len() == 0 { e } else { origin + ": "@ + e }),
    }
}

fn instrument_check(body: Doc) -> (r: Result<Doc, String>)
    ensures
        match instrument_entry(body@) {
            Ok(v) => r matches Ok(x) && x@ == v,
            Err(e) => r matches Err(m) && m@ == e,
        },
{
    proof {
        reveal_strlit("an instrument alias must name a behavior");
        reveal_strlit("an instrument is an output table or the name of a behavior");
        reveal_strlit("output");
    }
    match body {
        Doc::Str(b) => {
            if is_blank(b.as_str()) {
                Err(String::from_str("an instrument alias must name a behavior"))
            } else {
                Ok(Doc::Str(b))
            }
        },
        Doc::Table(o) => {
            let mut holder: Vec<(String, Doc)> = Vec::new();
            let ghost ov = DocV::Table(entries_view(o@));
            holder.push((String::from_str("output"), Doc::Table(o)));
            proof {
                super::doc::lemma_entries_view_from(holder@, seq![("output"@, ov)]);
            }
            proof {
                lemma_holder_keeps_output(ov);
            }
            match normalize_behavior(holder) {
                Ok(t) => {
                    let mut t = t;
                    match take_key(&mut t, "output") {
                        Some(out) => Ok(out),
                        None => Ok(Doc::Bool(false)),
                    }
                },
                Err(e) => Err(e),
            }
        },
        _ => Err(String::from_str("an instrument is an output table or the name of a behavior")),
    }
}

fn kind_str(kind: &str) -> (r: u8)
    ensures
        r == (if kind@ == "behaviors"@ { 0u8 } else if kind@ == "profiles"@ { 1u8 } else if kind@ == "kit"@ { 2u8 } else { 3u8 }),
{
    proof {
        reveal_strlit("behaviors");
        reveal_strlit("profiles");
        reveal_strlit("kit");
    }
    if crate::text::same_text(kind, "behaviors") {
        0
    } else if crate::text::same_text(kind, "profiles") {
        1
    } else if crate::text::same_text(kind, "kit") {
        2
    } else {
        3
    }
}

impl Registry {
    pub fn new() -> (r: Registry)
        ensures
            r@.behaviors.len() == 0,
            r@.profiles.len() == 0,
            r@.kit.len() == 0,
    {
        Registry { behaviors: Vec::new(), profiles: Vec::new(), kit: Vec::new() }
    }

    fn target(&mut self, k: u8) -> (t: &mut Vec<(String, Doc)>)
        requires
            k < 3,
        ensures
            k == 0 ==> *t == old(self).behaviors && final(self).behaviors == *final(t)
                && final(self).profiles == old(self).profiles && final(self).kit == old(self).kit,
            k == 1 ==> *t == old(self).profiles && final(self).profiles == *final(t)
                && final(self).behaviors == old(self).behaviors && final(self).kit == old(self).kit,
            k == 2 ==> *t == old(self).kit && final(self).kit == *final(t)
                && final(self).behaviors == old(self).behaviors && final(self).profiles == old(self).profiles,
    {
        if k == 0 {
            &mut self.behaviors
        } else if k == 1 {
            &mut self.profiles
        } else {
            &mut self.kit
        }
    }

    #[verifier::loop_isolation(false)]
    #[verifier::rlimit(40)]
    fn add_names(&mut self, kind: &str, entries: Vec<(String, Doc)>) -> (r: Result<(), String>)
        requires
            known_kind(kind@),
        ensures
            match added_names(old(self)@, kind@, entries_view(entries@), entries@.len() as int) {
                Ok(v) => r is Ok && final(self)@ == v,
                Err(e) => r matches Err(m) && m@ == e,
            },
    {
        proof {
            reveal_strlit("behaviors");
            reveal_strlit("profiles");
            reveal_strlit("kit");
            reveal_strlit("library names cannot be empty");
            reveal_strlit("expected a TOML table");
            reveal_strlit("kit.");
            reveal_strlit(": ");
            reveal_strlit("duplicate library definition ");
            reveal_strlit(".");
            lemma_entries_view(entries@);
            assert("behaviors"@.len() != "kit"@.len());
            assert("profiles"@.len() != "kit"@.len());
            assert("behaviors"@.len() != "profiles"@.len());
        }
        let k = kind_str(kind);
        let mut rest = entries;
        let ghost all = rest@;
        let ghost ev = entries_view(all);
        let total = rest.len();
        let mut n: usize = 0;
        while rest.len() > 0
            invariant
                n <= all.len(),
                all.len() == total,
                rest@ == all.skip(n as int),
                ev == entries_view(all),
                ev.len() == all.len(),
                forall|j: int| 0 <= j < all.len() ==> #[trigger] ev[j] == (all[j].0@, super::doc::doc_view(all[j].1)),
                k < 3,
                known_kind(kind@),
                "behaviors"@ != "kit"@ && "profiles"@ != "kit"@ && "behaviors"@ != "profiles"@,
                k == (if kind@ == "behaviors"@ { 0u8 } else if kind@ == "profiles"@ { 1u8 } else { 2u8 }),
                added_names(old(self)@, kind@, ev, n as int) == Ok::<RegistryV, Seq<char>>(self@),
            decreases rest@.len(),
        {
            let (name, body) = rest.remove(0);
            proof {
                assert(all[n as int] == (name, body));
                assert(all.skip(n as int).remove(0) =~= all.skip(n + 1));
            }
            if is_blank(name.as_str()) {
                proof {
                    lemma_names_refused(old(self)@, kind@, ev, n + 1, all.len() as int);
                }
                return Err(String::from_str("library names cannot be empty"));
            }
            let ghost bv = body@;
            let checked = if k == 2 {
                match instrument_check(body) {
                    Ok(b) => b,
                    Err(e) => {
                        let mut m = String::from_str("kit.");
                        m.append(name.as_str());
                        m.append(": ");
                        m.append(e.as_str());
                        proof {
                            lemma_names_refused(old(self)@, kind@, ev, n + 1, all.len() as int);
                        }
                        return Err(m);
                    },
                }
            } else {
                match body {
                    Doc::Table(t) => Doc::Table(t),
                    _ => {
                        proof {
                            assert(!(bv is Table));
                            assert(kind@ != "kit"@);
                            assert(ev[n as int] == (name@, bv));
                            assert(added_names(old(self)@, kind@, ev, n + 1) == Err::<RegistryV, Seq<char>>("expected a TOML table"@));
                            lemma_names_refused(old(self)@, kind@, ev, n + 1, all.len() as int);
                        }
                        return Err(String::from_str("expected a TOML table"));
                    },
                }
            };
            let target = self.target(k);
            if position(target, name.as_str()).is_some() {
                let mut m = String::from_str("duplicate library definition ");
                m.append(kind);
                m.append(".");
                m.append(name.as_str());
                proof {
                    lemma_names_refused(old(self)@, kind@, ev, n + 1, all.len() as int);
                }
                return Err(m);
            }
            let ghost before = target@;
            let ghost entry = (name@, checked@);
            target.push((name, checked));
            proof {
                lemma_entries_view(before);
                super::doc::lemma_entries_view_from(target@, entries_view(before).push(entry));
            }
            n = n + 1;
        }
        Ok(())
    }

    /// Adds one library table; an error names `origin`, where the library was written, unless
    /// `origin` is empty.
    pub fn add_library(&mut self, library: Doc, origin: &str) -> (r: Result<(), String>)
        ensures
            match added(old(self)@, library@, origin@) {
                Ok(v) => r is Ok && final(self)@ == v,
                Err(e) => r matches Err(m) && m@ == e,
            },
    {
        match self.add_sections(library) {
            Ok(()) => Ok(()),
            Err(e) => {
                if origin.unicode_len() == 0 {
                    Err(e)
                } else {
                    proof {
                        reveal_strlit(": ");
                    }
                    let mut m = String::from_str(origin);
                    m.append(": ");
                    m.append(e.as_str());
                    Err(m)
                }
            },
        }
    }

    fn add_section(&mut self, kind: String, body: Doc) -> (r: Result<(), String>)
        ensures
            match added_section(old(self)@, kind@, body@) {
                Ok(v) => r is Ok && final(self)@ == v,
                Err(e) => r matches Err(m) && m@ == e,
            },
    {
        proof {
            reveal_strlit("expected a TOML table");
            reveal_strlit("unknown library section ");
            reveal_strlit("behaviors");
            reveal_strlit("profiles");
            reveal_strlit("kit");
        }
        if kind_str(kind.as_str()) == 3 {
            let mut m = String::from_str("unknown library section ");
            let q = quoted(kind.as_str());
            m.append(q.as_str());
            return Err(m);
        }
        match body {
            Doc::Table(t) => {
                proof {
                    lemma_entries_view(t@);
                }
                self.add_names(kind.as_str(), t)
            },
            _ => Err(String::from_str("expected a TOML table")),
        }
    }

    #[verifier::loop_isolation(false)]
    fn add_sections(&mut self, library: Doc) -> (r: Result<(), String>)
        ensures
            match library@ {
                DocV::Table(sections) => match added_sections(old(self)@, sections, sections.len() as int) {
                    Ok(v) => r is Ok && final(self)@ == v,
                    Err(e) => r matches Err(m) && m@ == e,
                },
                _ => r matches Err(m) && m@ == "expected a TOML table"@,
            },
    {
        proof {
            reveal_strlit("expected a TOML table");
            reveal_strlit("unknown library section ");
        }
        let sections = match library {
            Doc::Table(t) => t,
            _ => {
                return Err(String::from_str("expected a TOML table"));
            },
        };
        proof {
            lemma_entries_view(sections@);
        }
        let mut rest = sections;
        let ghost all = rest@;
        let ghost ev = entries_view(all);
        let total = rest.len();
        let mut n: usize = 0;
        while rest.len() > 0
            invariant
                n <= all.len(),
                all.len() == total,
                rest@ == all.skip(n as int),
                ev == entries_view(all),
                ev.len() == all.len(),
                forall|j: int| 0 <= j < all.len() ==> #[trigger] ev[j] == (all[j].0@, super::doc::doc_view(all[j].1)),
                added_sections(old(self)@, ev, n as int) == Ok::<RegistryV, Seq<char>>(self@),
            decreases rest@.len(),
        {
            let (kind, entries) = rest.remove(0);
            proof {
                assert(all[n as int] == (kind, entries));
                assert(all.skip(n as int).remove(0) =~= all.skip(n + 1));
            }
            match self.add_section(kind, entries) {
                Ok(()) => {},
                Err(e) => {
                    proof {
                        lemma_sections_refused(old(self)@, ev, n + 1, all.len() as int);
                    }
                    return Err(e);
                },
            }
            n = n + 1;
        }
        Ok(())
    }
}

/// A refusal of the first `n` definitions stands for all of them.
proof fn lemma_names_refused(r: RegistryV, kind: Seq<char>, entries: Seq<(Seq<char>, DocV)>, n: int, m: int)
    requires
        0 <= n <= m <= entries.len(),
        added_names(r, kind, entries, n) is Err,
    ensures
        added_names(r, kind, entries, m) == added_names(r, kind, entries, n),
    decreases m - n,
{
    if n < m {
        lemma_names_refused(r, kind, entries, n, m - 1);
    }
}

/// A refusal of the first `n` sections stands for all of them.
proof fn lemma_sections_refused(r: RegistryV, sections: Seq<(Seq<char>, DocV)>, n: int, m: int)
    requires
        0 <= n <= m <= sections.len(),
        added_sections(r, sections, n) is Err,
    ensures
        added_sections(r, sections, m) == added_sections(r, sections, n),
    decreases m - n,
{
    if n < m {
        lemma_sections_refused(r, sections, n, m - 1);
    }
}

/// Normalizing a holder of one output keeps the output in it.
proof fn lemma_holder_keeps_output(v: DocV)
    ensures
        behavior_normal(seq![("output"@, v)]) matches Ok(t) ==> has_key(t, "output"@),
{
    reveal_strlit("output");
    reveal_strlit("trigger");
    reveal_strlit("accent");
    let h = seq![("output"@, v)];
    assert("output"@.len() != "trigger"@.len());
    assert("output"@[0] != "accent"@[0]);
    super::doc::lemma_pos_exact(h, "output"@, 0);
    super::doc::lemma_pos_exact(h, "trigger"@, -1);
    super::doc::lemma_pos_exact(h, "accent"@, -1);
    if let DocV::Table(o) = v {
        if let Ok(o2) = super::syntax::gate_normal(o) {
            let t1 = put(h, "output"@, DocV::Table(o2));
            super::doc::lemma_pos_exact(t1, "output"@, 0);
            super::doc::lemma_pos_exact(t1, "trigger"@, -1);
            super::doc::lemma_pos_exact(t1, "accent"@, -1);
        }
    }
}

/// The refusal of a name already on the expansion stack, or of a stack grown too deep.
pub open spec fn cycle_text(stack: Seq<Seq<char>>, name: Seq<char>) -> Seq<char> {
    "library dependency cycle or excessive depth: "@ + joined(stack, " -> "@) + " -> "@ + name
}

/// Whether expanding `name` next would repeat a name or pass the depth limit.
pub open spec fn too_deep(stack: Seq<Seq<char>>, name: Seq<char>) -> bool {
    stack.len() >= 32 || stack.contains(name)
}

/// Whether every item is a string.
pub open spec fn all_strings(items: Seq<DocV>) -> bool {
    forall|i: int| 0 <= i < items.len() ==> #[trigger] items[i] is Str
}

/// The names `use` or `compose` refer to.
pub open spec fn refs_of(used: Option<DocV>, composed: Option<DocV>) -> Result<Seq<Seq<char>>, Seq<char>> {
    match (used, composed) {
        (Some(_), Some(_)) => Err("choose use or compose, not both"@),
        (Some(DocV::Str(n)), None) => Ok(seq![n]),
        (Some(_), None) => Err("use must be a name"@),
        (None, Some(DocV::Array(items))) => if all_strings(items) {
            Ok(items.map_values(|x: DocV| x->Str_0))
        } else {
            Err("compose entries must be strings"@)
        },
        (None, Some(_)) => Err("compose must be an array of names"@),
        (None, None) => Ok(Seq::empty()),
    }
}

/// A table with `output` set to `out`.
pub open spec fn with_output(d: DocV, out: DocV) -> DocV {
    match d {
        DocV::Table(t) => DocV::Table(put(t, "output"@, out)),
        _ => d,
    }
}

/// The error for an instrument the kit does not declare, listing what it declares.
pub open spec fn unknown_instrument(kit: Seq<(Seq<char>, DocV)>, name: Seq<char>) -> Seq<char> {
    "unknown instrument "@ + debug_str(name) + "; the kit declares "@ + (if kit.len() == 0 {
        "nothing"@
    } else {
        joined(kit.map_values(|e: (Seq<char>, DocV)| debug_str(e.0)), ", "@)
    })
}

/// A definition expanded: its normalized fields (a profile's are taken as written) over what
/// its `use` or `compose` names expand to in order, with a kit binding's output in between;
/// and the last instrument bound on the way.
pub open spec fn expansion(reg: RegistryV, value: DocV, profile: bool, stack: Seq<Seq<char>>) -> Result<(DocV, Option<Seq<char>>), Seq<char>>
    decreases 33 - stack.len(), 2nat, 0nat,
{
    match value {
        DocV::Table(t0) => {
            let norm = if profile { Ok(t0) } else { behavior_normal(t0) };
            match norm {
                Err(e) => Err(e),
                Ok(t1) => {
                    let used = get(t1, "use"@);
                    let tu = without(t1, "use"@);
                    let composed = get(tu, "compose"@);
                    let t2 = without(tu, "compose"@);
                    let kitv = get(t2, "kit"@);
                    let local = without(t2, "kit"@);
                    let bound: Result<Option<Seq<char>>, Seq<char>> = match kitv {
                        Some(k) => if profile {
                            Err("kit binds a Part, not a profile"@)
                        } else if k is Str {
                            Ok(Some(k->Str_0))
                        } else {
                            Err("kit must name an instrument"@)
                        },
                        None => Ok(None),
                    };
                    match bound {
                        Err(e) => Err(e),
                        Ok(b) => match refs_of(used, composed) {
                            Err(e) => Err(e),
                            Ok(refs) => match composed_from(reg, refs, profile, stack, 0, DocV::Table(Seq::empty()), None) {
                                Err(e) => Err(e),
                                Ok((res, kit)) => match b {
                                    None => Ok((merged(res, DocV::Table(local)), kit)),
                                    Some(n) => match instrument_of(reg, n, stack) {
                                        Err(e) => Err(e),
                                        Ok(out) => Ok((merged(with_output(res, out), DocV::Table(local)), Some(n))),
                                    },
                                },
                            },
                        },
                    }
                },
            }
        },
        _ => Err("expected a TOML table"@),
    }
}

/// `acc` with the expansions of `refs` from index `i` on merged over it in order, and the
/// last instrument bound.
pub open spec fn composed_from(
    reg: RegistryV,
    refs: Seq<Seq<char>>,
    profile: bool,
    stack: Seq<Seq<char>>,
    i: int,
    acc: DocV,
    kit: Option<Seq<char>>,
) -> Result<(DocV, Option<Seq<char>>), Seq<char>>
    decreases 33 - stack.len(), 1nat, refs.len() - i,
{
    if i < 0 || i >= refs.len() {
        Ok((acc, kit))
    } else {
        let name = refs[i];
        if too_deep(stack, name) {
            Err(cycle_text(stack, name))
        } else {
            let defs = if profile { reg.profiles } else { reg.behaviors };
            match get(defs, name) {
                None => Err((if profile { "unknown profile "@ } else { "unknown behavior "@ }) + debug_str(name)),
                Some(d) => match expansion(reg, d, profile, stack.push(name)) {
                    Err(e) => Err(e),
                    Ok((x, k)) => composed_from(reg, refs, profile, stack, i + 1, merged(acc, x), if k is Some { k } else { kit }),
                },
            }
        }
    }
}

/// The definitions a name is looked up in: the profiles, or the behaviors.
pub open spec fn definitions(reg: RegistryV, profile: bool) -> Seq<(Seq<char>, DocV)> {
    if profile { reg.profiles } else { reg.behaviors }
}

/// In `compose = [n1, ..., nk]` later names win: every field the last name's expansion
/// writes with a value that is not a table, the composed result carries with that value,
/// whatever the names before it wrote there.
pub proof fn lemma_last_compose_wins(
    reg: RegistryV,
    refs: Seq<Seq<char>>,
    profile: bool,
    stack: Seq<Seq<char>>,
    i: int,
    acc: DocV,
    kit: Option<Seq<char>>,
    d: DocV,
    xt: Seq<(Seq<char>, DocV)>,
    xk: Option<Seq<char>>,
    f: Seq<char>,
)
    requires
        0 <= i < refs.len(),
        composed_from(reg, refs, profile, stack, i, acc, kit) is Ok,
        get(definitions(reg, profile), refs.last()) == Some(d),
        expansion(reg, d, profile, stack.push(refs.last())) == Ok::<(DocV, Option<Seq<char>>), Seq<char>>((DocV::Table(xt), xk)),
        unique_keys(xt),
        has_key(xt, f),
        !(get(xt, f)->Some_0 is Table),
    ensures
        composed_from(reg, refs, profile, stack, i, acc, kit)->Ok_0.0 is Table,
        get(composed_from(reg, refs, profile, stack, i, acc, kit)->Ok_0.0->Table_0, f) == get(xt, f),
    decreases refs.len() - i,
{
    let name = refs[i];
    let defs = definitions(reg, profile);
    let di = get(defs, name)->Some_0;
    let (y, k) = expansion(reg, di, profile, stack.push(name))->Ok_0;
    let next = merged(acc, y);
    let kit2 = if k is Some { k } else { kit };
    assert(composed_from(reg, refs, profile, stack, i, acc, kit) == composed_from(reg, refs, profile, stack, i + 1, next, kit2));
    if i == refs.len() - 1 {
        assert(y == DocV::Table(xt));
        lemma_overlay_wins(acc, xt, f);
    } else {
        lemma_last_compose_wins(reg, refs, profile, stack, i + 1, next, kit2, d, xt, xk, f);
    }
}

/// A Part bound to a kit instrument keeps its own output: every field it writes under
/// `output` with a value that is not a table, the expanded Part's `output` carries with the
/// Part's value, whatever the instrument's output or the names it composes say there.
pub proof fn lemma_part_output_wins(
    reg: RegistryV,
    t0: Seq<(Seq<char>, DocV)>,
    stack: Seq<Seq<char>>,
    t1: Seq<(Seq<char>, DocV)>,
    n: Seq<char>,
    o: Seq<(Seq<char>, DocV)>,
    f: Seq<char>,
)
    requires
        expansion(reg, DocV::Table(t0), false, stack) is Ok,
        behavior_normal(t0) == Ok::<Seq<(Seq<char>, DocV)>, Seq<char>>(t1),
        unique_keys(t1),
        get(t1, "kit"@) == Some(DocV::Str(n)),
        get(t1, "output"@) == Some(DocV::Table(o)),
        unique_keys(o),
        has_key(o, f),
        !(get(o, f)->Some_0 is Table),
    ensures
        expansion(reg, DocV::Table(t0), false, stack)->Ok_0.0 is Table,
        get(expansion(reg, DocV::Table(t0), false, stack)->Ok_0.0->Table_0, "output"@) matches Some(DocV::Table(ro))
            && get(ro, f) == get(o, f),
{
    reveal_strlit("use");
    reveal_strlit("compose");
    reveal_strlit("kit");
    reveal_strlit("output");
    let tu = without(t1, "use"@);
    let t2 = without(tu, "compose"@);
    let local = without(t2, "kit"@);
    assert("use"@[0] != "kit"@[0]);
    assert("compose"@.len() != "kit"@.len());
    assert("use"@.len() != "output"@.len());
    assert("compose"@.len() != "output"@.len());
    assert("kit"@.len() != "output"@.len());
    lemma_without_keeps(t1, "use"@, "kit"@);
    lemma_without_keeps(tu, "compose"@, "kit"@);
    lemma_without_keeps(t1, "use"@, "output"@);
    lemma_without_keeps(tu, "compose"@, "output"@);
    lemma_without_keeps(t2, "kit"@, "output"@);
    assert(get(t2, "kit"@) == Some(DocV::Str(n)));
    assert(get(local, "output"@) == Some(DocV::Table(o)));
    assert(unique_keys(local));
    let used = get(t1, "use"@);
    let composed = get(tu, "compose"@);
    let refs = refs_of(used, composed)->Ok_0;
    let (res, kit) = composed_from(reg, refs, false, stack, 0, DocV::Table(Seq::empty()), None)->Ok_0;
    let out = instrument_of(reg, n, stack)->Ok_0;
    let base = with_output(res, out);
    assert(expansion(reg, DocV::Table(t0), false, stack) == Ok::<(DocV, Option<Seq<char>>), Seq<char>>(
        (merged(base, DocV::Table(local)), Some(n))));
    lemma_merged_key(base, local, "output"@);
    let rt = merged(base, DocV::Table(local))->Table_0;
    if get(rt, "output"@) == get(local, "output"@) {
        assert(get(rt, "output"@) == Some(DocV::Table(o)));
    } else {
        let x = choose|x: DocV| get(rt, "output"@) == Some(#[trigger] merged(x, DocV::Table(o)));
        lemma_overlay_wins(x, o, f);
    }
}

/// What the `l`-th name of `refs` expands to, when it names a definition.
pub open spec fn name_expansion(
    reg: RegistryV,
    refs: Seq<Seq<char>>,
    profile: bool,
    stack: Seq<Seq<char>>,
    l: int,
) -> Option<(DocV, Option<Seq<char>>)> {
    match get(definitions(reg, profile), refs[l]) {
        Some(d) => match expansion(reg, d, profile, stack.push(refs[l])) {
            Ok(x) => Some(x),
            Err(_) => None,
        },
        None => None,
    }
}

/// Whether the expansion of the `l`-th name is a table that leaves `f` alone: it does not
/// write `f`, and names no `type`, `use`, `compose`, `ramp` or `automation` that would
/// replace or trim what is already there.
pub open spec fn leaves_alone(
    reg: RegistryV,
    refs: Seq<Seq<char>>,
    profile: bool,
    stack: Seq<Seq<char>>,
    l: int,
    f: Seq<char>,
) -> bool {
    name_expansion(reg, refs, profile, stack, l) matches Some((DocV::Table(lt), _)) && {
        &&& unique_keys(lt)
        &&& !has_key(lt, f)
        &&& !has_key(lt, "type"@)
        &&& !has_key(lt, "use"@)
        &&& !has_key(lt, "compose"@)
        &&& !has_key(lt, "ramp"@)
        &&& !has_key(lt, "automation"@)
    }
}

proof fn lemma_compose_keeps(
    reg: RegistryV,
    refs: Seq<Seq<char>>,
    profile: bool,
    stack: Seq<Seq<char>>,
    i: int,
    at: Seq<(Seq<char>, DocV)>,
    kit: Option<Seq<char>>,
    f: Seq<char>,
)
    requires
        0 <= i,
        composed_from(reg, refs, profile, stack, i, DocV::Table(at), kit) is Ok,
        forall|l: int| i <= l < refs.len() ==> #[trigger] leaves_alone(reg, refs, profile, stack, l, f),
    ensures
        composed_from(reg, refs, profile, stack, i, DocV::Table(at), kit)->Ok_0.0 is Table,
        get(composed_from(reg, refs, profile, stack, i, DocV::Table(at), kit)->Ok_0.0->Table_0, f) == get(at, f),
    decreases refs.len() - i,
{
    if i < refs.len() {
        let name = refs[i];
        let di = get(definitions(reg, profile), name)->Some_0;
        let (y, k) = expansion(reg, di, profile, stack.push(name))->Ok_0;
        assert(leaves_alone(reg, refs, profile, stack, i, f));
        let lt = y->Table_0;
        super::doc::lemma_merged_keeps(at, lt, f);
        let kit2 = if k is Some { k } else { kit };
        let nt = merged(DocV::Table(at), y)->Table_0;
        assert(merged(DocV::Table(at), y) == DocV::Table(nt));
        lemma_compose_keeps(reg, refs, profile, stack, i + 1, nt, kit2, f);
    }
}

/// In `compose = [n1, ..., nk]` a field an earlier name writes survives: when no later name
/// writes it (or names a `type`, `use`, `compose`, `ramp` or `automation` that would replace
/// or trim the table), the composed result carries the earlier name's value.
pub proof fn lemma_earlier_compose_kept(
    reg: RegistryV,
    refs: Seq<Seq<char>>,
    profile: bool,
    stack: Seq<Seq<char>>,
    i: int,
    acc: DocV,
    kit: Option<Seq<char>>,
    j: int,
    xt: Seq<(Seq<char>, DocV)>,
    xk: Option<Seq<char>>,
    f: Seq<char>,
)
    requires
        0 <= i <= j < refs.len(),
        composed_from(reg, refs, profile, stack, i, acc, kit) is Ok,
        name_expansion(reg, refs, profile, stack, j) == Some((DocV::Table(xt), xk)),
        unique_keys(xt),
        has_key(xt, f),
        !(get(xt, f)->Some_0 is Table),
        forall|l: int| j < l < refs.len() ==> #[trigger] leaves_alone(reg, refs, profile, stack, l, f),
    ensures
        composed_from(reg, refs, profile, stack, i, acc, kit)->Ok_0.0 is Table,
        get(composed_from(reg, refs, profile, stack, i, acc, kit)->Ok_0.0->Table_0, f) == get(xt, f),
    decreases refs.len() - i,
{
    let name = refs[i];
    let di = get(definitions(reg, profile), name)->Some_0;
    let (y, k) = expansion(reg, di, profile, stack.push(name))->Ok_0;
    let next = merged(acc, y);
    let kit2 = if k is Some { k } else { kit };
    assert(composed_from(reg, refs, profile, stack, i, acc, kit) == composed_from(reg, refs, profile, stack, i + 1, next, kit2));
    if i == j {
        assert(y == DocV::Table(xt));
        lemma_overlay_wins(acc, xt, f);
        let nt = next->Table_0;
        assert(next == DocV::Table(nt));
        lemma_compose_keeps(reg, refs, profile, stack, i + 1, nt, kit2, f);
    } else {
        lemma_earlier_compose_kept(reg, refs, profile, stack, i + 1, next, kit2, j, xt, xk, f);
    }
}

/// An expansion is a table.
proof fn lemma_expansion_table(reg: RegistryV, value: DocV, profile: bool, stack: Seq<Seq<char>>)
    requires
        expansion(reg, value, profile, stack) is Ok,
    ensures
        expansion(reg, value, profile, stack)->Ok_0.0 is Table,
{
}

/// Composing over a table gives a table.
proof fn lemma_composed_table(
    reg: RegistryV,
    refs: Seq<Seq<char>>,
    profile: bool,
    stack: Seq<Seq<char>>,
    i: int,
    acc: DocV,
    kit: Option<Seq<char>>,
)
    requires
        0 <= i,
        acc is Table,
        composed_from(reg, refs, profile, stack, i, acc, kit) is Ok,
    ensures
        composed_from(reg, refs, profile, stack, i, acc, kit)->Ok_0.0 is Table,
    decreases refs.len() - i,
{
    if i < refs.len() {
        let name = refs[i];
        let di = get(definitions(reg, profile), name)->Some_0;
        lemma_expansion_table(reg, di, profile, stack.push(name));
        let (x_i, k) = expansion(reg, di, profile, stack.push(name))->Ok_0;
        let kit2 = if k is Some { k } else { kit };
        lemma_composed_table(reg, refs, profile, stack, i + 1, merged(acc, x_i), kit2);
    }
}

/// A Part bound to a kit instrument takes from the instrument's output every field its own
/// `output` leaves unwritten, when neither names a new `type` or a `use` that would replace the
/// table as a whole.
pub proof fn lemma_instrument_fills_output(
    reg: RegistryV,
    t0: Seq<(Seq<char>, DocV)>,
    stack: Seq<Seq<char>>,
    t1: Seq<(Seq<char>, DocV)>,
    n: Seq<char>,
    o: Seq<(Seq<char>, DocV)>,
    io: Seq<(Seq<char>, DocV)>,
    f: Seq<char>,
)
    requires
        expansion(reg, DocV::Table(t0), false, stack) is Ok,
        behavior_normal(t0) == Ok::<Seq<(Seq<char>, DocV)>, Seq<char>>(t1),
        unique_keys(t1),
        !has_key(t1, "type"@),
        get(t1, "kit"@) == Some(DocV::Str(n)),
        get(t1, "output"@) == Some(DocV::Table(o)),
        unique_keys(o),
        !has_key(o, "use"@),
        !has_key(o, "type"@),
        instrument_of(reg, n, stack) == Ok::<DocV, Seq<char>>(DocV::Table(io)),
        !has_key(o, f),
        f != "use"@,
        f != "ramp"@,
        f != "automation"@,
    ensures
        get(expansion(reg, DocV::Table(t0), false, stack)->Ok_0.0->Table_0, "output"@) matches Some(DocV::Table(ro))
            && get(ro, f) == get(io, f),
{
    reveal_strlit("use");
    reveal_strlit("compose");
    reveal_strlit("kit");
    reveal_strlit("output");
    reveal_strlit("type");
    reveal_strlit("ramp");
    reveal_strlit("automation");
    let tu = without(t1, "use"@);
    let t2 = without(tu, "compose"@);
    let local = without(t2, "kit"@);
    assert("use"@[0] != "kit"@[0]);
    assert("use"@[0] != "type"@[0]);
    assert("kit"@[0] != "type"@[0]);
    assert("compose"@.len() != "kit"@.len());
    assert("compose"@.len() != "type"@.len());
    assert("use"@.len() != "output"@.len());
    assert("compose"@.len() != "output"@.len());
    assert("kit"@.len() != "output"@.len());
    assert("output"@.len() != "type"@.len());
    assert("output"@[0] != "ramp"@[0]);
    assert("output"@.len() != "automation"@.len());
    lemma_without_keeps(t1, "use"@, "kit"@);
    lemma_without_keeps(tu, "compose"@, "kit"@);
    lemma_without_keeps(t1, "use"@, "output"@);
    lemma_without_keeps(tu, "compose"@, "output"@);
    lemma_without_keeps(t2, "kit"@, "output"@);
    lemma_without_keeps(t1, "use"@, "type"@);
    lemma_without_keeps(tu, "compose"@, "type"@);
    lemma_without_keeps(t2, "kit"@, "type"@);
    lemma_pos(tu, "use"@);
    lemma_pos(t1, "use"@);
    assert(get(without(t1, "use"@), "use"@) is None) by {
        if has_key(t1, "use"@) {
            let p = pos(t1, "use"@);
            let u = t1.remove(p);
            assert forall|j: int| 0 <= j < u.len() implies (#[trigger] u[j]).0 != "use"@ by {
                if j < p {
                    assert(u[j] == t1[j]);
                } else {
                    assert(u[j] == t1[j + 1]);
                }
            }
            super::doc::lemma_pos_exact(u, "use"@, -1);
        }
    }
    assert("use"@ != "compose"@);
    assert("use"@ != "kit"@);
    lemma_without_keeps(tu, "compose"@, "use"@);
    lemma_without_keeps(t2, "kit"@, "use"@);
    assert(!has_key(local, "use"@));
    assert(!has_key(local, "type"@));
    assert(get(local, "output"@) == Some(DocV::Table(o)));
    let used = get(t1, "use"@);
    let composed = get(tu, "compose"@);
    let refs = refs_of(used, composed)->Ok_0;
    lemma_composed_table(reg, refs, false, stack, 0, DocV::Table(Seq::empty()), None);
    let (res, kit) = composed_from(reg, refs, false, stack, 0, DocV::Table(Seq::empty()), None)->Ok_0;
    let base = with_output(res, DocV::Table(io));
    let a = base->Table_0;
    assert(get(a, "output"@) == Some(DocV::Table(io))) by {
        super::doc::lemma_put_get(res->Table_0, "output"@, DocV::Table(io));
    }
    // the outer merge overlays the Part's own table entry by entry
    let a1 = if has_key(local, "compose"@) && !has_key(local, "use"@) { without(a, "use"@) } else { a };
    let a2 = if has_key(local, "automation"@) && !has_key(local, "ramp"@) { without(a1, "ramp"@) } else { a1 };
    let a3 = if has_key(local, "ramp"@) && !has_key(local, "automation"@) { without(a2, "automation"@) } else { a2 };
    lemma_without_keeps(a, "use"@, "output"@);
    lemma_without_keeps(a1, "ramp"@, "output"@);
    lemma_without_keeps(a2, "automation"@, "output"@);
    assert(get(a3, "output"@) == Some(DocV::Table(io)));
    assert(merged(base, DocV::Table(local)) == DocV::Table(super::doc::overlaid(a3, local)));
    super::doc::lemma_overlaid_get(a3, local, "output"@);
    let inner = merged(DocV::Table(io), DocV::Table(o));
    assert(get(super::doc::overlaid(a3, local), "output"@) == Some(inner));
    // the inner merge keeps what the Part leaves unwritten
    let b1 = if has_key(o, "compose"@) && !has_key(o, "use"@) { without(io, "use"@) } else { io };
    let b2 = if has_key(o, "automation"@) && !has_key(o, "ramp"@) { without(b1, "ramp"@) } else { b1 };
    let b3 = if has_key(o, "ramp"@) && !has_key(o, "automation"@) { without(b2, "automation"@) } else { b2 };
    lemma_without_keeps(io, "use"@, f);
    lemma_without_keeps(b1, "ramp"@, f);
    lemma_without_keeps(b2, "automation"@, f);
    assert(inner == DocV::Table(super::doc::overlaid(b3, o)));
    super::doc::lemma_overlaid_get(b3, o, f);
}

/// The output table an instrument name binds to: written in the kit, or the `output` of the
/// behavior the kit names.
pub open spec fn instrument_of(reg: RegistryV, name: Seq<char>, stack: Seq<Seq<char>>) -> Result<DocV, Seq<char>>
    decreases 33 - stack.len(), 1nat, 0nat,
{
    match get(reg.kit, name) {
        None => Err(unknown_instrument(reg.kit, name)),
        Some(DocV::Str(b)) => match get(reg.behaviors, b) {
            None => Err("kit."@ + name + " names unknown behavior "@ + debug_str(b)),
            Some(def) => if too_deep(stack, b) {
                Err(cycle_text(stack, b))
            } else {
                match expansion(reg, def, false, stack.push(b)) {
                    Err(e) => Err(e),
                    Ok((x, _)) => match x {
                        DocV::Table(t) => match get(t, "output"@) {
                            Some(o) => Ok(o),
                            None => Err("kit."@ + name + ": behavior "@ + debug_str(b) + " has no output"@),
                        },
                        _ => Err("expected a TOML table"@),
                    },
                }
            }
        },
        Some(out) => Ok(out),
    }
}

pub open spec fn opt_view(o: Option<String>) -> Option<Seq<char>> {
    match o {
        Some(s) => Some(s@),
        None => None,
    }
}

/// A copy of the value of the first entry under `k`.
pub(crate) fn copy_of(t: &Vec<(String, Doc)>, k: &str) -> (r: Option<Doc>)
    ensures
        match get(entries_view(t@), k@) {
            Some(v) => r matches Some(x) && x@ == v,
            None => r is None,
        },
{
    proof {
        lemma_entries_view(t@);
    }
    match position(t, k) {
        Some(i) => Some(copy_doc(&t[i].1)),
        None => None,
    }
}

/// The stack with `name` on top.
pub(crate) fn pushed(stack: &Vec<String>, name: &str) -> (r: Vec<String>)
    ensures
        strings_view(r@) == strings_view(stack@).push(name@),
{
    let mut r: Vec<String> = Vec::new();
    let mut i: usize = 0;
    while i < stack.len()
        invariant
            i <= stack@.len(),
            r@.len() == i,
            forall|j: int| 0 <= j < i ==> (#[trigger] r@[j])@ == stack@[j]@,
        decreases stack@.len() - i,
    {
        r.push(stack[i].clone());
        i += 1;
    }
    r.push(String::from_str(name));
    proof {
        assert(strings_view(r@) =~= strings_view(stack@).push(name@));
    }
    r
}

fn too_deep_exec(stack: &Vec<String>, name: &str) -> (r: bool)
    ensures
        r == too_deep(strings_view(stack@), name@),
{
    if stack.len() >= 32 {
        return true;
    }
    let mut i: usize = 0;
    while i < stack.len()
        invariant
            i <= stack@.len(),
            forall|j: int| 0 <= j < i ==> (#[trigger] stack@[j])@ != name@,
        decreases stack@.len() - i,
    {
        if same_text(stack[i].as_str(), name) {
            proof {
                assert(strings_view(stack@)[i as int] == name@);
            }
            return true;
        }
        i += 1;
    }
    proof {
        assert forall|j: int| 0 <= j < strings_view(stack@).len() implies strings_view(stack@)[j] != name@ by {
            assert(stack@[j]@ != name@);
        }
    }
    false
}

fn cycle_error(stack: &Vec<String>, name: &str) -> (r: String)
    ensures
        r@ == cycle_text(strings_view(stack@), name@),
{
    proof {
        reveal_strlit("library dependency cycle or excessive depth: ");
        reveal_strlit(" -> ");
    }
    let mut m = String::from_str("library dependency cycle or excessive depth: ");
    push_joined(&mut m, stack, " -> ");
    m.append(" -> ");
    m.append(name);
    m
}

fn unknown_instrument_error(kit: &Vec<(String, Doc)>, name: &str) -> (r: String)
    ensures
        r@ == unknown_instrument(entries_view(kit@), name@),
{
    proof {
        reveal_strlit("unknown instrument ");
        reveal_strlit("; the kit declares ");
        reveal_strlit("nothing");
        reveal_strlit(", ");
        lemma_entries_view(kit@);
    }
    let mut m = String::from_str("unknown instrument ");
    let q = quoted(name);
    m.append(q.as_str());
    m.append("; the kit declares ");
    if kit.len() == 0 {
        m.append("nothing");
    } else {
        let mut names: Vec<String> = Vec::new();
        let mut i: usize = 0;
        while i < kit.len()
            invariant
                i <= kit@.len(),
                names@.len() == i,
                entries_view(kit@).len() == kit@.len(),
                forall|j: int| 0 <= j < kit@.len() ==> #[trigger] entries_view(kit@)[j] == (kit@[j].0@, super::doc::doc_view(kit@[j].1)),
                forall|j: int| 0 <= j < i ==> (#[trigger] names@[j])@ == debug_str(kit@[j].0@),
            decreases kit@.len() - i,
        {
            names.push(quoted(kit[i].0.as_str()));
            i += 1;
        }
        proof {
            assert(strings_view(names@) =~= entries_view(kit@).map_values(|e: (Seq<char>, DocV)| debug_str(e.0)));
        }
        push_joined(&mut m, &names, ", ");
    }
    m
}

/// The names `use` or `compose` refer to, as `refs_of` says.
#[verifier::loop_isolation(false)]
fn refs_exec(used: Option<Doc>, composed: Option<Doc>) -> (r: Result<Vec<String>, String>)
    ensures
        match refs_of(
            match used { Some(d) => Some(d@), None => None },
            match composed { Some(d) => Some(d@), None => None },
        ) {
            Ok(v) => r matches Ok(x) && strings_view(x@) == v,
            Err(e) => r matches Err(m) && m@ == e,
        },
{
    proof {
        reveal_strlit("choose use or compose, not both");
        reveal_strlit("use must be a name");
        reveal_strlit("compose entries must be strings");
        reveal_strlit("compose must be an array of names");
    }
    match (used, composed) {
        (Some(_), Some(_)) => Err(String::from_str("choose use or compose, not both")),
        (Some(Doc::Str(n)), None) => {
            let mut v: Vec<String> = Vec::new();
            v.push(n);
            proof {
                assert(strings_view(v@) =~= seq![v@[0]@]);
            }
            Ok(v)
        },
        (Some(_), None) => Err(String::from_str("use must be a name")),
        (None, Some(Doc::Array(items))) => {
            proof {
                super::doc::lemma_items_view(items@);
            }
            let ghost iv = super::doc::items_view(items@);
            let mut v: Vec<String> = Vec::new();
            let mut i: usize = 0;
            while i < items.len()
                invariant
                    i <= items@.len(),
                    v@.len() == i,
                    iv == super::doc::items_view(items@),
                    iv.len() == items@.len(),
                    forall|j: int| 0 <= j < items@.len() ==> #[trigger] iv[j] == super::doc::doc_view(items@[j]),
                    forall|j: int| 0 <= j < i ==> (#[trigger] iv[j]) is Str,
                    forall|j: int| 0 <= j < i ==> (#[trigger] v@[j])@ == iv[j]->Str_0,
                decreases items@.len() - i,
            {
                match &items[i] {
                    Doc::Str(n) => {
                        proof {
                            assert(iv[i as int] == DocV::Str(n@));
                        }
                        let c = n.clone();
                        proof {
                            assert(c@ == n@);
                        }
                        let ghost before = v@;
                        v.push(c);
                        proof {
                            assert forall|j: int| 0 <= j < i + 1 implies (#[trigger] v@[j])@ == iv[j]->Str_0 by {
                                if j < i {
                                    assert(v@[j] == before[j]);
                                }
                            }
                        }
                    },
                    _ => {
                        proof {
                            assert(!(iv[i as int] is Str));
                            assert(!all_strings(iv));
                        }
                        return Err(String::from_str("compose entries must be strings"));
                    },
                }
                i += 1;
            }
            proof {
                assert(all_strings(iv));
                assert(strings_view(v@) =~= iv.map_values(|x: DocV| x->Str_0));
            }
            Ok(v)
        },
        (None, Some(_)) => Err(String::from_str("compose must be an array of names")),
        (None, None) => {
            let v: Vec<String> = Vec::new();
            proof {
                assert(strings_view(v@) =~= Seq::<Seq<char>>::empty());
            }
            Ok(v)
        },
    }
}

/// A table with `output` set to `out`, as `with_output` says.
fn set_output(d: Doc, out: Doc) -> (r: Doc)
    ensures
        r@ == with_output(d@, out@),
{
    match d {
        Doc::Table(t) => {
            let mut t = t;
            put_key(&mut t, String::from_str("output"), out);
            proof {
                reveal_strlit("output");
            }
            Doc::Table(t)
        },
        other => other,
    }
}

impl Registry {
    /// Expands a definition, as `expansion` says, with the names being expanded on `stack`.
    pub fn expand_value(&self, value: &Doc, profile: bool, stack: &Vec<String>) -> (r: Result<(Doc, Option<String>), String>)
        ensures
            match expansion(self@, value@, profile, strings_view(stack@)) {
                Ok(v) => r matches Ok(x) && x.0@ == v.0 && opt_view(x.1) == v.1,
                Err(e) => r matches Err(m) && m@ == e,
            },
        decreases 33 - stack@.len(), 2nat, 0nat,
    {
        proof {
            reveal_strlit("expected a TOML table");
            reveal_strlit("use");
            reveal_strlit("compose");
            reveal_strlit("kit");
            reveal_strlit("kit binds a Part, not a profile");
            reveal_strlit("kit must name an instrument");
        }
        let d = copy_doc(value);
        let t0 = match d {
            Doc::Table(t) => t,
            _ => {
                return Err(String::from_str("expected a TOML table"));
            },
        };
        let t1 = if profile {
            t0
        } else {
            match normalize_behavior(t0) {
                Ok(t) => t,
                Err(e) => {
                    return Err(e);
                },
            }
        };
        let mut t = t1;
        let used = take_key(&mut t, "use");
        let composed = take_key(&mut t, "compose");
        let kitv = take_key(&mut t, "kit");
        let bound: Option<String> = match kitv {
            Some(k) => {
                if profile {
                    return Err(String::from_str("kit binds a Part, not a profile"));
                }
                match k {
                    Doc::Str(n) => Some(n),
                    _ => {
                        return Err(String::from_str("kit must name an instrument"));
                    },
                }
            },
            None => None,
        };
        let refs = match refs_exec(used, composed) {
            Ok(v) => v,
            Err(e) => {
                return Err(e);
            },
        };
        let start: Vec<(String, Doc)> = Vec::new();
        proof {
            assert(entries_view(start@) =~= Seq::<(Seq<char>, DocV)>::empty());
        }
        let (res, kit) = match self.compose(&refs, profile, stack, 0, Doc::Table(start), None) {
            Ok(v) => v,
            Err(e) => {
                return Err(e);
            },
        };
        match bound {
            None => Ok((merge(res, Doc::Table(t)), kit)),
            Some(n) => {
                let out = match self.instrument(n.as_str(), stack) {
                    Ok(o) => o,
                    Err(e) => {
                        return Err(e);
                    },
                };
                let res2 = set_output(res, out);
                Ok((merge(res2, Doc::Table(t)), Some(n)))
            },
        }
    }

    fn compose(
        &self,
        refs: &Vec<String>,
        profile: bool,
        stack: &Vec<String>,
        i: usize,
        acc: Doc,
        kit: Option<String>,
    ) -> (r: Result<(Doc, Option<String>), String>)
        ensures
            match composed_from(self@, strings_view(refs@), profile, strings_view(stack@), i as int, acc@, opt_view(kit)) {
                Ok(v) => r matches Ok(x) && x.0@ == v.0 && opt_view(x.1) == v.1,
                Err(e) => r matches Err(m) && m@ == e,
            },
        decreases 33 - stack@.len(), 1nat, refs@.len() - i,
    {
        proof {
            reveal_strlit("unknown profile ");
            reveal_strlit("unknown behavior ");
        }
        if i >= refs.len() {
            return Ok((acc, kit));
        }
        let name = refs[i].as_str();
        if too_deep_exec(stack, name) {
            return Err(cycle_error(stack, name));
        }
        let defs = if profile { &self.profiles } else { &self.behaviors };
        let d = match copy_of(defs, name) {
            Some(d) => d,
            None => {
                let mut m = if profile {
                    String::from_str("unknown profile ")
                } else {
                    String::from_str("unknown behavior ")
                };
                let q = quoted(name);
                m.append(q.as_str());
                return Err(m);
            },
        };
        let next = pushed(stack, name);
        proof {
            assert(strings_view(next@).len() == next@.len());
            assert(strings_view(stack@).len() == stack@.len());
            assert(next@.len() == stack@.len() + 1 && stack@.len() < 32);
        }
        let (x, k) = match self.expand_value(&d, profile, &next) {
            Ok(v) => v,
            Err(e) => {
                return Err(e);
            },
        };
        let acc2 = merge(acc, x);
        let kit2 = match k {
            Some(b) => Some(b),
            None => kit,
        };
        self.compose(refs, profile, stack, i + 1, acc2, kit2)
    }

    /// The output table an instrument name binds to, as `instrument_of` says.
    pub fn instrument(&self, name: &str, stack: &Vec<String>) -> (r: Result<Doc, String>)
        ensures
            match instrument_of(self@, name@, strings_view(stack@)) {
                Ok(v) => r matches Ok(x) && x@ == v,
                Err(e) => r matches Err(m) && m@ == e,
            },
        decreases 33 - stack@.len(), 1nat, 0nat,
    {
        proof {
            reveal_strlit("kit.");
            reveal_strlit(" names unknown behavior ");
            reveal_strlit(": behavior ");
            reveal_strlit(" has no output");
            reveal_strlit("output");
            reveal_strlit("expected a TOML table");
            lemma_entries_view(self.kit@);
        }
        let i = match position(&self.kit, name) {
            Some(i) => i,
            None => {
                return Err(unknown_instrument_error(&self.kit, name));
            },
        };
        match &self.kit[i].1 {
            Doc::Str(b) => {
                let def = match copy_of(&self.behaviors, b.as_str()) {
                    Some(d) => d,
                    None => {
                        let mut m = String::from_str("kit.");
                        m.append(name);
                        m.append(" names unknown behavior ");
                        let q = quoted(b.as_str());
                        m.append(q.as_str());
                        return Err(m);
                    },
                };
                if too_deep_exec(stack, b.as_str()) {
                    return Err(cycle_error(stack, b.as_str()));
                }
                let next = pushed(stack, b.as_str());
                proof {
                    assert(strings_view(next@).len() == next@.len());
                    assert(strings_view(stack@).len() == stack@.len());
                    assert(next@.len() == stack@.len() + 1 && stack@.len() < 32);
                }
                let (x, _) = match self.expand_value(&def, false, &next) {
                    Ok(v) => v,
                    Err(e) => {
                        return Err(e);
                    },
                };
                match x {
                    Doc::Table(t) => {
                        let mut t = t;
                        match take_key(&mut t, "output") {
                            Some(o) => Ok(o),
                            None => {
                                let mut m = String::from_str("kit.");
                                m.append(name);
                                m.append(": behavior ");
                                let q = quoted(b.as_str());
                                m.append(q.as_str());
                                m.append(" has no output");
                                Err(m)
                            },
                        }
                    },
                    _ => Err(String::from_str("expected a TOML table")),
                }
            },
            other => Ok(copy_doc(other)),
        }
    }
}

/// The keys of a table, in order.
pub open spec fn keys_of(t: Seq<(Seq<char>, DocV)>) -> Seq<Seq<char>> {
    t.map_values(|e: (Seq<char>, DocV)| e.0)
}

/// The Parts of `[parts.<id>]` tables, each with its id, in table order, from the first `n`.
pub open spec fn keyed_from(parts: Seq<(Seq<char>, DocV)>, n: int) -> Result<Seq<DocV>, Seq<char>>
    decreases n,
{
    if n <= 0 || n > parts.len() {
        Ok(Seq::empty())
    } else {
        match keyed_from(parts, n - 1) {
            Err(e) => Err(e),
            Ok(acc) => {
                let id = parts[n - 1].0;
                match parts[n - 1].1 {
                    DocV::Table(f) => if has_key(f, "id"@) {
                        Err("parts."@ + id + ": the table name supplies id; remove the id field"@)
                    } else {
                        Ok(acc.push(DocV::Table(put(f, "id"@, DocV::Str(id)))))
                    },
                    _ => Err("parts."@ + id + " must be a table"@),
                }
            },
        }
    }
}

/// A root whose `parts` is a table of named Parts, with `parts` turned into a list.
pub open spec fn keyed(root: Seq<(Seq<char>, DocV)>) -> Result<Seq<(Seq<char>, DocV)>, Seq<char>> {
    match get(root, "parts"@) {
        Some(DocV::Table(ps)) => match keyed_from(ps, ps.len() as int) {
            Ok(a) => Ok(put(root, "parts"@, DocV::Array(a))),
            Err(e) => Err(e),
        },
        _ => Ok(root),
    }
}

/// Shared accent lanes with their rhythms normalized, from the first `n`.
pub open spec fn accents_from(lanes: Seq<(Seq<char>, DocV)>, n: int) -> Result<Seq<(Seq<char>, DocV)>, Seq<char>>
    decreases n,
{
    if n <= 0 || n > lanes.len() {
        Ok(Seq::empty())
    } else {
        match accents_from(lanes, n - 1) {
            Err(e) => Err(e),
            Ok(acc) => {
                let name = lanes[n - 1].0;
                match lanes[n - 1].1 {
                    DocV::Table(f) => if has_key(f, "rhythm"@) {
                        match rhythm_normal(get(f, "rhythm"@)->Some_0) {
                            Ok(x) => Ok(acc.push((name, DocV::Table(put(f, "rhythm"@, x))))),
                            Err(e) => Err("accents."@ + name + ": "@ + e),
                        }
                    } else {
                        Ok(acc.push((name, DocV::Table(f))))
                    },
                    _ => Err("shared accent must be a table"@),
                }
            },
        }
    }
}

pub open spec fn with_accents(root: Seq<(Seq<char>, DocV)>) -> Result<Seq<(Seq<char>, DocV)>, Seq<char>> {
    match get(root, "accents"@) {
        None => Ok(root),
        Some(DocV::Table(ls)) => match accents_from(ls, ls.len() as int) {
            Ok(a) => Ok(put(root, "accents"@, DocV::Table(a))),
            Err(e) => Err(e),
        },
        Some(_) => Err("accents must be named tables"@),
    }
}

/// Whether an expanded Part's output declares controls.
pub open spec fn declares_controls(f: Seq<(Seq<char>, DocV)>) -> bool {
    match get(f, "output"@) {
        Some(DocV::Table(o)) => has_key(o, "controls"@),
        _ => false,
    }
}

/// The Part's parameter lanes set aside, and their names.
pub open spec fn parameters_cleared(f: Seq<(Seq<char>, DocV)>) -> (Seq<(Seq<char>, DocV)>, Seq<Seq<char>>) {
    match get(f, "parameters"@) {
        Some(DocV::Table(l)) => (put(f, "parameters"@, DocV::Table(Seq::empty())), keys_of(l)),
        _ => (f, Seq::empty()),
    }
}

/// The Part's profile controls set aside, and their names.
pub open spec fn controls_cleared(f: Seq<(Seq<char>, DocV)>) -> (Seq<(Seq<char>, DocV)>, Seq<Seq<char>>) {
    match get(f, "profile"@) {
        Some(DocV::Table(p)) => match get(p, "controls"@) {
            Some(DocV::Table(c)) => (
                put(f, "profile"@, DocV::Table(put(p, "controls"@, DocV::Table(Seq::empty())))),
                keys_of(c),
            ),
            _ => (f, Seq::empty()),
        },
        _ => (f, Seq::empty()),
    }
}

/// A gap as values: the Part, the instrument, and the controls that land nowhere.
pub open spec fn gap_view(g: Gap) -> (Seq<char>, Seq<char>, Seq<Seq<char>>) {
    (g.part@, g.instrument@, strings_view(g.controls@))
}

/// A Part expanded: its definition expanded, its own id kept, its profile expanded, and, when
/// it is bound to an instrument that declares no controls, its parameter lanes and profile
/// controls set aside as a gap.
pub open spec fn part_expansion(reg: RegistryV, value: DocV) -> Result<(DocV, Option<(Seq<char>, Seq<char>, Seq<Seq<char>>)>), Seq<char>> {
    match expansion(reg, value, false, Seq::empty()) {
        Err(e) => Err(e),
        Ok((x, kit)) => {
            let idv = match value {
                DocV::Table(t) => get(t, "id"@),
                _ => None,
            };
            match (idv, x) {
                (None, _) => Err("every Part instance needs its own id"@),
                (Some(id), DocV::Table(f0)) => {
                    let f1 = put(f0, "id"@, id);
                    let profiled = match get(f1, "profile"@) {
                        None => Ok(f1),
                        Some(p) => match expansion(reg, p, true, Seq::empty()) {
                            Ok((pe, _)) => Ok(put(f1, "profile"@, pe)),
                            Err(e) => Err(e),
                        },
                    };
                    match profiled {
                        Err(e) => Err(e),
                        Ok(f2) => match kit {
                            Some(instrument) if !declares_controls(f2) => {
                                let (f3, params) = parameters_cleared(f2);
                                let (f4, controls) = controls_cleared(f3);
                                let unbound = params + controls;
                                let part = match id {
                                    DocV::Str(s) => s,
                                    _ => "?"@,
                                };
                                Ok((DocV::Table(f4), if unbound.len() == 0 { None } else { Some((part, instrument, unbound)) }))
                            },
                            _ => Ok((DocV::Table(f2), None)),
                        },
                    }
                },
                (Some(_), _) => Err("expected a TOML table"@),
            }
        },
    }
}

proof fn lemma_keyed_refused(parts: Seq<(Seq<char>, DocV)>, n: int, m: int)
    requires
        0 <= n <= m <= parts.len(),
        keyed_from(parts, n) is Err,
    ensures
        keyed_from(parts, m) == keyed_from(parts, n),
    decreases m - n,
{
    if n < m {
        lemma_keyed_refused(parts, n, m - 1);
    }
}

proof fn lemma_accents_refused(lanes: Seq<(Seq<char>, DocV)>, n: int, m: int)
    requires
        0 <= n <= m <= lanes.len(),
        accents_from(lanes, n) is Err,
    ensures
        accents_from(lanes, m) == accents_from(lanes, n),
    decreases m - n,
{
    if n < m {
        lemma_accents_refused(lanes, n, m - 1);
    }
}

/// Turns `[parts.<id>]` tables into a list, as `keyed_from` says.
#[verifier::loop_isolation(false)]
fn keyed_list(parts: Vec<(String, Doc)>) -> (r: Result<Vec<Doc>, String>)
    ensures
        match keyed_from(entries_view(parts@), parts@.len() as int) {
            Ok(v) => r matches Ok(x) && super::doc::items_view(x@) == v,
            Err(e) => r matches Err(m) && m@ == e,
        },
{
    proof {
        reveal_strlit("parts.");
        reveal_strlit("id");
        reveal_strlit(": the table name supplies id; remove the id field");
        reveal_strlit(" must be a table");
        lemma_entries_view(parts@);
    }
    let mut rest = parts;
    let ghost all = rest@;
    let ghost ev = entries_view(all);
    let total = rest.len();
    let mut out: Vec<Doc> = Vec::new();
    let mut n: usize = 0;
    while rest.len() > 0
        invariant
            n <= all.len(),
            all.len() == total,
            rest@ == all.skip(n as int),
            ev == entries_view(all),
            ev.len() == all.len(),
            forall|j: int| 0 <= j < all.len() ==> #[trigger] ev[j] == (all[j].0@, super::doc::doc_view(all[j].1)),
            out@.len() == n,
            keyed_from(ev, n as int) == Ok::<Seq<DocV>, Seq<char>>(super::doc::items_view(out@)),
        decreases rest@.len(),
    {
        let (id, value) = rest.remove(0);
        proof {
            assert(all[n as int] == (id, value));
            assert(all.skip(n as int).remove(0) =~= all.skip(n + 1));
        }
        match value {
            Doc::Table(f) => {
                if position(&f, "id").is_some() {
                    let mut m = String::from_str("parts.");
                    m.append(id.as_str());
                    m.append(": the table name supplies id; remove the id field");
                    proof {
                        lemma_keyed_refused(ev, n + 1, all.len() as int);
                    }
                    return Err(m);
                }
                let mut f = f;
                let ghost fv = entries_view(f@);
                let ghost idv = id@;
                put_key(&mut f, String::from_str("id"), Doc::Str(id));
                let ghost before = out@;
                let ghost pushed_view = DocV::Table(put(fv, "id"@, DocV::Str(idv)));
                out.push(Doc::Table(f));
                proof {
                    super::doc::lemma_items_view(before);
                    super::doc::lemma_items_view(out@);
                    assert(super::doc::doc_view(out@[n as int]) == pushed_view);
                    assert(super::doc::items_view(out@) =~= super::doc::items_view(before).push(pushed_view));
                }
            },
            _ => {
                let mut m = String::from_str("parts.");
                m.append(id.as_str());
                m.append(" must be a table");
                proof {
                    lemma_keyed_refused(ev, n + 1, all.len() as int);
                }
                return Err(m);
            },
        }
        n = n + 1;
    }
    Ok(out)
}

/// Normalizes the rhythms of shared accent lanes, as `accents_from` says.
#[verifier::loop_isolation(false)]
fn accent_lanes(lanes: Vec<(String, Doc)>) -> (r: Result<Vec<(String, Doc)>, String>)
    ensures
        match accents_from(entries_view(lanes@), lanes@.len() as int) {
            Ok(v) => r matches Ok(x) && entries_view(x@) == v,
            Err(e) => r matches Err(m) && m@ == e,
        },
{
    proof {
        reveal_strlit("accents.");
        reveal_strlit(": ");
        reveal_strlit("rhythm");
        reveal_strlit("shared accent must be a table");
        lemma_entries_view(lanes@);
    }
    let mut rest = lanes;
    let ghost all = rest@;
    let ghost ev = entries_view(all);
    let total = rest.len();
    let mut out: Vec<(String, Doc)> = Vec::new();
    let mut n: usize = 0;
    while rest.len() > 0
        invariant
            n <= all.len(),
            all.len() == total,
            rest@ == all.skip(n as int),
            ev == entries_view(all),
            ev.len() == all.len(),
            forall|j: int| 0 <= j < all.len() ==> #[trigger] ev[j] == (all[j].0@, super::doc::doc_view(all[j].1)),
            accents_from(ev, n as int) == Ok::<Seq<(Seq<char>, DocV)>, Seq<char>>(entries_view(out@)),
        decreases rest@.len(),
    {
        let (name, lane) = rest.remove(0);
        proof {
            assert(all[n as int] == (name, lane));
            assert(all.skip(n as int).remove(0) =~= all.skip(n + 1));
        }
        let ghost nv = name@;
        let f = match lane {
            Doc::Table(f) => f,
            _ => {
                proof {
                    lemma_accents_refused(ev, n + 1, all.len() as int);
                }
                return Err(String::from_str("shared accent must be a table"));
            },
        };
        let mut f = f;
        let ghost f0 = f@;
        let ghost fv = entries_view(f@);
        proof {
            lemma_entries_view(f0);
        }
        match position(&f, "rhythm") {
            Some(j) => {
                let (rk, x) = f.remove(j);
                match normalize_rhythm(x) {
                    Ok(y) => {
                        let ghost yv = y@;
                        f.insert(j, (rk, y));
                        proof {
                            lemma_pos(fv, "rhythm"@);
                            assert(rk@ == "rhythm"@);
                            assert(f@ =~= f0.update(j as int, f@[j as int]));
                            super::doc::lemma_entries_view_from(f@, fv.update(j as int, ("rhythm"@, yv)));
                        }
                        let ghost before = out@;
                        out.push((name, Doc::Table(f)));
                        proof {
                            lemma_entries_view(before);
                            super::doc::lemma_entries_view_from(out@, entries_view(before).push((nv, DocV::Table(put(fv, "rhythm"@, yv)))));
                        }
                    },
                    Err(e) => {
                        let mut m = String::from_str("accents.");
                        m.append(name.as_str());
                        m.append(": ");
                        m.append(e.as_str());
                        proof {
                            lemma_accents_refused(ev, n + 1, all.len() as int);
                        }
                        return Err(m);
                    },
                }
            },
            None => {
                let ghost before = out@;
                out.push((name, Doc::Table(f)));
                proof {
                    lemma_entries_view(before);
                    super::doc::lemma_entries_view_from(out@, entries_view(before).push((nv, DocV::Table(fv))));
                }
            },
        }
        n = n + 1;
    }
    Ok(out)
}

/// The keys of a table.
fn keys_exec(t: &Vec<(String, Doc)>) -> (r: Vec<String>)
    ensures
        strings_view(r@) == keys_of(entries_view(t@)),
{
    proof {
        lemma_entries_view(t@);
    }
    let mut r: Vec<String> = Vec::new();
    let mut i: usize = 0;
    while i < t.len()
        invariant
            i <= t@.len(),
            r@.len() == i,
            entries_view(t@).len() == t@.len(),
            forall|j: int| 0 <= j < t@.len() ==> #[trigger] entries_view(t@)[j] == (t@[j].0@, super::doc::doc_view(t@[j].1)),
            forall|j: int| 0 <= j < i ==> (#[trigger] r@[j])@ == t@[j].0@,
        decreases t@.len() - i,
    {
        let k = t[i].0.clone();
        r.push(k);
        i += 1;
    }
    proof {
        assert(strings_view(r@) =~= keys_of(entries_view(t@)));
    }
    r
}

fn declares_controls_exec(f: &Vec<(String, Doc)>) -> (r: bool)
    ensures
        r == declares_controls(entries_view(f@)),
{
    proof {
        reveal_strlit("output");
        reveal_strlit("controls");
        lemma_entries_view(f@);
    }
    match position(f, "output") {
        Some(i) => match &f[i].1 {
            Doc::Table(o) => position(o, "controls").is_some(),
            _ => false,
        },
        None => false,
    }
}

fn clear_parameters(f: &mut Vec<(String, Doc)>) -> (r: Vec<String>)
    ensures
        (entries_view(final(f)@), strings_view(r@)) == parameters_cleared(entries_view(old(f)@)),
{
    proof {
        reveal_strlit("parameters");
        lemma_entries_view(f@);
    }
    match position(f, "parameters") {
        Some(i) => {
            let keys = match &f[i].1 {
                Doc::Table(l) => keys_exec(l),
                _ => {
                    let v: Vec<String> = Vec::new();
                    proof {
                        assert(strings_view(v@) =~= Seq::<Seq<char>>::empty());
                    }
                    return v;
                },
            };
            let empty: Vec<(String, Doc)> = Vec::new();
            proof {
                assert(entries_view(empty@) =~= Seq::<(Seq<char>, DocV)>::empty());
            }
            put_key(f, String::from_str("parameters"), Doc::Table(empty));
            keys
        },
        None => {
            let v: Vec<String> = Vec::new();
            proof {
                assert(strings_view(v@) =~= Seq::<Seq<char>>::empty());
            }
            v
        },
    }
}

fn clear_controls(f: &mut Vec<(String, Doc)>) -> (r: Vec<String>)
    ensures
        (entries_view(final(f)@), strings_view(r@)) == controls_cleared(entries_view(old(f)@)),
{
    proof {
        reveal_strlit("profile");
        reveal_strlit("controls");
        lemma_entries_view(f@);
    }
    let none = || -> (v: Vec<String>)
        ensures
            strings_view(v@) == Seq::<Seq<char>>::empty(),
    {
        let v: Vec<String> = Vec::new();
        proof {
            assert(strings_view(v@) =~= Seq::<Seq<char>>::empty());
        }
        v
    };
    let i = match position(f, "profile") {
        Some(i) => i,
        None => {
            return none();
        },
    };
    let mut p = match copy_doc(&f[i].1) {
        Doc::Table(p) => p,
        _ => {
            return none();
        },
    };
    proof {
        lemma_entries_view(p@);
    }
    let keys = match position(&p, "controls") {
        Some(j) => match &p[j].1 {
            Doc::Table(c) => keys_exec(c),
            _ => {
                return none();
            },
        },
        None => {
            return none();
        },
    };
    let empty: Vec<(String, Doc)> = Vec::new();
    proof {
        assert(entries_view(empty@) =~= Seq::<(Seq<char>, DocV)>::empty());
    }
    put_key(&mut p, String::from_str("controls"), Doc::Table(empty));
    put_key(f, String::from_str("profile"), Doc::Table(p));
    keys
}

impl Registry {
    /// Expands one Part, as `part_expansion` says: the Part and the gap it leaves, if any.
    pub fn expand_part(&self, value: &Doc) -> (r: Result<(Doc, Option<Gap>), String>)
        ensures
            match part_expansion(self@, value@) {
                Ok(v) => r matches Ok(x) && x.0@ == v.0 && match x.1 {
                    Some(g) => v.1 == Some(gap_view(g)),
                    None => v.1 is None,
                },
                Err(e) => r matches Err(m) && m@ == e,
            },
    {
        proof {
            reveal_strlit("id");
            reveal_strlit("every Part instance needs its own id");
            reveal_strlit("expected a TOML table");
            reveal_strlit("profile");
            reveal_strlit("?");
        }
        let empty: Vec<String> = Vec::new();
        proof {
            assert(strings_view(empty@) =~= Seq::<Seq<char>>::empty());
        }
        let (x, kit) = match self.expand_value(value, false, &empty) {
            Ok(v) => v,
            Err(e) => {
                return Err(e);
            },
        };
        let idv = match value {
            Doc::Table(t) => copy_of(t, "id"),
            _ => None,
        };
        let id = match idv {
            Some(i) => i,
            None => {
                return Err(String::from_str("every Part instance needs its own id"));
            },
        };
        let mut f = match x {
            Doc::Table(f) => f,
            _ => {
                return Err(String::from_str("expected a TOML table"));
            },
        };
        let part_name = match &id {
            Doc::Str(s) => s.clone(),
            _ => String::from_str("?"),
        };
        put_key(&mut f, String::from_str("id"), id);
        proof {
            lemma_entries_view(f@);
        }
        match position(&f, "profile") {
            Some(i) => {
                let (pe, _) = match self.expand_value(&f[i].1, true, &empty) {
                    Ok(v) => v,
                    Err(e) => {
                        return Err(e);
                    },
                };
                put_key(&mut f, String::from_str("profile"), pe);
            },
            None => {},
        }
        match kit {
            Some(instrument) => {
                if declares_controls_exec(&f) {
                    return Ok((Doc::Table(f), None));
                }
                let mut unbound = clear_parameters(&mut f);
                let mut controls = clear_controls(&mut f);
                let ghost a = strings_view(unbound@);
                let ghost b = strings_view(controls@);
                unbound.append(&mut controls);
                proof {
                    assert(strings_view(unbound@) =~= a + b);
                }
                if unbound.len() == 0 {
                    Ok((Doc::Table(f), None))
                } else {
                    Ok((Doc::Table(f), Some(Gap { part: part_name, instrument, controls: unbound })))
                }
            },
            None => Ok((Doc::Table(f), None)),
        }
    }
}

/// The id an error names a Part by: its own `id` string, or `?`.
pub open spec fn id_text(v: DocV) -> Seq<char> {
    match v {
        DocV::Table(t) => match get(t, "id"@) {
            Some(DocV::Str(s)) => s,
            _ => "?"@,
        },
        _ => "?"@,
    }
}

pub open spec fn gaps_of(g: Option<(Seq<char>, Seq<char>, Seq<Seq<char>>)>) -> Seq<(Seq<char>, Seq<char>, Seq<Seq<char>>)> {
    match g {
        Some(x) => seq![x],
        None => Seq::empty(),
    }
}

/// The first `n` Parts of a list expanded, with the gaps they leave, in order.
pub open spec fn parts_from(reg: RegistryV, items: Seq<DocV>, n: int) -> Result<(Seq<DocV>, Seq<(Seq<char>, Seq<char>, Seq<Seq<char>>)>), Seq<char>>
    decreases n,
{
    if n <= 0 || n > items.len() {
        Ok((Seq::empty(), Seq::empty()))
    } else {
        match parts_from(reg, items, n - 1) {
            Err(e) => Err(e),
            Ok((ps, gs)) => match part_expansion(reg, items[n - 1]) {
                Err(e) => Err("parts."@ + id_text(items[n - 1]) + ": "@ + e),
                Ok((p, g)) => Ok((ps.push(p), gs + gaps_of(g))),
            },
        }
    }
}

/// A composition table with its Parts expanded: `[parts.<id>]` listed, shared accents'
/// rhythms normalized, then `part` and every entry of `parts` expanded; with the gaps left.
pub open spec fn flat(reg: RegistryV, root: Seq<(Seq<char>, DocV)>) -> Result<(DocV, Seq<(Seq<char>, Seq<char>, Seq<Seq<char>>)>), Seq<char>> {
    match keyed(root) {
        Err(e) => Err(e),
        Ok(r1) => match with_accents(r1) {
            Err(e) => Err(e),
            Ok(r2) => {
                let single = match get(r2, "part"@) {
                    Some(v) => match part_expansion(reg, v) {
                        Err(e) => Err("parts."@ + id_text(v) + ": "@ + e),
                        Ok((p, g)) => Ok((put(r2, "part"@, p), gaps_of(g))),
                    },
                    None => Ok((r2, Seq::empty())),
                };
                match single {
                    Err(e) => Err(e),
                    Ok((r3, g1)) => match get(r3, "parts"@) {
                        Some(DocV::Array(items)) => match parts_from(reg, items, items.len() as int) {
                            Err(e) => Err(e),
                            Ok((ps, gs)) => Ok((DocV::Table(put(r3, "parts"@, DocV::Array(ps))), g1 + gs)),
                        },
                        Some(_) => Err("parts must be an array of tables"@),
                        None => Ok((DocV::Table(r3), g1)),
                    },
                }
            },
        },
    }
}

proof fn lemma_parts_refused(reg: RegistryV, items: Seq<DocV>, n: int, m: int)
    requires
        0 <= n <= m <= items.len(),
        parts_from(reg, items, n) is Err,
    ensures
        parts_from(reg, items, m) == parts_from(reg, items, n),
    decreases m - n,
{
    if n < m {
        lemma_parts_refused(reg, items, n, m - 1);
    }
}

pub open spec fn gaps_view(g: Seq<Gap>) -> Seq<(Seq<char>, Seq<char>, Seq<Seq<char>>)> {
    g.map_values(|x: Gap| gap_view(x))
}

fn id_text_exec(v: &Doc) -> (r: String)
    ensures
        r@ == id_text(v@),
{
    proof {
        reveal_strlit("id");
        reveal_strlit("?");
    }
    match v {
        Doc::Table(t) => {
            proof {
                lemma_entries_view(t@);
            }
            match position(t, "id") {
                Some(i) => match &t[i].1 {
                    Doc::Str(s) => s.clone(),
                    _ => String::from_str("?"),
                },
                None => String::from_str("?"),
            }
        },
        _ => String::from_str("?"),
    }
}

fn part_error(id: String, e: String) -> (r: String)
    ensures
        r@ == "parts."@ + id@ + ": "@ + e@,
{
    proof {
        reveal_strlit("parts.");
        reveal_strlit(": ");
    }
    let mut m = String::from_str("parts.");
    m.append(id.as_str());
    m.append(": ");
    m.append(e.as_str());
    m
}

impl Registry {
    #[verifier::loop_isolation(false)]
    #[verifier::rlimit(50)]
    fn expand_parts(&self, items: Vec<Doc>) -> (r: Result<(Vec<Doc>, Vec<Gap>), String>)
        ensures
            match parts_from(self@, super::doc::items_view(items@), items@.len() as int) {
                Ok(v) => r matches Ok(x) && super::doc::items_view(x.0@) == v.0 && gaps_view(x.1@) == v.1,
                Err(e) => r matches Err(m) && m@ == e,
            },
    {
        proof {
            super::doc::lemma_items_view(items@);
        }
        let ghost iv = super::doc::items_view(items@);
        let mut out: Vec<Doc> = Vec::new();
        let mut gaps: Vec<Gap> = Vec::new();
        proof {
            assert(gaps_view(gaps@) =~= Seq::empty());
            assert(super::doc::items_view(out@) =~= Seq::empty());
        }
        let mut i: usize = 0;
        while i < items.len()
            invariant
                i <= items@.len(),
                iv == super::doc::items_view(items@),
                iv.len() == items@.len(),
                forall|j: int| 0 <= j < items@.len() ==> #[trigger] iv[j] == super::doc::doc_view(items@[j]),
                out@.len() == i,
                parts_from(self@, iv, i as int) == Ok::<(Seq<DocV>, Seq<(Seq<char>, Seq<char>, Seq<Seq<char>>)>), Seq<char>>(
                    (super::doc::items_view(out@), gaps_view(gaps@))),
            decreases items@.len() - i,
        {
            match self.expand_part(&items[i]) {
                Ok((p, g)) => {
                    let ghost before = out@;
                    let ghost gb = gaps@;
                    let ghost pv = p@;
                    out.push(p);
                    proof {
                        super::doc::lemma_items_view(before);
                        super::doc::lemma_items_view(out@);
                        assert(super::doc::items_view(out@) =~= super::doc::items_view(before).push(pv));
                    }
                    match g {
                        Some(g) => {
                            gaps.push(g);
                            proof {
                                assert(gaps_view(gaps@) =~= gaps_view(gb) + seq![gap_view(gaps@.last())]);
                            }
                        },
                        None => {
                            proof {
                                assert(gaps_view(gaps@) =~= gaps_view(gb) + Seq::empty());
                            }
                        },
                    }
                },
                Err(e) => {
                    let id = id_text_exec(&items[i]);
                    proof {
                        lemma_parts_refused(self@, iv, i + 1, items@.len() as int);
                    }
                    return Err(part_error(id, e));
                },
            }
            i += 1;
        }
        Ok((out, gaps))
    }

}

/// Replacing the first entry under `key` by one under the same key sets that key.
proof fn lemma_replaced(t0: Seq<(String, Doc)>, t1: Seq<(String, Doc)>, i: int, key: Seq<char>, v: DocV)
    requires
        pos(entries_view(t0), key) == i,
        0 <= i < t0.len(),
        t1.len() == t0.len(),
        t1[i].0@ == key,
        super::doc::doc_view(t1[i].1) == v,
        forall|j: int| 0 <= j < t0.len() && j != i ==> t1[j] == t0[j],
    ensures
        entries_view(t1) == put(entries_view(t0), key, v),
{
    lemma_entries_view(t0);
    lemma_entries_view(t1);
    assert(entries_view(t1) =~= entries_view(t0).update(i, (key, v)));
}

fn keyed_root(root: Vec<(String, Doc)>) -> (r: Result<Vec<(String, Doc)>, String>)
    ensures
        match keyed(entries_view(root@)) {
            Ok(v) => r matches Ok(x) && entries_view(x@) == v,
            Err(e) => r matches Err(m) && m@ == e,
        },
{
    proof {
        reveal_strlit("parts");
        lemma_entries_view(root@);
    }
    let mut root = root;
    let ghost t0 = root@;
    let i = match position(&root, "parts") {
        Some(i) => i,
        None => {
            return Ok(root);
        },
    };
    let is_table = match &root[i].1 {
        Doc::Table(_) => true,
        _ => false,
    };
    if !is_table {
        return Ok(root);
    }
    let (k, d) = root.remove(i);
    let ps = match d {
        Doc::Table(ps) => ps,
        other => {
            root.insert(i, (k, other));
            return Ok(root);
        },
    };
    proof {
        lemma_entries_view(ps@);
    }
    let list = match keyed_list(ps) {
        Ok(l) => l,
        Err(e) => {
            return Err(e);
        },
    };
    let ghost lv = DocV::Array(super::doc::items_view(list@));
    root.insert(i, (k, Doc::Array(list)));
    proof {
        lemma_pos(entries_view(t0), "parts"@);
        lemma_replaced(t0, root@, i as int, "parts"@, lv);
    }
    Ok(root)
}

fn accents_root(root: Vec<(String, Doc)>) -> (r: Result<Vec<(String, Doc)>, String>)
    ensures
        match with_accents(entries_view(root@)) {
            Ok(v) => r matches Ok(x) && entries_view(x@) == v,
            Err(e) => r matches Err(m) && m@ == e,
        },
{
    proof {
        reveal_strlit("accents");
        reveal_strlit("accents must be named tables");
        lemma_entries_view(root@);
    }
    let mut root = root;
    let ghost t0 = root@;
    let i = match position(&root, "accents") {
        Some(i) => i,
        None => {
            return Ok(root);
        },
    };
    let (k, d) = root.remove(i);
    let ls = match d {
        Doc::Table(ls) => ls,
        _ => {
            return Err(String::from_str("accents must be named tables"));
        },
    };
    proof {
        lemma_entries_view(ls@);
    }
    let lanes = match accent_lanes(ls) {
        Ok(l) => l,
        Err(e) => {
            return Err(e);
        },
    };
    let ghost lv = DocV::Table(entries_view(lanes@));
    root.insert(i, (k, Doc::Table(lanes)));
    proof {
        lemma_pos(entries_view(t0), "accents"@);
        lemma_replaced(t0, root@, i as int, "accents"@, lv);
    }
    Ok(root)
}

impl Registry {
    fn expand_single(&self, root: Vec<(String, Doc)>) -> (r: Result<(Vec<(String, Doc)>, Vec<Gap>), String>)
        ensures
            match get(entries_view(root@), "part"@) {
                Some(v) => match part_expansion(self@, v) {
                    Err(e) => r matches Err(m) && m@ == "parts."@ + id_text(v) + ": "@ + e,
                    Ok((p, g)) => r matches Ok(x) && entries_view(x.0@) == put(entries_view(root@), "part"@, p)
                        && gaps_view(x.1@) == gaps_of(g),
                },
                None => r matches Ok(x) && entries_view(x.0@) == entries_view(root@) && x.1@.len() == 0,
            },
    {
        proof {
            reveal_strlit("part");
            lemma_entries_view(root@);
        }
        let mut root = root;
        let ghost t0 = root@;
        let i = match position(&root, "part") {
            Some(i) => i,
            None => {
                return Ok((root, Vec::new()));
            },
        };
        let (k, v) = root.remove(i);
        match self.expand_part(&v) {
            Err(e) => {
                let id = id_text_exec(&v);
                Err(part_error(id, e))
            },
            Ok((p, g)) => {
                let ghost pv = p@;
                root.insert(i, (k, p));
                proof {
                    lemma_pos(entries_view(t0), "part"@);
                    lemma_replaced(t0, root@, i as int, "part"@, pv);
                }
                let mut gaps: Vec<Gap> = Vec::new();
                match g {
                    Some(g) => {
                        gaps.push(g);
                        proof {
                            assert(gaps_view(gaps@) =~= seq![gap_view(gaps@[0])]);
                        }
                    },
                    None => {
                        proof {
                            assert(gaps_view(gaps@) =~= Seq::empty());
                        }
                    },
                }
                Ok((root, gaps))
            },
        }
    }

    fn expand_list(&self, root: Vec<(String, Doc)>) -> (r: Result<(Doc, Vec<Gap>), String>)
        ensures
            match get(entries_view(root@), "parts"@) {
                Some(DocV::Array(items)) => match parts_from(self@, items, items.len() as int) {
                    Err(e) => r matches Err(m) && m@ == e,
                    Ok((ps, gs)) => r matches Ok(x) && x.0@ == DocV::Table(put(entries_view(root@), "parts"@, DocV::Array(ps)))
                        && gaps_view(x.1@) == gs,
                },
                Some(_) => r matches Err(m) && m@ == "parts must be an array of tables"@,
                None => r matches Ok(x) && x.0@ == DocV::Table(entries_view(root@)) && x.1@.len() == 0,
            },
    {
        proof {
            reveal_strlit("parts");
            reveal_strlit("parts must be an array of tables");
            lemma_entries_view(root@);
        }
        let mut root = root;
        let ghost t0 = root@;
        let i = match position(&root, "parts") {
            Some(i) => i,
            None => {
                return Ok((Doc::Table(root), Vec::new()));
            },
        };
        let (k, d) = root.remove(i);
        let items = match d {
            Doc::Array(items) => items,
            _ => {
                return Err(String::from_str("parts must be an array of tables"));
            },
        };
        proof {
            super::doc::lemma_items_view(items@);
        }
        let (ps, gaps) = match self.expand_parts(items) {
            Ok(v) => v,
            Err(e) => {
                return Err(e);
            },
        };
        let ghost pv = DocV::Array(super::doc::items_view(ps@));
        root.insert(i, (k, Doc::Array(ps)));
        proof {
            lemma_pos(entries_view(t0), "parts"@);
            lemma_replaced(t0, root@, i as int, "parts"@, pv);
        }
        Ok((Doc::Table(root), gaps))
    }

    /// Expands the Parts of a composition table, as `flat` says.
    pub fn expand_flat(&self, root: Vec<(String, Doc)>) -> (r: Result<(Doc, Vec<Gap>), String>)
        ensures
            match flat(self@, entries_view(root@)) {
                Ok(v) => r matches Ok(x) && x.0@ == v.0 && gaps_view(x.1@) == v.1,
                Err(e) => r matches Err(m) && m@ == e,
            },
    {
        let r1 = match keyed_root(root) {
            Ok(r) => r,
            Err(e) => {
                return Err(e);
            },
        };
        let r2 = match accents_root(r1) {
            Ok(r) => r,
            Err(e) => {
                return Err(e);
            },
        };
        let (r3, mut g1) = match self.expand_single(r2) {
            Ok(v) => v,
            Err(e) => {
                return Err(e);
            },
        };
        let (value, mut g2) = match self.expand_list(r3) {
            Ok(v) => v,
            Err(e) => {
                return Err(e);
            },
        };
        let ghost a = gaps_view(g1@);
        let ghost b = gaps_view(g2@);
        g1.append(&mut g2);
        proof {
            assert(gaps_view(g1@) =~= a + b);
        }
        Ok((value, g1))
    }
}

/// The TOML type name of a value.
pub open spec fn kind_word(v: DocV) -> Seq<char> {
    match v {
        DocV::Str(_) => "string"@,
        DocV::Int(_) => "integer"@,
        DocV::Float(_) => "float"@,
        DocV::Bool(_) => "boolean"@,
        DocV::Time(_) => "datetime"@,
        DocV::Array(_) => "array"@,
        DocV::Table(_) => "table"@,
    }
}

/// Whether the first `n` kit entries that name a behavior resolve to an output table.
pub open spec fn aliases_from(reg: RegistryV, n: int) -> Result<(), Seq<char>>
    decreases n,
{
    if n <= 0 || n > reg.kit.len() {
        Ok(())
    } else {
        match aliases_from(reg, n - 1) {
            Err(e) => Err(e),
            Ok(()) => {
                let name = reg.kit[n - 1].0;
                match reg.kit[n - 1].1 {
                    DocV::Str(_) => match instrument_of(reg, name, Seq::empty()) {
                        Err(e) => Err(e),
                        Ok(o) => match o {
                            DocV::Table(_) => match instrument_entry(o) {
                                Err(e) => Err("kit."@ + name + ": "@ + e),
                                Ok(_) => Ok(()),
                            },
                            _ => Err("kit."@ + name + ": an instrument output must be a table of output fields, not the "@
                                + kind_word(o)),
                        },
                    },
                    _ => Ok(()),
                }
            },
        }
    }
}

proof fn lemma_aliases_refused(reg: RegistryV, n: int, m: int)
    requires
        0 <= n <= m <= reg.kit.len(),
        aliases_from(reg, n) is Err,
    ensures
        aliases_from(reg, m) == aliases_from(reg, n),
    decreases m - n,
{
    if n < m {
        lemma_aliases_refused(reg, n, m - 1);
    }
}

fn kind_word_exec(v: &Doc) -> (r: &'static str)
    ensures
        r@ == kind_word(v@),
{
    proof {
        reveal_strlit("string");
        reveal_strlit("integer");
        reveal_strlit("float");
        reveal_strlit("boolean");
        reveal_strlit("datetime");
        reveal_strlit("array");
        reveal_strlit("table");
    }
    match v {
        Doc::Str(_) => "string",
        Doc::Int(_) => "integer",
        Doc::Float(_) => "float",
        Doc::Bool(_) => "boolean",
        Doc::Time(_) => "datetime",
        Doc::Array(_) => "array",
        Doc::Table(_) => "table",
    }
}

impl Registry {
    fn check_alias(&self, i: usize) -> (r: Result<(), String>)
        requires
            i < self@.kit.len(),
        ensures
            match self@.kit[i as int].1 {
                DocV::Str(_) => match instrument_of(self@, self@.kit[i as int].0, Seq::empty()) {
                    Err(e) => r matches Err(m) && m@ == e,
                    Ok(o) => match o {
                        DocV::Table(_) => match instrument_entry(o) {
                            Err(e) => r matches Err(m) && m@ == "kit."@ + self@.kit[i as int].0 + ": "@ + e,
                            Ok(_) => r is Ok,
                        },
                        _ => r matches Err(m) && m@ == "kit."@ + self@.kit[i as int].0
                            + ": an instrument output must be a table of output fields, not the "@ + kind_word(o),
                    },
                },
                _ => r is Ok,
            },
    {
        proof {
            reveal_strlit("kit.");
            reveal_strlit(": ");
            reveal_strlit(": an instrument output must be a table of output fields, not the ");
            lemma_entries_view(self.kit@);
        }
        let is_alias = match &self.kit[i].1 {
            Doc::Str(_) => true,
            _ => false,
        };
        if !is_alias {
            return Ok(());
        }
        let name = self.kit[i].0.as_str();
        let empty: Vec<String> = Vec::new();
        proof {
            assert(strings_view(empty@) =~= Seq::<Seq<char>>::empty());
        }
        let o = match self.instrument(name, &empty) {
            Ok(o) => o,
            Err(e) => {
                return Err(e);
            },
        };
        let is_table = match &o {
            Doc::Table(_) => true,
            _ => false,
        };
        if !is_table {
            let mut m = String::from_str("kit.");
            m.append(name);
            m.append(": an instrument output must be a table of output fields, not the ");
            m.append(kind_word_exec(&o));
            return Err(m);
        }
        match instrument_check(o) {
            Ok(_) => Ok(()),
            Err(e) => {
                let mut m = String::from_str("kit.");
                m.append(name);
                m.append(": ");
                m.append(e.as_str());
                Err(m)
            },
        }
    }

    /// Checks, once every library is in, that each kit entry naming a behavior resolves to an
    /// output table, as `aliases_from` says.
    pub fn check_aliases(&self) -> (r: Result<(), String>)
        ensures
            match aliases_from(self@, self@.kit.len() as int) {
                Ok(()) => r is Ok,
                Err(e) => r matches Err(m) && m@ == e,
            },
    {
        proof {
            lemma_entries_view(self.kit@);
        }
        let mut i: usize = 0;
        while i < self.kit.len()
            invariant
                i <= self.kit@.len(),
                self@.kit.len() == self.kit@.len(),
                aliases_from(self@, i as int) == Ok::<(), Seq<char>>(()),
            decreases self.kit@.len() - i,
        {
            match self.check_alias(i) {
                Ok(()) => {},
                Err(e) => {
                    proof {
                        lemma_aliases_refused(self@, i + 1, self@.kit.len() as int);
                    }
                    return Err(e);
                },
            }
            i += 1;
        }
        Ok(())
    }
}

/// The registry after one library file: the file is parsed, holds only `imports` (which its
/// loader has already followed) and `library`, and its library is added; an error names the
/// file.
pub open spec fn library_file(r: RegistryV, origin: Seq<char>, text: Seq<char>) -> Result<RegistryV, Seq<char>> {
    match toml_table(text) {
        Err(e) => Err(origin + ": "@ + e),
        Ok(DocV::Table(t)) => {
            let t1 = without(t, "imports"@);
            let rest = without(t1, "library"@);
            let r2 = match get(t1, "library"@) {
                Some(l) => added(r, l, origin),
                None => Ok(r),
            };
            match r2 {
                Err(e) => Err(e),
                Ok(r3) => if rest.len() > 0 {
                    Err("library file "@ + origin + " only accepts imports and library"@)
                } else {
                    Ok(r3)
                },
            }
        },
        Ok(_) => Err(origin + ": "@ + "expected a TOML table"@),
    }
}

/// The registry after the first `n` library files, each given by where it was written and its
/// text.
pub open spec fn libraries_from(r: RegistryV, libs: Seq<(Seq<char>, Seq<char>)>, n: int) -> Result<RegistryV, Seq<char>>
    decreases n,
{
    if n <= 0 || n > libs.len() {
        Ok(r)
    } else {
        match libraries_from(r, libs, n - 1) {
            Err(e) => Err(e),
            Ok(r1) => library_file(r1, libs[n - 1].0, libs[n - 1].1),
        }
    }
}

proof fn lemma_libraries_refused(r: RegistryV, libs: Seq<(Seq<char>, Seq<char>)>, n: int, m: int)
    requires
        0 <= n <= m <= libs.len(),
        libraries_from(r, libs, n) is Err,
    ensures
        libraries_from(r, libs, m) == libraries_from(r, libs, n),
    decreases m - n,
{
    if n < m {
        lemma_libraries_refused(r, libs, n, m - 1);
    }
}

pub open spec fn empty_registry() -> RegistryV {
    RegistryV { behaviors: Seq::empty(), profiles: Seq::empty(), kit: Seq::empty() }
}

pub open spec fn texts_view(v: Seq<(String, String)>) -> Seq<(Seq<char>, Seq<char>)> {
    v.map_values(|e: (String, String)| (e.0@, e.1@))
}

/// A composition text expanded: parsed, the libraries loaded in order, then its own
/// `[library]`; every kit alias resolved; then its phrases, Parts and arrangement expanded,
/// with the gaps met on the way. Its `imports` are the loader's: the files they name come
/// among `libraries`, before the composition's own table.
pub open spec fn drafted(text: Seq<char>, libs: Seq<(Seq<char>, Seq<char>)>) -> Result<(DocV, Seq<(Seq<char>, Seq<char>, Seq<Seq<char>>)>), Seq<char>> {
    match toml_table(text) {
        Err(e) => Err(e),
        Ok(DocV::Table(root)) => match libraries_from(empty_registry(), libs, libs.len() as int) {
            Err(e) => Err(e),
            Ok(r1) => {
                let root1 = without(root, "imports"@);
                let root2 = without(root1, "library"@);
                let r2 = match get(root1, "library"@) {
                    Some(l) => added(r1, l, Seq::empty()),
                    None => Ok(r1),
                };
                match r2 {
                    Err(e) => Err(e),
                    Ok(r3) => match aliases_from(r3, r3.kit.len() as int) {
                        Err(e) => Err(e),
                        Ok(()) => super::phrases::phrased(r3, root2),
                    },
                }
            },
        },
        Ok(_) => Err("expected a TOML table"@),
    }
}

/// An expanded composition together with the gaps its kit left open.
pub struct Draft {
    pub value: Doc,
    pub gaps: Vec<Gap>,
}

impl Registry {
    fn load_file(&mut self, origin: &str, text: &str) -> (r: Result<(), String>)
        ensures
            match library_file(old(self)@, origin@, text@) {
                Ok(v) => r is Ok && final(self)@ == v,
                Err(e) => r matches Err(m) && m@ == e,
            },
    {
        proof {
            reveal_strlit(": ");
            reveal_strlit("expected a TOML table");
            reveal_strlit("imports");
            reveal_strlit("library");
            reveal_strlit("library file ");
            reveal_strlit(" only accepts imports and library");
        }
        let parsed = match parse_toml(text) {
            Ok(d) => d,
            Err(e) => {
                let mut m = String::from_str(origin);
                m.append(": ");
                m.append(e.as_str());
                return Err(m);
            },
        };
        let mut t = match parsed {
            Doc::Table(t) => t,
            _ => {
                let mut m = String::from_str(origin);
                m.append(": ");
                m.append("expected a TOML table");
                return Err(m);
            },
        };
        let _ = take_key(&mut t, "imports");
        match take_key(&mut t, "library") {
            Some(l) => match self.add_library(l, origin) {
                Ok(()) => {},
                Err(e) => {
                    return Err(e);
                },
            },
            None => {},
        }
        proof {
            lemma_entries_view(t@);
        }
        if t.len() > 0 {
            let mut m = String::from_str("library file ");
            m.append(origin);
            m.append(" only accepts imports and library");
            return Err(m);
        }
        Ok(())
    }
}

/// A registry of the libraries, each given by where it was written and its text, in order.
fn load_libraries(libraries: &Vec<(String, String)>) -> (r: Result<Registry, String>)
    ensures
        match libraries_from(empty_registry(), texts_view(libraries@), libraries@.len() as int) {
            Ok(v) => r matches Ok(x) && x@ == v,
            Err(e) => r matches Err(m) && m@ == e,
        },
{
    let mut registry = Registry::new();
    proof {
        assert(registry@ == empty_registry());
    }
    let ghost libs = texts_view(libraries@);
    let mut i: usize = 0;
    while i < libraries.len()
        invariant
            i <= libraries@.len(),
            libs == texts_view(libraries@),
            libs.len() == libraries@.len(),
            libraries_from(empty_registry(), libs, i as int) == Ok::<RegistryV, Seq<char>>(registry@),
        decreases libraries@.len() - i,
    {
        proof {
            assert(libs[i as int] == (libraries@[i as int].0@, libraries@[i as int].1@));
        }
        match registry.load_file(libraries[i].0.as_str(), libraries[i].1.as_str()) {
            Ok(()) => {},
            Err(e) => {
                proof {
                    lemma_libraries_refused(empty_registry(), libs, i + 1, libs.len() as int);
                }
                return Err(e);
            },
        }
        i += 1;
    }
    Ok(registry)
}

/// Expands a composition text with its libraries, as `drafted` says: the expanded document
/// and the gaps its kit left open, in gap order and each once, which a draft may hold but
/// playback refuses.
pub fn expand_draft(text: &str, libraries: &Vec<(String, String)>) -> (r: Result<Draft, String>)
    ensures
        match drafted(text@, texts_view(libraries@)) {
            Ok(v) => r matches Ok(d) && d.value@ == v.0 && gaps_ascending(gaps_view(d.gaps@))
                && gaps_view(d.gaps@).to_set() == v.1.to_set() && (d.gaps@.len() == 0 <==> v.1.len() == 0),
            Err(e) => r matches Err(m) && m@ == e,
        },
{
    proof {
        reveal_strlit("expected a TOML table");
        reveal_strlit("imports");
        reveal_strlit("library");
    }
    let parsed = match parse_toml(text) {
        Ok(d) => d,
        Err(e) => {
            return Err(e);
        },
    };
    let mut root = match parsed {
        Doc::Table(t) => t,
        _ => {
            return Err(String::from_str("expected a TOML table"));
        },
    };
    let mut registry = match load_libraries(libraries) {
        Ok(r) => r,
        Err(e) => {
            return Err(e);
        },
    };
    let _ = take_key(&mut root, "imports");
    proof {
        reveal_strlit("");
        assert(""@ =~= Seq::<char>::empty());
    }
    match take_key(&mut root, "library") {
        Some(l) => match registry.add_library(l, "") {
            Ok(()) => {},
            Err(e) => {
                return Err(e);
            },
        },
        None => {},
    }
    match registry.check_aliases() {
        Ok(()) => {},
        Err(e) => {
            return Err(e);
        },
    }
    match registry.expand_phrased(root) {
        Ok((value, gaps)) => {
            let ghost found = gaps_view(gaps@);
            let listed = collect_gaps(gaps);
            proof {
                assert(gaps_view(listed@) =~= gap_keys(listed@));
                assert(found =~= gap_keys(gaps@));
                if found.len() > 0 {
                    assert(found.to_set().contains(found[0]));
                    assert(listed@.len() > 0);
                }
                if listed@.len() > 0 {
                    assert(gaps_view(listed@).to_set().contains(gaps_view(listed@)[0]));
                    assert(found.len() > 0);
                }
            }
            Ok(Draft { value, gaps: listed })
        },
        Err(e) => Err(e),
    }
}

/// Expands a composition that must be complete: a kit gap is refused.
pub fn expand(text: &str, libraries: &Vec<(String, String)>) -> (r: Result<Doc, String>)
    ensures
        match drafted(text@, texts_view(libraries@)) {
            Ok(v) => if v.1.len() == 0 {
                r matches Ok(d) && d@ == v.0
            } else {
                r is Err
            },
            Err(e) => r matches Err(m) && m@ == e,
        },
        r matches Err(m) ==> match drafted(text@, texts_view(libraries@)) {
            Ok(v) => exists|g: Seq<Gap>|
                gaps_ascending(gaps_view(g)) && gaps_view(g).to_set() == v.1.to_set() && m@ == refusal(g),
            Err(e) => m@ == e,
        },
{
    let draft = match expand_draft(text, libraries) {
        Ok(d) => d,
        Err(e) => {
            return Err(e);
        },
    };
    match refuse(draft.gaps.as_slice()) {
        Ok(()) => {
            proof {
                assert(gaps_view(draft.gaps@).len() == draft.gaps@.len());
            }
            Ok(draft.value)
        },
        Err(e) => {
            proof {
                assert(gaps_view(draft.gaps@).len() == draft.gaps@.len());
            }
            Err(e)
        },
    }
}

} // verus!
