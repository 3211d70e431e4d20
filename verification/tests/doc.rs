use phasecraft::authoring::doc::{merge, same_doc, Doc};
use phasecraft::authoring::syntax::normalize_rhythm;

fn s(x: &str) -> Doc {
    Doc::Str(x.into())
}

fn table(entries: Vec<(&str, Doc)>) -> Doc {
    Doc::Table(entries.into_iter().map(|(k, v)| (k.to_string(), v)).collect())
}

#[test]
fn an_overlay_merges_by_key_and_keeps_the_rest() {
    let base = table(vec![("steps", Doc::Int(16)), ("pulses", Doc::Int(4))]);
    let overlay = table(vec![("pulses", Doc::Int(5)), ("rotation", Doc::Int(1))]);
    let expected = table(vec![("steps", Doc::Int(16)), ("pulses", Doc::Int(5)), ("rotation", Doc::Int(1))]);
    assert!(same_doc(&merge(base, overlay), &expected));
}

#[test]
fn a_new_kind_or_use_replaces_the_base() {
    let base = table(vec![("type", s("euclidean")), ("steps", Doc::Int(16))]);
    let overlay = table(vec![("type", s("binary")), ("op", s("or"))]);
    let expected = table(vec![("type", s("binary")), ("op", s("or"))]);
    assert!(same_doc(&merge(base, overlay), &expected));
    let base = table(vec![("use", s("a")), ("gate", Doc::Int(1))]);
    let overlay = table(vec![("compose", Doc::Array(vec![s("b")]))]);
    let expected = table(vec![("gate", Doc::Int(1)), ("compose", Doc::Array(vec![s("b")]))]);
    assert!(same_doc(&merge(base, overlay), &expected));
}

#[test]
fn rhythm_shorthands_become_explicit() {
    let r = normalize_rhythm(table(vec![("part", s("kick"))])).unwrap();
    assert!(same_doc(&r, &table(vec![("id", s("kick")), ("type", s("part"))])));
    let r = normalize_rhythm(table(vec![("op", s("xor")), ("a", table(vec![("steps", Doc::Int(16))]))])).unwrap();
    let expected = table(vec![
        ("op", s("xor")),
        ("type", s("binary")),
        ("a", table(vec![("steps", Doc::Int(16)), ("type", s("euclidean"))])),
    ]);
    assert!(same_doc(&r, &expected));
    assert_eq!(
        normalize_rhythm(table(vec![("part", s("kick")), ("id", s("x"))])).unwrap_err(),
        "rhythm.part conflicts with id or type"
    );
    assert_eq!(normalize_rhythm(Doc::Int(1)).unwrap_err(), "rhythm must be a table");
}
