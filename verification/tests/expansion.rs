use phasecraft::authoring::doc::{same_doc, Doc};
use phasecraft::authoring::expansion::{expand, expand_draft, import_names, import_refused, parse_toml};

fn lib(text: &str) -> Vec<(String, String)> {
    vec![("lib.toml".to_string(), text.to_string())]
}

fn get<'a>(d: &'a Doc, key: &str) -> Option<&'a Doc> {
    match d {
        Doc::Table(t) => t.iter().find(|(k, _)| k == key).map(|(_, v)| v),
        _ => None,
    }
}

#[test]
fn a_part_inherits_a_behavior_and_overlays_its_own_fields() {
    let library = "[library.behaviors.hat]\noutput = { note = 42, gate = '1/16' }\ntrigger = { rhythm = { steps = 16, pulses = 7 } }\n";
    let d = expand("tempo = 132\n[parts.hat]\nuse = 'hat'\noutput = { note = 44 }\n", &lib(library)).unwrap();
    let parts = match get(&d, "parts") {
        Some(Doc::Array(p)) => p,
        _ => panic!("parts should be a list"),
    };
    assert_eq!(parts.len(), 1);
    let part = &parts[0];
    assert!(same_doc(get(part, "id").unwrap(), &Doc::Str("hat".into())));
    let output = get(part, "output").unwrap();
    assert!(same_doc(get(output, "note").unwrap(), &Doc::Int(44)));
    assert!(same_doc(get(output, "gate_ticks").unwrap(), &Doc::Int(240)));
    let rhythm = get(get(part, "trigger").unwrap(), "rhythm").unwrap();
    assert!(same_doc(get(rhythm, "type").unwrap(), &Doc::Str("euclidean".into())));
}

#[test]
fn a_kit_without_controls_leaves_a_gap_that_playback_refuses() {
    let library = "[library.kit.box]\nnote = 36\n";
    let text = "tempo = 120\n[parts.kick]\nkit = 'box'\nparameters = { cutoff = { value = 0.5 } }\n";
    let draft = expand_draft(text, &lib(library)).unwrap();
    assert_eq!(draft.gaps.len(), 1);
    assert_eq!(draft.gaps[0].describe(), "Part \"kick\": instrument \"box\" declares no controls, so cutoff lands nowhere");
    assert!(expand(text, &lib(library)).unwrap_err().starts_with("1 unbound control; "));
}

#[test]
fn library_errors_name_the_file_and_the_definition() {
    let dup = vec![
        ("a.toml".to_string(), "[library.behaviors.x]\n".to_string()),
        ("b.toml".to_string(), "[library.behaviors.x]\n".to_string()),
    ];
    assert_eq!(expand_draft("tempo = 1\n", &dup).err().unwrap(), "b.toml: duplicate library definition behaviors.x");
    assert_eq!(
        expand_draft("tempo = 1\n", &lib("[library.drums.x]\n")).err().unwrap(),
        "lib.toml: unknown library section \"drums\""
    );
    assert_eq!(
        expand_draft("tempo = 1\nother = 2\n", &lib("other = 1\n")).err().unwrap(),
        "library file lib.toml only accepts imports and library"
    );
}

#[test]
fn cycles_unknown_names_and_bad_aliases_are_refused() {
    let cyclic = "[library.behaviors.a]\nuse = 'b'\n[library.behaviors.b]\nuse = 'a'\n";
    assert_eq!(
        expand_draft("[parts.p]\nuse = 'a'\n", &lib(cyclic)).err().unwrap(),
        "parts.p: library dependency cycle or excessive depth: a -> b -> a"
    );
    assert_eq!(expand_draft("[parts.p]\nuse = 'zzz'\n", &vec![]).err().unwrap(), "parts.p: unknown behavior \"zzz\"");
    assert_eq!(
        expand_draft("[parts.p]\nkit = 'none'\n", &lib("[library.kit.box]\nnote = 1\n")).err().unwrap(),
        "parts.p: unknown instrument \"none\"; the kit declares \"box\""
    );
    assert_eq!(
        expand_draft("tempo = 1\n", &lib("[library.kit]\nalias = 3\n")).err().unwrap(),
        "lib.toml: kit.alias: an instrument is an output table or the name of a behavior"
    );
    assert_eq!(
        expand_draft("tempo = 1\n", &lib("[library.kit]\nalias = 'missing'\n")).err().unwrap(),
        "kit.alias names unknown behavior \"missing\""
    );
}

#[test]
fn parsing_gives_a_table_or_the_parser_error() {
    assert!(matches!(parse_toml("a = 1\n").unwrap(), Doc::Table(_)));
    assert!(parse_toml("a = \n").is_err());
    assert!(expand_draft("a = \n", &vec![]).is_err());
}

fn sections(d: &Doc) -> &Vec<Doc> {
    match get(get(d, "arrangement").unwrap(), "sections") {
        Some(Doc::Array(s)) => s,
        _ => panic!("arrangement.sections should be a list"),
    }
}

#[test]
fn phrases_inherit_and_sections_expand_in_place() {
    let text = "tempo = 120\n[phrases.a]\nphrase_bars = 8\n[phrases.b]\nuse = 'a'\nseed = 3\n[arrangement]\nrepeat = true\nsections = [{ phrase = 'b', repeat = 2 }, { phrase = 'a', bars = 2, phase = 'continue' }]\n";
    let d = expand(text, &vec![]).unwrap();
    assert!(get(&d, "phrases").is_none());
    assert!(same_doc(get(get(&d, "arrangement").unwrap(), "repeat").unwrap(), &Doc::Bool(true)));
    let s = sections(&d);
    assert_eq!(s.len(), 3);
    for section in &s[..2] {
        assert!(same_doc(get(section, "phrase").unwrap(), &Doc::Str("b".into())));
        assert!(same_doc(get(section, "bars").unwrap(), &Doc::Int(8)));
        assert!(same_doc(get(section, "phase").unwrap(), &Doc::Str("restart".into())));
        let c = get(section, "composition").unwrap();
        assert!(same_doc(get(c, "seed").unwrap(), &Doc::Int(3)));
        assert!(same_doc(get(c, "tempo").unwrap(), &Doc::Int(120)));
        assert!(same_doc(get(c, "phrase_bars").unwrap(), &Doc::Int(8)));
    }
    assert!(same_doc(get(&s[2], "bars").unwrap(), &Doc::Int(2)));
    assert!(same_doc(get(&s[2], "phase").unwrap(), &Doc::Str("continue".into())));
    assert!(get(get(&s[2], "composition").unwrap(), "seed").is_none());
}

#[test]
fn phrase_and_arrangement_errors() {
    assert_eq!(
        expand_draft("[phrases.a]\nuse = 'b'\n[phrases.b]\nuse = 'a'\n", &vec![]).err().unwrap(),
        "phrase dependency cycle or excessive depth: a -> b -> a"
    );
    assert_eq!(expand_draft("[phrases.a]\nuse = 'zz'\n", &vec![]).err().unwrap(), "unknown phrase \"zz\"");
    assert_eq!(
        expand_draft("[phrases.a]\ntempo = 3\n", &vec![]).err().unwrap(),
        "phrase \"a\" only accepts use, seed, phrase_bars, parts and accents"
    );
    assert_eq!(
        expand_draft("[arrangement]\nsections = []\n", &vec![]).err().unwrap(),
        "arrangement requires 1..64 sections"
    );
    assert_eq!(
        expand_draft("[arrangement]\nsections = [{ phrase = 'x' }]\n", &vec![]).err().unwrap(),
        "unknown arrangement phrase \"x\""
    );
    assert_eq!(
        expand_draft("[phrases.a]\n[arrangement]\nsections = [{ phrase = 'a', repeat = 65 }]\n", &vec![]).err().unwrap(),
        "expanded arrangement requires 1..64 sections; entry repeat must be 1..64"
    );
}

#[test]
fn imports_are_read_as_names() {
    assert_eq!(import_names("imports = ['a.toml', 'b.toml']\n").unwrap(), vec!["a.toml".to_string(), "b.toml".to_string()]);
    assert!(import_names("tempo = 1\n").unwrap().is_empty());
    assert_eq!(import_names("imports = 'a.toml'\n").unwrap_err(), "imports must be an array of names");
    assert_eq!(import_names("imports = ['a.toml', 3]\n").unwrap_err(), "imports entries must be strings");
    assert!(import_names("imports = [").is_err());
}

#[test]
fn an_import_cycle_or_a_deep_chain_is_refused() {
    let active = vec!["/x/a.toml".to_string(), "/x/b.toml".to_string()];
    assert!(import_refused(&active, "/x/a.toml"));
    assert!(!import_refused(&active, "/x/c.toml"));
    let deep: Vec<String> = (0..16).map(|i| format!("/x/{i}.toml")).collect();
    assert!(import_refused(&deep, "/x/new.toml"));
}
