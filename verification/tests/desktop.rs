use phasecraft::desktop::{different_commit, Routing, Settings};

#[test]
fn rolling_builds_compare_full_commits_not_semver_or_short_prefixes() {
    let a = "a".repeat(40);
    assert!(!different_commit(&a, &a));
    assert!(different_commit(&format!("{}b", "a".repeat(39)), &a));
    assert!(!different_commit("dev", &a));
    assert!(!different_commit(&a, "unknown"));
}

#[test]
fn a_commit_must_be_hex() {
    let local = "0".repeat(40);
    assert!(!different_commit(&"g".repeat(40), &local));
    assert!(different_commit(&"F".repeat(40), &local));
}

#[test]
fn routing_chooses_one_destination() {
    let named = Routing { port: Some("IAC Bus 1".into()), ..Routing::default() };
    assert!(named.validate(false).is_ok());
    let blank = Routing { port: Some("  ".into()), ..Routing::default() };
    assert_eq!(blank.validate(false).unwrap_err(), "Choose one MIDI destination or silent preview");
    let two = Routing { virtual_port: true, silent: true, ..Routing::default() };
    assert_eq!(two.validate(false).unwrap_err(), "Choose one MIDI destination or silent preview");
    let virtual_port = Routing { virtual_port: true, ..Routing::default() };
    assert!(virtual_port.validate(false).is_ok());
    assert_eq!(virtual_port.validate(true).unwrap_err(), "Select an existing MIDI port on Windows");
    assert!(Routing::default().validate(true).is_ok());
}

#[test]
fn routing_is_kept_per_project_and_a_refused_change_preserves_it() {
    let mut settings = Settings::default();
    let route = Routing { port: Some("Phasecraft".into()), send_clock: true, ..Routing::default() };
    settings.route("project-a".into(), route.clone(), false).unwrap();
    settings.route("project-b".into(), Routing { silent: true, ..Routing::default() }, false).unwrap();
    assert_eq!(settings.projects.len(), 2);
    assert_eq!(settings.projects[0], ("project-a".to_string(), route.clone()));
    let refused = settings.route("project-a".into(), Routing { silent: true, ..route.clone() }, false);
    assert_eq!(refused.unwrap_err(), "Choose one MIDI destination or silent preview");
    assert_eq!(settings.projects[0], ("project-a".to_string(), route.clone()));
    let quiet = Routing { silent: true, ..Routing::default() };
    settings.route("project-a".into(), quiet.clone(), false).unwrap();
    assert_eq!(settings.projects.len(), 2);
    assert_eq!(settings.projects[0], ("project-a".to_string(), quiet));
    assert_eq!(settings.projects[1].0, "project-b");
}

#[test]
fn a_virtual_port_is_refused_on_windows_without_touching_settings() {
    let mut settings = Settings::default();
    let r = settings.route("p".into(), Routing { virtual_port: true, ..Routing::default() }, true);
    assert_eq!(r.unwrap_err(), "Select an existing MIDI port on Windows");
    assert!(settings.projects.is_empty());
}
