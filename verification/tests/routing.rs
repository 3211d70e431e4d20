use phasecraft::music::members::{ClockScope, VoiceClocks};
use phasecraft::music::router::ReturnGroup;
use phasecraft::music::routing::{router_period, validate_router, PieceReturns, RouterCheck, RowCheck, SceneCheck};

fn voice(id: &str, trigger: u64) -> VoiceClocks {
    VoiceClocks { id: id.into(), velocity: Some((true, 960)), trigger_period: Ok(Some(trigger)), accent_period: Ok(Some(3840)) }
}

fn clocks(hat: u64) -> ClockScope {
    ClockScope { voices: vec![voice("hat", hat), voice("kick", 1680)], lanes: vec![] }
}

fn piece(members: &[&str]) -> PieceReturns {
    PieceReturns {
        groups: vec![("g".into(), ReturnGroup { members: members.iter().map(|m| m.to_string()).collect() })],
        clocks: clocks(3840),
    }
}

fn scene(name: &str) -> SceneCheck {
    SceneCheck { name: name.into(), nested: false, same_tempo: true, has_returns: false, composition: Ok(()), clocks: clocks(3840) }
}

fn row(scene: &str) -> RowCheck {
    RowCheck { scene: scene.into(), weights: Ok(()) }
}

fn router() -> RouterCheck {
    RouterCheck {
        every_bars: false,
        every_returns: Some("g".into()),
        start: "crowded".into(),
        scenes: vec![scene("crowded"), scene("hollow")],
        rows: vec![row("crowded"), row("hollow")],
    }
}

const MEMBERS: [&str; 2] = ["voices.hat.trigger.cycle", "voices.kick.trigger.cycle"];

#[test]
fn a_router_clocked_by_a_group_on_the_grid_passes() {
    assert_eq!(router_period(&Some("g".into()), &piece(&MEMBERS)), Ok(26880));
    assert!(validate_router(&router(), &piece(&MEMBERS)).is_ok());
}

#[test]
fn the_clock_must_be_a_group_of_the_piece() {
    let mut bars = router();
    bars.every_bars = true;
    assert!(validate_router(&bars, &piece(&MEMBERS)).unwrap_err().starts_with("router.every = { bars } is M2"));
    let mut none = router();
    none.every_returns = None;
    assert_eq!(
        validate_router(&none, &piece(&MEMBERS)).unwrap_err(),
        "router.every needs { returns = \"<group>\" }; a router clocked in bars is M2"
    );
    let mut other = router();
    other.every_returns = Some("nope".into());
    assert_eq!(validate_router(&other, &piece(&MEMBERS)).unwrap_err(), "router.every.returns = \"nope\": no [returns.nope]");
    let mut off_grid = piece(&["voices.hat.trigger.cycle"]);
    off_grid.clocks = clocks(100);
    assert_eq!(
        validate_router(&router(), &off_grid).unwrap_err(),
        "router: the return group's period is 100 ticks, which is not on the sixteenth grid; the router changes scene on that grid"
    );
}

#[test]
fn scenes_are_named_distinct_and_include_the_start() {
    let mut empty = router();
    empty.scenes.clear();
    assert_eq!(validate_router(&empty, &piece(&MEMBERS)).unwrap_err(), "router requires 1..64 scenes");
    let mut rest = router();
    rest.scenes.push(scene("rest"));
    assert_eq!(
        validate_router(&rest, &piece(&MEMBERS)).unwrap_err(),
        "router: scene names must be nonempty and distinct, and \"rest\" is a weight word, not a scene: \"rest\""
    );
    let mut twice = router();
    twice.scenes.push(scene("hollow"));
    assert!(validate_router(&twice, &piece(&MEMBERS)).unwrap_err().ends_with(": \"hollow\""));
    let mut start = router();
    start.start = "foyer".into();
    assert_eq!(
        validate_router(&start, &piece(&MEMBERS)).unwrap_err(),
        "start = \"foyer\" is not a scene; the router has crowded, hollow"
    );
}

#[test]
fn a_scene_keeps_every_member_period() {
    let mut changed = router();
    changed.scenes[1].clocks = clocks(1920);
    assert_eq!(
        validate_router(&changed, &piece(&MEMBERS)).unwrap_err(),
        "scene \"hollow\" changes the period of returns.g member voices.hat.trigger.cycle from 3840 to 1920 ticks; a return group's period is the piece's, in every scene"
    );
    let mut dropped = router();
    dropped.scenes[1].clocks.voices.remove(0);
    assert!(validate_router(&dropped, &piece(&MEMBERS)).is_ok());
    let mut tempo = router();
    tempo.scenes[0].same_tempo = false;
    assert_eq!(validate_router(&tempo, &piece(&MEMBERS)).unwrap_err(), "scene \"crowded\": every scene plays at the piece's tempo");
    let mut broken = router();
    broken.scenes[0].composition = Err("composition requires 1..32 Parts".into());
    assert_eq!(validate_router(&broken, &piece(&MEMBERS)).unwrap_err(), "scene \"crowded\": composition requires 1..32 Parts");
}

#[test]
fn an_event_clocked_member_in_a_scene_is_refused() {
    let members = ["voices.hat.velocity.cycle"];
    let mut p = piece(&members);
    p.clocks.voices[0].velocity = Some((false, 3840));
    let r = router();
    assert_eq!(
        validate_router(&r, &p).unwrap_err(),
        "scene \"crowded\": returns.g member voices.hat.velocity.cycle is event-clocked there"
    );
}

#[test]
fn every_scene_has_its_row_and_no_row_is_a_stranger() {
    let mut stray = router();
    stray.rows.push(row("foyer"));
    assert_eq!(
        validate_router(&stray, &piece(&MEMBERS)).unwrap_err(),
        "router.routes.foyer: not a scene; a row is keyed by the scene it leaves"
    );
    let mut missing = router();
    missing.rows.pop();
    assert_eq!(
        validate_router(&missing, &piece(&MEMBERS)).unwrap_err(),
        "router.routes has no row for scene \"hollow\"; a room with no row has no door, not even to itself"
    );
    let mut weights = router();
    weights.rows[1].weights = Err("router.routes.hollow sums to 0.95, not 1".into());
    assert_eq!(validate_router(&weights, &piece(&MEMBERS)).unwrap_err(), "router.routes.hollow sums to 0.95, not 1");
}
