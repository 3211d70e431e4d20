use phasecraft::music::composition::{validate_composition, validate_part, PartCheck};
use phasecraft::music::rhythm::{BooleanOp, Expression, ReferenceMode};
use phasecraft::music::{Output, VelocityProfile};

fn euclid(steps: u32, pulses: u32) -> Expression {
    Expression::Euclidean { steps, pulses, rotation: 0, reset_on_phrase: false }
}

fn part(id: &str, note: u8, trigger: Expression) -> PartCheck {
    PartCheck {
        id: id.into(),
        trigger,
        accent: euclid(16, 0),
        output: Output { channel: 10, note, gate_ticks: 120 },
        profile: VelocityProfile { base: 80, boost: 35 },
        unit_ok: (true, true, true),
        groove: Ok(()),
    }
}

#[test]
fn a_sound_composition_passes() {
    let parts = vec![part("kick", 36, euclid(16, 4)), part("hat", 42, euclid(8, 5))];
    assert!(validate_composition(true, 4, &parts).is_ok());
}

#[test]
fn the_piece_wide_checks_come_first() {
    let parts = vec![part("kick", 36, euclid(16, 4))];
    assert_eq!(validate_composition(false, 4, &parts).unwrap_err(), "tempo must be finite and within 20..400 BPM");
    assert_eq!(validate_composition(true, 0, &parts).unwrap_err(), "phrase_bars must be 1..1024 (4/4)");
    assert_eq!(validate_composition(true, 1025, &parts).unwrap_err(), "phrase_bars must be 1..1024 (4/4)");
    assert_eq!(validate_composition(true, 4, &vec![]).unwrap_err(), "composition requires 1..32 Parts");
    let many: Vec<PartCheck> = (0..33).map(|i| part(&format!("p{i}"), i as u8, euclid(16, 4))).collect();
    assert_eq!(validate_composition(true, 4, &many).unwrap_err(), "composition requires 1..32 Parts");
}

#[test]
fn a_part_check_names_the_part() {
    let mut p = part("kick", 36, euclid(16, 4));
    p.unit_ok = (true, false, false);
    assert_eq!(validate_part(&p).unwrap_err(), "accent.probability must be finite and within 0..1");
    assert_eq!(
        validate_composition(true, 4, &vec![p]).unwrap_err(),
        "Part \"kick\": accent.probability must be finite and within 0..1"
    );
    assert_eq!(validate_part(&part("  ", 36, euclid(16, 4))).unwrap_err(), "part.id cannot be empty");
    assert_eq!(
        validate_part(&part("kick", 36, euclid(8, 9))).unwrap_err(),
        "trigger.rhythm: Euclidean requires 1 <= steps <= 65536 and pulses <= steps"
    );
    let mut g = part("kick", 36, euclid(16, 4));
    g.groove = Err("groove.swing must be within 0..1".into());
    assert_eq!(validate_part(&g).unwrap_err(), "groove.swing must be within 0..1");
}

#[test]
fn midi_routes_and_velocities_are_checked() {
    let mut p = part("kick", 36, euclid(16, 4));
    p.output.channel = 17;
    assert_eq!(validate_part(&p).unwrap_err(), "MIDI channel must be 1..16 and note 0..127");
    let mut q = part("kick", 36, euclid(16, 4));
    q.output.gate_ticks = 240;
    assert_eq!(validate_part(&q).unwrap_err(), "gate_ticks must be 1..239 for this drum slice");
    let mut v = part("kick", 36, euclid(16, 4));
    v.profile.base = 0;
    assert_eq!(validate_part(&v).unwrap_err(), "velocity base must be 1..127 and boost 0..127");
}

#[test]
fn ids_and_routes_are_distinct() {
    let parts = vec![part("kick", 36, euclid(16, 4)), part("kick", 37, euclid(16, 4))];
    assert_eq!(validate_composition(true, 4, &parts).unwrap_err(), "duplicate Part ID \"kick\"");
    let routes = vec![part("kick", 36, euclid(16, 4)), part("bd", 36, euclid(16, 4))];
    assert_eq!(
        validate_composition(true, 4, &routes).unwrap_err(),
        "Parts must use distinct MIDI channel/note pairs; duplicate route on \"bd\""
    );
}

#[test]
fn references_are_resolved_last() {
    let follow = Expression::Binary {
        op: BooleanOp::And,
        a: Box::new(euclid(16, 8)),
        b: Box::new(Expression::Part { id: "snare".into(), mode: ReferenceMode::Hits }),
    };
    let parts = vec![part("hat", 42, follow)];
    assert_eq!(validate_composition(true, 4, &parts).unwrap_err(), "Part \"hat\" references missing Part \"snare\"");
    let a = Expression::Part { id: "b".into(), mode: ReferenceMode::Hits };
    let b = Expression::Part { id: "a".into(), mode: ReferenceMode::Hits };
    let cycle = vec![part("a", 1, a), part("b", 2, b)];
    assert_eq!(validate_composition(true, 4, &cycle).unwrap_err(), "Part dependency cycle: a -> b -> a");
}
