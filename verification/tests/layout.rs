use phasecraft::authoring::library::{refuse, Gap};
use phasecraft::control::{adjust, euclid};
use phasecraft::music::arrangement::{validate_arrangement, Layout, PhasePolicy, SectionLayout};
use phasecraft::music::cycle::{expression, lcm, PeriodError};
use phasecraft::music::rhythm::{BooleanOp, Expression, ReferenceMode};
use phasecraft::playback::windows_setup::existing;

fn section(phrase: &str, bars: u32, phase: PhasePolicy) -> SectionLayout {
    SectionLayout { phrase: phrase.into(), bars, phase }
}

#[test]
fn a_step_is_located_in_its_section() {
    let layout = Layout {
        repeat: true,
        sections: vec![section("intro", 2, PhasePolicy::Restart), section("drop", 4, PhasePolicy::Continue)],
    };
    assert_eq!(layout.steps(), 96);
    let at = layout.locate(40).unwrap();
    assert_eq!((at.section, at.start_step, at.local_step, at.musical_step), (1, 32, 8, 40));
    assert_eq!((at.position.index, at.position.count, at.position.bar, at.position.cycle), (2, 2, 1, 0));
    let again = layout.locate(96 + 17).unwrap();
    assert_eq!((again.section, again.local_step, again.musical_step, again.position.cycle), (0, 17, 17, 1));
    assert_eq!(again.position.bar, 2);
    let once = Layout { repeat: false, ..layout };
    assert!(once.locate(96).is_none());
    assert!(once.locate(95).is_some());
}

#[test]
fn periods_combine_by_lcm() {
    assert_eq!(lcm(Ok(6), Ok(4)), Ok(12));
    assert_eq!(lcm(Err(PeriodError::Overflow), Err(PeriodError::Retained)), Err(PeriodError::Retained));
    assert_eq!(lcm(Ok(u64::MAX), Ok(2)), Err(PeriodError::Overflow));
    let e = Expression::Binary {
        op: BooleanOp::Or,
        a: Box::new(Expression::Euclidean { steps: 3, pulses: 1, rotation: 0, reset_on_phrase: false }),
        b: Box::new(Expression::Part { id: "kick".into(), mode: ReferenceMode::Hits }),
    };
    assert_eq!(expression(&e, 3840, 240, &[("kick", Ok(960))]), Ok(2880));
    let phrase = Expression::Euclidean { steps: 5, pulses: 2, rotation: 0, reset_on_phrase: true };
    assert_eq!(expression(&phrase, 3840, 240, &[]), Ok(3840));
}

#[test]
fn turning_a_control_keeps_the_rhythm_valid() {
    let mut e = Expression::Euclidean { steps: 8, pulses: 5, rotation: 7, reset_on_phrase: false };
    adjust(&mut e, 0, -4);
    assert!(matches!(e, Expression::Euclidean { steps: 4, pulses: 4, rotation: 3, .. }));
    adjust(&mut e, 1, -10);
    assert!(matches!(e, Expression::Euclidean { steps: 4, pulses: 0, rotation: 3, .. }));
    adjust(&mut e, 2, 2);
    assert!(matches!(e, Expression::Euclidean { steps: 4, pulses: 0, rotation: 1, .. }));
    adjust(&mut e, 0, -100);
    assert!(matches!(e, Expression::Euclidean { steps: 1, pulses: 0, rotation: 0, .. }));
    let mut part = Expression::Part { id: "kick".into(), mode: ReferenceMode::Hits };
    adjust(&mut part, 0, 3);
    assert!(matches!(part, Expression::Part { .. }));
    assert!(matches!(euclid(), Expression::Euclidean { steps: 16, pulses: 0, rotation: 0, reset_on_phrase: false }));
}

#[test]
fn gaps_refuse_playback_and_say_where() {
    assert!(refuse(&[]).is_ok());
    let gap = Gap { part: "hat".into(), instrument: "909".into(), controls: vec!["decay".into(), "tone".into()] };
    assert_eq!(gap.describe(), "Part \"hat\": instrument \"909\" declares no controls, so decay, tone lands nowhere");
    assert_eq!(
        refuse(&[gap.clone()]).unwrap_err(),
        "1 unbound control; inspect or validate the draft, or declare the controls in the kit before playing: Part \"hat\": instrument \"909\" declares no controls, so decay, tone lands nowhere"
    );
    let two = refuse(&[gap.clone(), gap]).unwrap_err();
    assert!(two.starts_with("2 unbound controls; "));
    assert!(two.contains("lands nowhere; Part"));
}

#[test]
fn the_loopback_pair_is_found_by_name() {
    let ports = |names: &[&str]| names.iter().map(|s| s.to_string()).collect::<Vec<_>>();
    assert_eq!(existing(&ports(&["Phasecraft Receive", "Phasecraft Send"])), Ok(Some("Phasecraft Send".into())));
    assert_eq!(existing(&ports(&["IAC"])), Ok(None));
    assert!(existing(&ports(&["Phasecraft Send"])).unwrap_err().starts_with("Only one Phasecraft endpoint"));
}

fn checked(phrase: &str, bars: u32) -> phasecraft::music::arrangement::SectionCheck {
    phasecraft::music::arrangement::SectionCheck {
        layout: SectionLayout { phrase: phrase.into(), bars, phase: PhasePolicy::Restart },
        nested: false,
        same_tempo: true,
        composition: Ok(()),
    }
}

#[test]
fn an_arrangement_checks_each_section_in_order() {
    assert!(validate_arrangement(&vec![checked("intro", 4), checked("drop", 8)]).is_ok());
    assert_eq!(validate_arrangement(&vec![]).unwrap_err(), "arrangement requires 1..64 sections");
    assert_eq!(
        validate_arrangement(&vec![checked("intro", 0)]).unwrap_err(),
        "section requires a phrase name and bars 1..65536"
    );
    let mut nested = checked("intro", 4);
    nested.nested = true;
    assert_eq!(validate_arrangement(&vec![nested]).unwrap_err(), "nested arrangements are not supported");
    let mut tempo = checked("intro", 4);
    tempo.same_tempo = false;
    assert_eq!(validate_arrangement(&vec![tempo]).unwrap_err(), "all arrangement phrases must use the same tempo");
    let mut broken = checked("drop", 4);
    broken.composition = Err("composition requires 1..32 Parts".into());
    assert_eq!(
        validate_arrangement(&vec![checked("intro", 4), broken]).unwrap_err(),
        "phrase \"drop\": composition requires 1..32 Parts"
    );
    assert_eq!(
        validate_arrangement(&vec![checked("a", 65536), checked("b", 1)]).unwrap_err(),
        "arrangement exceeds 65536 bars"
    );
    assert!(validate_arrangement(&vec![checked("a", 65535), checked("b", 1)]).is_ok());
}
