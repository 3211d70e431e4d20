use phasecraft::music::arrangement::{same_arrangement_layout, Layout, PhasePolicy, SectionLayout, SectionShape, Shape};
use phasecraft::music::Output;

fn shape(repeat: bool, bars: u32, note: u8) -> Shape {
    Shape {
        repeat,
        sections: vec![SectionShape {
            layout: SectionLayout { phrase: "intro".into(), bars, phase: PhasePolicy::Restart },
            phrase_bars: 4,
            parts: vec![("hat".into(), Output { channel: 10, note, gate_ticks: 120 })],
        }],
    }
}

#[test]
fn a_finite_arrangement_ends_after_its_sections() {
    let layout = |repeat| Layout {
        repeat,
        sections: vec![
            SectionLayout { phrase: "a".into(), bars: 2, phase: PhasePolicy::Restart },
            SectionLayout { phrase: "b".into(), bars: 3, phase: PhasePolicy::Continue },
        ],
    };
    assert_eq!(layout(false).end_step(), Some(80));
    assert_eq!(layout(true).end_step(), None);
}

#[test]
fn musical_edits_keep_the_layout_and_routing_edits_do_not() {
    let a = shape(false, 8, 42);
    assert!(a.same_layout(&shape(false, 8, 42)));
    assert!(!a.same_layout(&shape(true, 8, 42)));
    assert!(!a.same_layout(&shape(false, 4, 42)));
    assert!(!a.same_layout(&shape(false, 8, 43)));
    let mut renamed = shape(false, 8, 42);
    renamed.sections[0].parts[0].0 = "kick".into();
    assert!(!a.same_layout(&renamed));
    let mut relocked = shape(false, 8, 42);
    relocked.sections[0].phrase_bars = 2;
    assert!(!a.same_layout(&relocked));
}

#[test]
fn arrangements_match_only_arrangements() {
    assert!(same_arrangement_layout(&None, &None));
    assert!(!same_arrangement_layout(&Some(shape(false, 8, 42)), &None));
    assert!(!same_arrangement_layout(&None, &Some(shape(false, 8, 42))));
    assert!(same_arrangement_layout(&Some(shape(false, 8, 42)), &Some(shape(false, 8, 42))));
}
