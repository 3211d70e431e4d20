use phasecraft::music::notation::Token;
use phasecraft::music::pitch::{check_pitch_range, closed, ValueLane};

fn midi(t: Option<Token>) -> Option<u8> {
    match t {
        Some(Token::Note { midi, .. }) => Some(midi),
        Some(other) => panic!("expected a note, got {other:?}"),
        None => None,
    }
}

#[test]
fn a_note_lane_holds_each_cycle_value() {
    let lane = ValueLane::parse("<c1 c1 eb1 bb0>", 1).unwrap();
    assert_eq!(lane.cycle_ticks(), 3840);
    assert_eq!(midi(lane.sample(0)), Some(36));
    assert_eq!(midi(lane.sample(3839)), Some(36));
    assert_eq!(midi(lane.sample(2 * 3840)), Some(39));
    assert_eq!(midi(lane.sample(3 * 3840 + 100)), Some(34));
    assert_eq!(midi(lane.sample(4 * 3840)), Some(36));
}

#[test]
fn before_its_first_value_a_lane_reads_nothing_and_then_holds_the_last() {
    let lane = ValueLane::parse("~ c1", 1).unwrap();
    assert_eq!(midi(lane.sample(0)), None);
    assert_eq!(midi(lane.sample(1919)), None);
    assert_eq!(midi(lane.sample(1920)), Some(36));
    // the next cycle's first half holds the previous cycle's value
    assert_eq!(midi(lane.sample(3840)), Some(36));
}

#[test]
fn a_silent_cycle_holds_the_value_of_the_nearest_earlier_cycle() {
    let lane = ValueLane::parse("<c1 ~ ~>", 2).unwrap();
    assert_eq!(lane.cycle_ticks(), 7680);
    assert_eq!(midi(lane.sample(7680)), Some(36));
    assert_eq!(midi(lane.sample(2 * 7680 + 5)), Some(36));
}

#[test]
fn a_lane_refuses_a_bad_length_or_pattern() {
    assert_eq!(ValueLane::parse("c1", 0).unwrap_err(), "cycle_bars must be 1..1024");
    assert_eq!(ValueLane::parse("c1", 1025).unwrap_err(), "cycle_bars must be 1..1024");
    let e = ValueLane::parse("c1 |", 1).unwrap_err();
    assert!(e.starts_with("pattern \"c1 |\": "), "{e}");
    let lane = ValueLane::parse("c1", 1024).unwrap();
    assert_eq!(lane.cycle_bars, 1024);
    assert_eq!(lane.pattern, "c1");
}

#[test]
fn a_value_lane_is_closed_to_chords_ratchets_draws_and_silence() {
    let ok = ValueLane::parse("<0 -5 7>", 1).unwrap();
    assert_eq!(closed(&ok, "pitch").unwrap().len(), 3);
    let chord = ValueLane::parse("[1,3]", 1).unwrap();
    assert_eq!(
        closed(&chord, "note").unwrap_err(),
        "note.pattern \"[1,3]\": a stack is a chord, and a Part sounds one note per attack (chords are D9 step 2)"
    );
    let ratchet = ValueLane::parse("c1*2", 1).unwrap();
    assert!(closed(&ratchet, "note").unwrap_err().ends_with("a value pattern says what, not when"));
    let draw = ValueLane::parse("c1?", 1).unwrap();
    assert!(closed(&draw, "note").unwrap_err().ends_with("a value pattern says what, not when"));
    let silent = ValueLane::parse("~ ~", 1).unwrap();
    assert_eq!(closed(&silent, "pitch").unwrap_err(), "pitch.pattern \"~ ~\": holds no value; a source needs at least one");
}

#[test]
fn the_first_pair_that_leaves_midi_is_named() {
    assert!(check_pitch_range("<0 7>", &vec![36, 120], &vec![0, 7]).is_ok());
    assert_eq!(
        check_pitch_range("<0 12 -40>", &vec![36, 120], &vec![0, 12, -40]).unwrap_err(),
        "pitch.pattern \"<0 12 -40>\": offset 12 from note 120 leaves MIDI 0..=127"
    );
    assert_eq!(
        check_pitch_range("<-40>", &vec![36, 120], &vec![0, -40]).unwrap_err(),
        "pitch.pattern \"<-40>\": offset -40 from note 36 leaves MIDI 0..=127"
    );
}
