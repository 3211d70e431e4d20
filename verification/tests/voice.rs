use phasecraft::music::resolve::cell::{
    cell_timing, decision_identity, resolve_cell, shared_admits, shared_identity, shared_step, Admission, CellEvent,
};
use phasecraft::music::resolve::voice::{clamp_velocity, order_messages, to_midi, voice_attacks, window_messages, Attack, NoteControl};
use phasecraft::music::resolve::MidiEvent;
use phasecraft::text::{quoted, quoted_char};
use phasecraft::music::ProbabilityMode;

fn adm(active: bool, below: bool) -> Admission {
    Admission { active, below_probability: below, mode: ProbabilityMode::PhraseLocked }
}

#[test]
fn no_trigger_means_no_note_even_when_the_accent_was_admitted() {
    let r = resolve_cell(5, 240, 64, 120, adm(false, true), adm(true, true), &vec![true]);
    assert!(!r.trigger_admitted && r.accent_admitted);
    assert_eq!(r.event, None);
    let r = resolve_cell(5, 240, 64, 120, adm(true, false), adm(true, true), &vec![]);
    assert_eq!(r.event, None);
}

#[test]
fn an_admitted_trigger_sounds_its_gate_accented_by_its_own_or_a_shared_lane() {
    let r = resolve_cell(5, 240, 64, 120, adm(true, true), adm(false, true), &vec![false, true]);
    assert_eq!(r.tick, 1200);
    assert_eq!(r.event, Some(CellEvent { tick: 1200, duration_ticks: 120, accent_active: true }));
    let r = resolve_cell(5, 240, 64, 120, adm(true, true), adm(true, false), &vec![false]);
    assert_eq!(r.event.unwrap().accent_active, false);
}

#[test]
fn phrase_locked_draws_repeat_at_the_phrase_and_continuous_ones_follow_the_step() {
    let locked = resolve_cell(3, 240, 64, 120, adm(true, true), adm(true, true), &vec![]);
    let later = resolve_cell(67, 240, 64, 120, adm(true, true), adm(true, true), &vec![]);
    assert_eq!(locked.event_identity, 3);
    assert_eq!(later.event_identity, 3);
    let continuous = Admission { active: true, below_probability: true, mode: ProbabilityMode::Continuous };
    let r = resolve_cell(67, 240, 64, 120, continuous, adm(true, true), &vec![]);
    assert_eq!((r.event_identity, r.accent_identity), (67, 3));
    // off the sixteenth grid, a phrase-locked identity is the tick within the phrase
    assert_eq!(decision_identity(64, 160, 100, ProbabilityMode::PhraseLocked), 640);
    assert_eq!(decision_identity(64, 160, 100, ProbabilityMode::Continuous), 100);
    assert_eq!(later.phrase_position, 3);
}

#[test]
fn a_shared_accent_lane_reads_the_sixteenth_a_cell_starts_in() {
    assert_eq!(shared_step(3, 160), 2);
    assert!(!shared_admits(1, 160, adm(true, true)));
    assert!(shared_admits(3, 480, adm(true, true)));
    assert!(!shared_admits(3, 480, adm(true, false)));
    assert_eq!(shared_identity(16, 480, 11, ProbabilityMode::PhraseLocked), 22 % 16);
    assert_eq!(shared_identity(16, 480, 11, ProbabilityMode::Continuous), 22);
}

fn at(tick: u64, velocity: u8, main: bool, owner: usize, duration: u64) -> Attack {
    Attack { tick, velocity, main, owner, duration }
}

#[test]
fn coincident_attacks_merge_into_the_strongest_and_the_next_attack_ends_the_gate() {
    let r = voice_attacks(vec![
        at(480, 90, true, 2, 120),
        at(0, 80, true, 0, 200),
        at(0, 100, false, 1, 50),
        at(240, 70, false, 1, 400),
        at(240, 70, true, 1, 400),
        at(480, 90, true, 1, 120),
    ]);
    assert_eq!(
        r,
        vec![at(0, 100, false, 1, 50), at(240, 70, true, 1, 239), at(480, 90, true, 1, 120)]
    );
    // an attack right after another still keeps one tick
    assert_eq!(voice_attacks(vec![at(10, 1, true, 0, 5), at(11, 1, true, 1, 5)]), vec![at(10, 1, true, 0, 1), at(11, 1, true, 1, 5)]);
    assert!(voice_attacks(vec![]).is_empty());
}

#[test]
fn an_event_becomes_a_note_on_and_its_note_off_with_its_controls() {
    let m = to_midi(10, 42, 108, 960, 120, &vec![NoteControl { channel: 2, cc: 74, value: 100, reset: 64, stop: Some(0) }]);
    assert_eq!(m.len(), 4);
    assert_eq!((m[0].tick, m[0].bytes), (960, [0x99, 42, 108]));
    assert_eq!((m[1].tick, m[1].bytes), (1080, [0x89, 42, 0]));
    assert_eq!((m[2].tick, m[2].bytes, m[2].reset_value, m[2].stop_value), (960, [0xb1, 74, 100], Some(64), Some(0)));
    assert_eq!((m[3].tick, m[3].bytes, m[3].reset_value), (1080, [0xb1, 74, 64], None));
}

#[test]
fn groove_and_the_next_onset_bound_a_cell_s_timing() {
    // no groove: a gate ends before the next cell
    assert_eq!(cell_timing(4, 240, 0, u64::MAX, 500, 240, None, 1200, 0, 0), (960, 239));
    // a late groove keeps the written gate boundary
    assert_eq!(cell_timing(4, 240, 0, u64::MAX, 120, 240, Some(200), 1200, 0, 0), (1160, 39));
    // an early groove never leaves the bar
    assert_eq!(cell_timing(16, 240, 0, u64::MAX, 120, 240, Some(-100), 4080, 0, 0), (3840, 120));
    // a flam on the next onset draws the end earlier, but a gate lasts at least a tick
    assert_eq!(cell_timing(4, 240, 0, u64::MAX, 200, 240, None, 1200, 0, 60), (960, 179));
    assert_eq!(cell_timing(4, 240, 0, u64::MAX, 200, 240, None, 960, 0, 0), (960, 1));
}

#[test]
fn plain_text_is_quoted_as_it_is_and_other_text_is_escaped() {
    assert_eq!(quoted("closed hat"), "\"closed hat\"");
    assert_eq!(quoted("a\"b\n"), "\"a\\\"b\\n\"");
    assert_eq!(quoted_char('x'), "'x'");
}

#[test]
fn a_velocity_is_clamped_to_a_valid_nonzero_value() {
    // base 80 with an accent of 0.8 at boost 35: 80 + 28 = 108
    assert_eq!(clamp_velocity((80.0f64 + 0.8 * 35.0).round() as i64), 108);
    assert_eq!(clamp_velocity(0), 1);
    assert_eq!(clamp_velocity(-5), 1);
    assert_eq!(clamp_velocity(200), 127);
}

fn msg(tick: u64, bytes: [u8; 3], reset: Option<u8>) -> MidiEvent {
    MidiEvent { tick, bytes, reset_value: reset, stop_value: None, parameter: false, boundary_reset: false }
}

#[test]
fn messages_go_out_by_tick_then_note_offs_first_then_controls() {
    let on = msg(240, [0x99, 36, 100], None);
    let off = msg(240, [0x89, 42, 0], None);
    let cc = msg(240, [0xb9, 74, 10], None);
    let onset = msg(240, [0xb9, 74, 90], Some(64));
    let early = msg(0, [0x99, 42, 80], None);
    let r = order_messages(vec![on, onset, cc, off, early]);
    assert_eq!(r, vec![early, off, cc, onset, on]);
    // equal keys keep the order they came in
    let a = MidiEvent { stop_value: Some(1), ..cc };
    assert_eq!(order_messages(vec![a, cc]), vec![a, cc]);
}

#[test]
fn a_window_sends_only_what_it_hears_of_an_event() {
    let pair = to_midi(10, 36, 100, 200, 100, &vec![]);
    // heard: the note-on is before the window, the note-off inside it
    assert_eq!(window_messages(200, 100, &pair, 240, 480), vec![pair[1]]);
    assert_eq!(window_messages(200, 100, &pair, 0, 240), vec![pair[0]]);
    // an event released before the window starts sends nothing
    assert!(window_messages(200, 100, &pair, 301, 480).is_empty());
    assert!(window_messages(200, 100, &pair, 100, 200).is_empty());
}
