use phasecraft::music::resolve::MidiEvent;
use phasecraft::playback::{EventDispatcher, MidiOutput, SilentOutput};

#[derive(Default)]
struct Recorder {
    sent: Vec<Vec<u8>>,
    fail: bool,
}
impl MidiOutput for Recorder {
    fn send(&mut self, bytes: &[u8]) -> Result<(), String> {
        if self.fail {
            return Err("port closed".into());
        }
        self.sent.push(bytes.to_vec());
        Ok(())
    }
}

fn note(bytes: [u8; 3]) -> MidiEvent {
    MidiEvent { tick: 0, bytes, reset_value: None, stop_value: None, parameter: false, boundary_reset: false }
}

#[test]
fn cleanup_releases_every_started_note_in_key_order() {
    let mut d = EventDispatcher::new(Recorder::default());
    d.dispatch(&note([0x91, 40, 100]), 0, 10).unwrap();
    d.dispatch(&note([0x90, 36, 100]), 0, 10).unwrap();
    d.dispatch(&note([0x90, 38, 90]), 0, 10).unwrap();
    d.dispatch(&note([0x80, 38, 0]), 0, 10).unwrap();
    d.cleanup().unwrap();
    assert_eq!(
        d.sink.sent,
        vec![
            vec![0x91, 40, 100],
            vec![0x90, 36, 100],
            vec![0x90, 38, 90],
            vec![0x80, 38, 0],
            vec![0x80, 36, 0],
            vec![0x81, 40, 0],
        ]
    );
    assert_eq!(d.stats.sent, 4);
    // a second cleanup has nothing left to release
    d.cleanup().unwrap();
    assert_eq!(d.sink.sent.len(), 6);
}

#[test]
fn a_late_note_on_is_dropped_and_a_foreign_note_off_ignored() {
    let mut d = EventDispatcher::new(Recorder::default());
    d.dispatch(&note([0x90, 36, 100]), 50, 10).unwrap();
    d.dispatch(&note([0x80, 36, 0]), 0, 10).unwrap();
    assert!(d.sink.sent.is_empty());
    assert_eq!(d.stats.dropped_late_notes, 1);
    assert_eq!(d.stats.max_lateness, 50);
    // a velocity-zero note-on is a note-off
    d.dispatch(&note([0x90, 36, 0]), 0, 10).unwrap();
    assert!(d.sink.sent.is_empty());
}

#[test]
fn controls_restore_their_reset_and_stop_values() {
    let mut d = EventDispatcher::new(Recorder::default());
    let onset = MidiEvent { reset_value: Some(20), stop_value: Some(64), ..note([0xb0, 74, 110]) };
    d.dispatch(&onset, 0, 10).unwrap();
    // a timeline sample that repeats the last value is not sent again
    let sample = MidiEvent { parameter: true, ..note([0xb1, 7, 90]) };
    d.dispatch(&sample, 0, 10).unwrap();
    d.dispatch(&sample, 0, 10).unwrap();
    assert_eq!(d.stats.controls_sent, 2);
    d.cleanup().unwrap();
    // the stop value wins over the accent reset
    assert_eq!(d.sink.sent, vec![vec![0xb0, 74, 110], vec![0xb1, 7, 90], vec![0xb0, 74, 64]]);
}

#[test]
fn a_failed_send_still_registers_the_note_for_cleanup() {
    let mut d = EventDispatcher::new(Recorder { fail: true, ..Recorder::default() });
    assert_eq!(d.dispatch(&note([0x90, 36, 100]), 0, 10), Err("port closed".to_string()));
    assert_eq!(d.stats.sent, 0);
    d.sink.fail = false;
    d.cleanup().unwrap();
    assert_eq!(d.sink.sent, vec![vec![0x80, 36, 0]]);
}

#[test]
fn the_silent_output_accepts_everything() {
    let mut d = EventDispatcher::new(SilentOutput);
    d.dispatch(&note([0x90, 36, 100]), 0, 10).unwrap();
    assert!(d.cleanup().is_ok());
    assert_eq!(d.stats.sent, 1);
}
