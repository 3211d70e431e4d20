use phasecraft::playback::sync::{ClockOutput, PulseTime, SyncOptions, CLOCK_TICKS};
use phasecraft::playback::MidiOutput;

#[derive(Default)]
struct Capture(Vec<Vec<u8>>);
impl MidiOutput for Capture {
    fn send(&mut self, b: &[u8]) -> Result<(), String> {
        self.0.push(b.to_vec());
        Ok(())
    }
}

struct Broken;
impl MidiOutput for Broken {
    fn send(&mut self, _: &[u8]) -> Result<(), String> {
        Err("port closed".into())
    }
}

const PPQN: u64 = 960;

#[test]
fn exact_clock_count_at_techno_and_dnb_tempos_including_silent_bars() {
    // Deadlines are ticks here; tempo only converts them to time, which is the caller's.
    for _tempo in [132., 172.] {
        let mut lane = ClockOutput::new(SyncOptions { enabled: true, end_tick: Some(PPQN * 4 * 4) });
        let mut sink = Capture::default();
        for pulse in 0..384u64 {
            assert_eq!(lane.deadline(), Some(pulse * CLOCK_TICKS));
            lane.send(&mut sink, PulseTime::Due).unwrap();
        }
        assert!(lane.deadline().is_none());
        lane.stop(&mut sink).unwrap();
        lane.stop(&mut sink).unwrap();
        assert_eq!(sink.0.first().unwrap(), &[0xfa]);
        assert_eq!(sink.0.last().unwrap(), &[0xfc]);
        assert_eq!(sink.0.iter().filter(|b| b.as_slice() == [0xf8]).count(), 384);
        assert_eq!(sink.0.len(), 386);
    }
}

#[test]
fn disabled_early_cancel_and_stalls_do_not_emit_clock_bursts() {
    let mut sink = Capture::default();
    let mut disabled = ClockOutput::new(SyncOptions::default());
    disabled.send(&mut sink, PulseTime::Due).unwrap();
    disabled.stop(&mut sink).unwrap();
    assert!(sink.0.is_empty());
    let mut lane = ClockOutput::new(SyncOptions { enabled: true, end_tick: None });
    lane.send(&mut sink, PulseTime::Early).unwrap();
    lane.stop(&mut sink).unwrap();
    assert!(sink.0.is_empty());
    lane.send(&mut sink, PulseTime::Due).unwrap();
    assert!(lane.send(&mut sink, PulseTime::Missed).is_err());
    lane.stop(&mut sink).unwrap();
    assert_eq!(sink.0, vec![vec![0xfa], vec![0xf8], vec![0xfc]]);
}

#[test]
fn a_missed_deadline_names_the_restart_and_keeps_the_pulse() {
    let mut sink = Capture::default();
    let mut lane = ClockOutput::new(SyncOptions { enabled: true, end_tick: None });
    lane.send(&mut sink, PulseTime::Due).unwrap();
    let e = lane.send(&mut sink, PulseTime::Missed).unwrap_err();
    assert!(e.contains("missed a pulse deadline"));
    assert_eq!(lane.pulses(), 1);
    assert_eq!(lane.deadline(), Some(40));
}

#[test]
fn a_failed_start_still_stops() {
    let mut lane = ClockOutput::new(SyncOptions { enabled: true, end_tick: None });
    assert!(lane.send(&mut Broken, PulseTime::Due).is_err());
    assert_eq!(lane.pulses(), 0);
    let mut sink = Capture::default();
    lane.stop(&mut sink).unwrap();
    assert_eq!(sink.0, vec![vec![0xfc]]);
}

#[test]
fn the_end_tick_is_exclusive() {
    let mut sink = Capture::default();
    let mut lane = ClockOutput::new(SyncOptions { enabled: true, end_tick: Some(80) });
    lane.send(&mut sink, PulseTime::Due).unwrap();
    assert_eq!(lane.deadline(), Some(40));
    lane.send(&mut sink, PulseTime::Due).unwrap();
    assert_eq!(lane.deadline(), None);
    lane.send(&mut sink, PulseTime::Due).unwrap();
    assert_eq!(lane.pulses(), 2);
}
