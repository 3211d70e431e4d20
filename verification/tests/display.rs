use phasecraft::player::{Display, Frame, Hit, HISTORY_LIMIT, PENDING_LIMIT};

fn frame(deadline: u64, step: u64) -> Frame {
    Frame {
        deadline,
        step,
        parts: vec![Hit { id: "hat".into(), eligible: true, fired: step % 2 == 0, accented: false }],
    }
}

#[test]
fn display_waits_for_deadline_and_retains_independent_cycle_phases() {
    let mut d = Display::new();
    d.receive(frame(100, 0));
    d.receive(frame(200, 1));
    d.show_due(99);
    assert!(d.history.is_empty());
    assert_eq!(d.current, None);
    d.show_due(150);
    assert_eq!(d.history.len(), 1);
    assert_eq!(d.current, Some((0, 100)));
    assert_eq!(d.pending.len(), 1);
    d.show_due(200);
    assert_eq!(d.history.iter().map(|h| h.step).collect::<Vec<_>>(), vec![0, 1]);
    assert_eq!(d.current, Some((1, 200)));
    assert!(d.history[0].parts[0].fired && !d.history[1].parts[0].fired);
}

#[test]
fn a_frame_not_yet_due_holds_back_the_ones_behind_it() {
    let mut d = Display::new();
    d.receive(frame(300, 0));
    d.receive(frame(100, 1));
    d.show_due(200);
    assert!(d.history.is_empty());
    assert_eq!(d.pending.len(), 2);
}

#[test]
fn history_keeps_the_most_recent_steps() {
    let mut d = Display::new();
    for step in 0..40 {
        d.receive(frame(step * 10, step));
    }
    d.show_due(1000);
    assert_eq!(d.history.len(), HISTORY_LIMIT);
    assert_eq!(d.history[0].step, 8);
    assert_eq!(d.history[HISTORY_LIMIT - 1].step, 39);
    assert!(d.pending.is_empty());
}

#[test]
fn a_full_queue_drops_its_oldest_frame() {
    let mut d = Display::new();
    for step in 0..(PENDING_LIMIT as u64 + 3) {
        d.receive(frame(1000, step));
    }
    assert_eq!(d.pending.len(), PENDING_LIMIT);
    assert_eq!(d.pending[0].step, 3);
}
