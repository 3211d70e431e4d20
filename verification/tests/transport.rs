use phasecraft::playback::transport::{applied, check_reload, end_steps, Planner, Turn, LATE_NANOS};

#[test]
fn a_run_ends_at_the_earlier_end() {
    assert_eq!(end_steps(Some(64), Some(32)), Some(32));
    assert_eq!(end_steps(Some(16), Some(32)), Some(16));
    assert_eq!(end_steps(None, Some(32)), Some(32));
    assert_eq!(end_steps(Some(7), None), Some(7));
    assert_eq!(end_steps(None, None), None);
}

#[test]
fn watched_runs_reload_at_phrase_boundaries_only() {
    let mut p = Planner::new(None, true, 4);
    assert_eq!(p.turn(true, true), Turn::Plan { step: 0, reload: false, refresh: true });
    assert_eq!(p.turn(true, false), Turn::Wait);
    assert_eq!(p.turn(false, true), Turn::Finish);
    let mut reloads = Vec::new();
    for _ in 0..200 {
        if let Turn::Plan { step, reload: true, .. } = p.turn(true, true) {
            reloads.push(step);
        }
        p.planned();
    }
    assert_eq!(reloads, vec![64, 128, 192]);
    let unwatched = Planner { step: 64, ..Planner::new(None, false, 4) };
    assert_eq!(unwatched.turn(true, true), Turn::Plan { step: 64, reload: false, refresh: true });
}

#[test]
fn a_finite_run_finishes_at_its_end() {
    let mut p = Planner::new(Some(2), false, 4);
    p.planned();
    assert_eq!(p.turn(true, true), Turn::Plan { step: 1, reload: false, refresh: false });
    p.planned();
    assert_eq!(p.turn(true, true), Turn::Finish);
}

#[test]
fn each_distinct_refusal_is_reported_once() {
    let mut p = Planner::new(None, true, 4);
    let refused = || Err("restart playback to change tempo or phrase_bars".to_string());
    assert_eq!(
        p.reloaded(refused()).unwrap(),
        "Reload rejected; continuing previous configuration: restart playback to change tempo or phrase_bars"
    );
    assert_eq!(p.reloaded(refused()), None);
    assert_eq!(p.last_error, "restart playback to change tempo or phrase_bars");
    assert!(p.reloaded(Err("other".to_string())).is_some());
    assert_eq!(p.reloaded(Ok(())), None);
    assert!(p.last_error.is_empty());
    assert!(p.reloaded(refused()).is_some());
}

#[test]
fn a_stalled_step_is_skipped_and_counted() {
    let mut p = Planner::new(None, false, 4);
    assert!(!p.settle(LATE_NANOS));
    assert_eq!((p.step, p.skipped), (0, 0));
    assert!(p.settle(LATE_NANOS + 1));
    assert_eq!((p.step, p.skipped), (1, 1));
}

#[test]
fn reload_refusals_name_what_needs_a_restart() {
    assert!(check_reload(true, true).is_ok());
    assert_eq!(check_reload(false, true).unwrap_err(), "restart playback to change tempo or phrase_bars");
    assert_eq!(
        check_reload(true, false).unwrap_err(),
        "restart playback to change arrangement layout, phrase lengths or routing"
    );
    assert_eq!(applied(64, 7), "Applied configuration at bar 5 (seed 7).");
    assert_eq!(applied(0, 0), "Applied configuration at bar 1 (seed 0).");
}
