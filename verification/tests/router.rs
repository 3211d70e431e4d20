use phasecraft::music::router::{lcm_ticks, Clock, ReturnGroup};
use phasecraft::music::STEP_TICKS;

const SLOT: u64 = STEP_TICKS;

#[test]
fn sixteen_five_and_seven_slots_line_up_every_thirty_five_bars() {
    let period = lcm_ticks("hat_system", &[("hat", 16 * SLOT), ("memory", 5 * SLOT), ("drift", 7 * SLOT)]).unwrap();
    assert_eq!(period, 560 * SLOT);
    assert_eq!(period / (16 * SLOT), 35);
}

#[test]
fn the_lcm_is_checked_and_names_the_member_that_overflowed() {
    let e = lcm_ticks("g", &[("a", (1 << 40) + 1), ("b", (1 << 40) + 3)]).unwrap_err();
    assert!(e.contains("returns.g") && e.contains("b does not fit"), "{e}");
    let e = lcm_ticks("g", &[("a", 0)]).unwrap_err();
    assert!(e.contains("a has a period of zero"), "{e}");
    assert_eq!(lcm_ticks("g", &[("a", 6), ("b", 4), ("c", 6)]), Ok(12));
}

#[test]
fn an_event_clocked_member_is_refused() {
    let clocks = [("voices.hat.trigger.cycle", Clock::Fixed(16 * SLOT)), ("voices.hat.emphasis", Clock::Event)];
    let e = ReturnGroup::period_from("g", &clocks, false).unwrap_err();
    assert!(e.contains("voices.hat.emphasis is event-clocked"), "{e}");
    assert!(ReturnGroup::period_from("g", &clocks, true).is_err());
}

#[test]
fn an_absent_member_is_refused_by_the_piece_and_allowed_in_a_scene() {
    let clocks = [("voices.hat.trigger.cycle", Clock::Fixed(16 * SLOT)), ("voices.metal.trigger.cycle", Clock::Absent)];
    let e = ReturnGroup::period_from("g", &clocks, false).unwrap_err();
    assert!(e.contains("voices.metal.trigger.cycle names a voice"), "{e}");
    assert_eq!(ReturnGroup::period_from("g", &clocks, true), Ok(16 * SLOT));
}

#[test]
fn every_member_period_divides_the_group_period() {
    let members = [("a", 6u64), ("b", 4), ("c", 10), ("d", 15)];
    let period = lcm_ticks("g", &members).unwrap();
    assert_eq!(period, 60);
    for (_, t) in members {
        assert_eq!(period % t, 0);
    }
}

#[test]
fn messages_are_exact() {
    assert_eq!(
        lcm_ticks("hats", &[("x", 0)]).unwrap_err(),
        "returns.hats: x has a period of zero ticks"
    );
    assert_eq!(
        lcm_ticks("g", &[("a", u64::MAX), ("b", 2)]).unwrap_err(),
        "returns.g: the period of b does not fit in u64 ticks together with the members before it"
    );
    assert_eq!(lcm_ticks("g", &[]), Ok(1));
}

#[test]
fn a_group_needs_a_name_and_distinct_nonblank_members() {
    let group = |m: &[&str]| ReturnGroup { members: m.iter().map(|s| s.to_string()).collect() };
    assert_eq!(group(&["a"]).validate("  ").unwrap_err(), "returns: a group needs a name");
    assert_eq!(group(&[]).validate("g").unwrap_err(), "returns.g: align needs at least one member");
    assert_eq!(group(&["a", "b", "a"]).validate("g").unwrap_err(), "returns.g: empty or duplicate member \"a\"");
    assert_eq!(group(&["a", " "]).validate("g").unwrap_err(), "returns.g: empty or duplicate member \" \"");
    assert!(group(&["voices.hat.trigger.cycle", "voices.kick.trigger.cycle"]).validate("g").is_ok());
}

fn mv(index: u64, tick: u64, from: &str, to: &str) -> phasecraft::music::router::MoveRecord {
    phasecraft::music::router::MoveRecord { index, tick, from: from.into(), to: to.into(), moved: from != to }
}

#[test]
fn before_the_first_return_the_piece_is_in_its_start_scene() {
    let v = phasecraft::music::router::locate("crowded", 3840, 100, &vec![]);
    assert_eq!(v.scene, "crowded");
    assert_eq!((v.index, v.start_tick, v.entered_tick, v.next_tick), (0, 0, 0, 3840));
    assert_eq!(v.from, None);
}

#[test]
fn a_stay_is_not_a_move_and_keeps_the_run_it_is_in() {
    let log = vec![mv(1, 3840, "crowded", "hollow"), mv(2, 7680, "hollow", "hollow"), mv(3, 11520, "hollow", "exposed")];
    let v = phasecraft::music::router::locate("crowded", 3840, 8000, &log);
    assert_eq!(v.scene, "hollow");
    assert_eq!((v.index, v.start_tick, v.entered_tick, v.next_tick), (2, 7680, 3840, 11520));
    assert_eq!(v.from.as_deref(), Some("crowded"));
    let w = phasecraft::music::router::locate("crowded", 3840, 11520, &log);
    assert_eq!(w.scene, "exposed");
    assert_eq!((w.entered_tick, w.from.as_deref()), (11520, Some("hollow")));
}

#[test]
fn the_next_return_saturates_at_the_end_of_time() {
    let log: Vec<_> = (1..=3).map(|i| mv(i, i * (u64::MAX / 3), "a", "a")).collect();
    let v = phasecraft::music::router::locate("a", u64::MAX / 3, u64::MAX, &log);
    assert_eq!(v.index, 3);
    assert_eq!(v.next_tick, u64::MAX);
    assert_eq!(v.entered_tick, 0);
}
