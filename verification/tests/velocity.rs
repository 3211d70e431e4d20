use phasecraft::music::process::{Clock, Per};
use phasecraft::music::velocity::{read_index, validate_carry, CarriedPart, VelocityShape};

#[test]
fn a_step_read_takes_the_value_whose_floored_onset_was_last() {
    // 7 values over 3840 ticks advance at 548, the floor of 3840 / 7.
    assert_eq!(read_index(Per::Step, 7, 3840, 0), 0);
    assert_eq!(read_index(Per::Step, 7, 3840, 547), 0);
    assert_eq!(read_index(Per::Step, 7, 3840, 548), 1);
    assert_eq!(read_index(Per::Step, 7, 3840, 3839), 6);
    assert_eq!(read_index(Per::Step, 7, 3840, 3840 + 548), 1);
    assert_eq!(read_index(Per::Step, 4, 3840, 2879), 2);
    assert_eq!(read_index(Per::Step, 4, 3840, 2880), 3);
}

#[test]
fn an_event_read_wraps_the_values_by_position() {
    assert_eq!(read_index(Per::Event, 4, 3840, 9), 1);
    assert_eq!(read_index(Per::Event, 1, 3840, 12345), 0);
}

fn part(id: &str, v: Option<(bool, usize, Clock)>) -> CarriedPart {
    CarriedPart { id: id.into(), velocity: v.map(|(carries, len, clock)| VelocityShape { carries, len, clock }) }
}

#[test]
fn a_carried_index_keeps_its_count_and_clock_in_every_snapshot() {
    let ok = vec![
        vec![part("hat", Some((true, 4, Clock::Attacks))), part("kick", None)],
        vec![part("kick", Some((false, 3, Clock::Main)))],
        vec![part("hat", Some((true, 4, Clock::Attacks)))],
    ];
    assert!(validate_carry(&ok).is_ok());
    let bad = vec![
        vec![part("hat", Some((true, 4, Clock::Attacks)))],
        vec![part("hat", Some((true, 5, Clock::Attacks)))],
    ];
    assert_eq!(
        validate_carry(&bad).unwrap_err(),
        "Part \"hat\": carried velocity requires the same value count and clock in every active scene/section; absent Parts freeze"
    );
}

#[test]
fn a_snapshot_without_the_carry_or_with_another_clock_is_refused() {
    let uncarried = vec![vec![part("hat", Some((true, 4, Clock::Main)))], vec![part("hat", Some((false, 4, Clock::Main)))]];
    assert!(validate_carry(&uncarried).is_err());
    let no_lane = vec![vec![part("hat", Some((true, 4, Clock::Main)))], vec![part("hat", None)]];
    assert!(validate_carry(&no_lane).is_err());
    let clock = vec![vec![part("hat", Some((true, 4, Clock::Main)))], vec![part("hat", Some((true, 4, Clock::Attacks)))]];
    assert!(validate_carry(&clock).is_err());
    assert!(validate_carry(&vec![]).is_ok());
}
