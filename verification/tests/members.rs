use phasecraft::music::members::{member_clock, split_dots, ClockScope, LaneClock, LaneKind, VoiceClocks};
use phasecraft::music::router::{Clock, ReturnGroup};

fn scope() -> ClockScope {
    ClockScope {
        voices: vec![
            VoiceClocks {
                id: "hat".into(),
                velocity: Some((false, 3840)),
                trigger_period: Ok(Some(3840)),
                accent_period: Ok(Some(1200)),
            },
            VoiceClocks {
                id: "metal".into(),
                velocity: Some((true, 960)),
                trigger_period: Ok(None),
                accent_period: Err("Part \"metal\": accent period unknown".into()),
            },
            VoiceClocks { id: "kick".into(), velocity: None, trigger_period: Ok(Some(1680)), accent_period: Ok(Some(960)) },
        ],
        lanes: vec![
            LaneClock { name: "drift".into(), kind: LaneKind::Walk { every_ticks: 7680 } },
            LaneClock { name: "pressure".into(), kind: LaneKind::Target },
        ],
    }
}

#[test]
fn keys_split_at_every_dot() {
    assert_eq!(split_dots("voices.hat.trigger.cycle"), vec!["voices", "hat", "trigger", "cycle"]);
    assert_eq!(split_dots("a..b."), vec!["a", "", "b", ""]);
    assert_eq!(split_dots(""), vec![""]);
}

#[test]
fn member_keys_resolve_to_stream_periods_or_name_what_this_engine_lacks() {
    let s = scope();
    assert_eq!(member_clock(&s, "voices.hat.trigger.cycle"), Ok(Clock::Fixed(3840)));
    assert_eq!(member_clock(&s, "parts.hat.accent.cycle"), Ok(Clock::Fixed(1200)));
    assert_eq!(member_clock(&s, "voices.hat.velocity.cycle"), Ok(Clock::Fixed(3840)));
    assert_eq!(member_clock(&s, "voices.metal.velocity.cycle"), Ok(Clock::Event));
    assert_eq!(member_clock(&s, "voices.snare.trigger.cycle"), Ok(Clock::Absent));
    assert_eq!(member_clock(&s, "lanes.drift.every"), Ok(Clock::Fixed(7680)));
}

#[test]
fn each_unreadable_key_names_what_this_engine_lacks() {
    let s = scope();
    assert_eq!(member_clock(&s, "voices.kick.velocity.cycle").unwrap_err(), "voices.kick.velocity.cycle: no velocity value pattern");
    assert_eq!(
        member_clock(&s, "voices.metal.trigger.cycle").unwrap_err(),
        "voices.metal.trigger.cycle: the trigger period does not fit in u64 ticks"
    );
    assert_eq!(member_clock(&s, "voices.metal.accent.cycle").unwrap_err(), "Part \"metal\": accent period unknown");
    assert!(member_clock(&s, "voices.hat.velocity").unwrap_err().ends_with("velocity per=event has no fixed transport period"));
    assert!(member_clock(&s, "patterns.hat-memory.change.every").unwrap_err().contains("(M1.5)"));
    assert_eq!(member_clock(&s, "lanes.weather.every").unwrap_err(), "lanes.weather.every: unknown shared lane");
    assert!(member_clock(&s, "lanes.pressure.every").unwrap_err().starts_with("lanes.pressure.every: target lanes have no member clock"));
    assert!(member_clock(&s, "lanes.drift").unwrap_err().contains("spelled lanes.<name>.every"));
    assert!(member_clock(&s, "weather").unwrap_err().starts_with("weather: not a clock this engine can name"));
}

#[test]
fn a_group_resolves_its_members_and_takes_their_period() {
    let s = scope();
    let g = ReturnGroup { members: vec!["voices.hat.trigger.cycle".into(), "voices.kick.trigger.cycle".into()] };
    let clocks = g.resolve(&s, "g").unwrap();
    assert_eq!(clocks, vec![("voices.hat.trigger.cycle", Clock::Fixed(3840)), ("voices.kick.trigger.cycle", Clock::Fixed(1680))]);
    assert_eq!(g.period_ticks(&s, "g"), Ok(26880));
    let bad = ReturnGroup { members: vec!["voices.hat.trigger.cycle".into(), "lanes.drift".into()] };
    assert!(bad.resolve(&s, "g").unwrap_err().starts_with("returns.g: lanes.drift: not a lane member clock"));
    let absent = ReturnGroup { members: vec!["voices.snare.trigger.cycle".into()] };
    assert_eq!(absent.period_ticks(&s, "g").unwrap_err(), "returns.g: voices.snare.trigger.cycle names a voice the piece does not have");
    let event = ReturnGroup { members: vec!["voices.metal.velocity.cycle".into()] };
    assert!(event.period_ticks(&s, "g").unwrap_err().contains("is event-clocked"));
}
