use phasecraft::music::resolve::pinning::{resolve_pins, AuthoredPin, PinScope, PinVoice, SharedAccent};
use phasecraft::music::resolve::PinAt;
use phasecraft::music::ProbabilityMode;

fn voice(id: &str, cell: u64) -> PinVoice {
    PinVoice {
        id: id.into(),
        cell,
        trigger_mode: ProbabilityMode::PhraseLocked,
        accent_mode: ProbabilityMode::Continuous,
        ratchet_mode: None,
        flam_mode: Some(ProbabilityMode::Continuous),
        ghost_mode: None,
        touch_mode: ProbabilityMode::PhraseLocked,
        draws_velocity: false,
    }
}

fn scope() -> PinScope {
    PinScope {
        voices: vec![voice("kick", 240), voice("swing", 360), voice("whole", 5760)],
        accents: vec![SharedAccent { name: "pulse".into(), mode: ProbabilityMode::PhraseLocked }],
        phrase_bars: 4,
    }
}

fn at(roll: &str, voice: Option<&str>, accent: Option<&str>, bar: u64, slot: u64) -> AuthoredPin {
    AuthoredPin {
        at: PinAt { roll: roll.into(), voice: voice.map(Into::into), accent: accent.map(Into::into), bar, slot },
        u_in_range: true,
    }
}

fn one(p: AuthoredPin) -> Result<(String, String, u64, String), String> {
    resolve_pins(&scope(), &vec![p]).map(|v| {
        let a = &v[0];
        (a.part.clone(), a.lane.clone(), a.event, a.decision.clone())
    })
}

#[test]
fn a_voice_pin_counts_its_slot_inside_the_bar() {
    assert_eq!(one(at("fire", Some("kick"), None, 1, 1)).unwrap(), ("kick".into(), "trigger".into(), 0, "admission".into()));
    // phrase-locked on the sixteenth grid: step 66 of a 64-step phrase
    assert_eq!(one(at("fire", Some("kick"), None, 5, 3)).unwrap().2, 2);
    // continuous: the step itself
    assert_eq!(one(at("accent", Some("kick"), None, 5, 3)).unwrap().2, 66);
    // a dotted grid starts bar 2 at its 11th onset; phrase-locked off the sixteenth grid is in ticks
    assert_eq!(one(at("fire", Some("swing"), None, 2, 1)).unwrap().2, 3960);
    assert_eq!(one(at("flam", Some("kick"), None, 1, 2)).unwrap(), ("kick".into(), "flam".into(), 1, "admission".into()));
    assert_eq!(one(at("timing", Some("kick"), None, 1, 2)).unwrap().1, "groove");
}

#[test]
fn a_grid_that_steps_over_a_bar_says_so() {
    assert_eq!(
        one(at("fire", Some("whole"), None, 3, 1)).unwrap_err(),
        "pin { roll = \"fire\", voice \"whole\", bar = 3, slot = 1 }: \"whole\" has no onset in bar 3; its subdivision is longer than a bar and steps over that one entirely"
    );
    assert_eq!(
        one(at("fire", Some("kick"), None, 1, 17)).unwrap_err(),
        "pin { roll = \"fire\", voice \"kick\", bar = 1, slot = 17 }: slot is 1-based and \"kick\" has 16 slots in bar 1"
    );
}

#[test]
fn dice_a_voice_does_not_have_are_named() {
    assert!(one(at("burst", Some("kick"), None, 1, 1)).unwrap_err().ends_with(": \"kick\" has no ratchet to draw for"));
    assert!(one(at("ghost", Some("kick"), None, 1, 1)).unwrap_err().ends_with(": \"kick\" has no groove that draws \"ghost\""));
    assert!(one(at("velocity", Some("kick"), None, 1, 1)).unwrap_err().contains("has no groove that draws \"velocity\"; one of"));
    assert_eq!(
        one(at("boom", Some("kick"), None, 1, 1)).unwrap_err(),
        "pin { roll = \"boom\", voice \"kick\", bar = 1, slot = 1 }: unknown dice \"boom\"; a voice rolls one of fire, accent, burst, flam, ghost, timing, velocity"
    );
    assert!(one(at("fire", Some("snare"), None, 1, 1)).unwrap_err().ends_with(": no Part \"snare\""));
}

#[test]
fn the_pin_itself_must_be_well_formed() {
    let mut bad = at("fire", Some("kick"), None, 1, 1);
    bad.u_in_range = false;
    assert!(one(bad).unwrap_err().ends_with(": u must be finite and within 0 <= u < 1"));
    assert!(one(at("fire", Some("kick"), None, 0, 1)).unwrap_err().ends_with(": bar is 1-based and at most 10000000"));
    assert!(one(at("fire", Some("kick"), None, 10_000_001, 1)).is_err());
    assert!(one(at("fire", Some("kick"), None, 10_000_000, 16)).is_ok());
    assert_eq!(
        one(at("fire", None, None, 1, 1)).unwrap_err(),
        "pin { roll = \"fire\", no owner, bar = 1, slot = 1 }: name exactly one owner, voice = \"<part>\" or accent = \"<shared lane>\""
    );
    assert!(one(at("fire", Some("kick"), Some("pulse"), 1, 1)).unwrap_err().contains("name exactly one owner"));
}

#[test]
fn a_shared_accent_pin_has_sixteen_slots_a_bar() {
    assert_eq!(
        one(at("accent", None, Some("pulse"), 5, 2)).unwrap(),
        ("pulse".into(), "shared_accent".into(), 1, "shared_admission".into())
    );
    assert!(one(at("fire", None, Some("pulse"), 1, 1)).unwrap_err().ends_with(": a shared accent lane rolls only \"accent\""));
    assert!(one(at("accent", None, Some("pulse"), 1, 17)).unwrap_err().ends_with("a shared accent has 16 slots per bar"));
    assert!(one(at("accent", None, Some("wave"), 1, 1)).unwrap_err().ends_with(": no shared accent \"wave\""));
}

#[test]
fn one_pin_per_draw_and_at_most_256() {
    let twice = vec![at("fire", Some("kick"), None, 1, 1), at("fire", Some("kick"), None, 5, 1)];
    assert_eq!(
        resolve_pins(&scope(), &twice).unwrap_err(),
        "pin { roll = \"fire\", voice \"kick\", bar = 5, slot = 1 } names the same dice as pin { roll = \"fire\", bar = 1, slot = 1 }; one pin per draw"
    );
    let many: Vec<AuthoredPin> = (0..257).map(|k| at("accent", Some("kick"), None, 1 + k / 16, 1 + k % 16)).collect();
    assert_eq!(resolve_pins(&scope(), &many).unwrap_err(), "at most 256 pins are supported");
    assert_eq!(resolve_pins(&scope(), &many[..256].to_vec()).unwrap().len(), 256);
}

#[test]
fn phrase_locked_pins_a_phrase_apart_address_the_same_draw() {
    // four-bar phrases: bar 1 and bar 5 share phrase-locked identities; a dotted grid lines up
    // with the phrase every three phrases
    assert_eq!(one(at("fire", Some("kick"), None, 1, 3)).unwrap(), one(at("fire", Some("kick"), None, 5, 3)).unwrap());
    assert_eq!(one(at("fire", Some("swing"), None, 2, 1)).unwrap(), one(at("fire", Some("swing"), None, 14, 1)).unwrap());
    // continuous identities a phrase apart differ
    assert_ne!(one(at("accent", Some("kick"), None, 1, 3)).unwrap(), one(at("accent", Some("kick"), None, 5, 3)).unwrap());
}
