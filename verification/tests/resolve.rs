use phasecraft::music::resolve::{
    bits_of_digest, decision_bits, decision_message, find_pin, is_default_cell, midi_order, position_text, Address,
    MidiEvent,
};

#[test]
fn a_draw_hashes_its_versioned_framed_address() {
    let m = decision_message(42, "kick", "trigger", 7, "u");
    assert_eq!(&m[..23], b"phasecraft/decision/v1\0");
    assert_eq!(&m[23..31], &42u64.to_le_bytes());
    assert_eq!(&m[31..39], &4u64.to_le_bytes());
    assert_eq!(&m[39..43], b"kick");
    assert_eq!(m.len(), 75);
    assert_eq!(&m[67..], &7u64.to_le_bytes());
}

#[test]
fn the_draw_is_the_top_fifty_three_bits_of_the_digest() {
    assert_eq!(decision_bits(42, "kick", "trigger", 7, "u"), 1381496071113621);
    assert_eq!(decision_bits(0, "moves", "door", 1, "u"), 524160354670069);
    assert!(decision_bits(1, "a", "b", 2, "c") < 1 << 53);
    // a different address is a different draw
    assert_ne!(decision_bits(42, "kick", "trigger", 8, "u"), decision_bits(42, "kick", "trigger", 7, "u"));
}

#[test]
fn digest_bits_read_little_endian_and_drop_eleven() {
    let mut d = vec![0u8; 32];
    d[1] = 0x08;
    assert_eq!(bits_of_digest(&d), 1);
    d[7] = 0xff;
    assert_eq!(bits_of_digest(&d), (0xff00_0000_0000_0800u64) >> 11);
}

#[test]
fn a_pin_is_found_by_its_whole_address() {
    let a = |part: &str, event| Address { part: part.into(), lane: "trigger".into(), event, decision: "u".into() };
    let pins = vec![a("hat", 3), a("kick", 3), a("kick", 3)];
    assert_eq!(find_pin(&pins, "kick", "trigger", 3, "u"), Some(1));
    assert_eq!(find_pin(&pins, "kick", "trigger", 4, "u"), None);
    assert_eq!(find_pin(&pins, "kick", "accent", 3, "u"), None);
}

#[test]
fn midi_order_releases_before_it_starts() {
    let ev = |bytes: [u8; 3], reset_value, boundary_reset| MidiEvent {
        tick: 10,
        bytes,
        reset_value,
        stop_value: None,
        parameter: false,
        boundary_reset,
    };
    assert_eq!(midi_order(&ev([0x80, 36, 0], None, false)), (10, 0, [0x80, 36, 0]));
    assert_eq!(midi_order(&ev([0xb0, 7, 1], None, true)).1, 1);
    assert_eq!(midi_order(&ev([0xb0, 7, 1], None, false)).1, 2);
    assert_eq!(midi_order(&ev([0xb0, 7, 1], Some(0), false)).1, 3);
    assert_eq!(midi_order(&ev([0x90, 36, 100], None, false)).1, 4);
    let mut events = vec![ev([0x90, 36, 100], None, false), ev([0x80, 36, 0], None, false)];
    events.sort_by_key(midi_order);
    assert_eq!(events[0].bytes[0], 0x80);
}

#[test]
fn positions_count_bars_beats_and_sixteenths_from_one() {
    assert_eq!(position_text(0), "1.1.1");
    assert_eq!(position_text(240), "1.1.2");
    assert_eq!(position_text(960), "1.2.1");
    assert_eq!(position_text(3840 * 2 + 960 * 3 + 240 * 3), "3.4.4");
    assert!(is_default_cell(&240));
    assert!(!is_default_cell(&120));
}
