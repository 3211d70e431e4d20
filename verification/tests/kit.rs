use phasecraft::playback::kit::{labels, title_packet};

fn ids(v: &[&str]) -> Vec<String> {
    v.iter().map(|s| s.to_string()).collect()
}

#[test]
fn drum_parts_have_their_own_labels() {
    assert_eq!(labels(&ids(&["kick", "snare", "closed_hat", "open_hat"])), ids(&["Kick", "Snar", "CHat", "OHat"]));
}

#[test]
fn other_ids_give_their_first_four_letters_and_digits() {
    assert_eq!(labels(&ids(&["bass-line", "rim 2", "é"])), ids(&["bass", "rim2", "P03"]));
}

#[test]
fn shared_labels_ignoring_case_fall_back_to_numbers() {
    assert_eq!(labels(&ids(&["Ride", "ride!", "tom"])), ids(&["P01", "P02", "tom"]));
}

#[test]
fn a_fallback_that_meets_an_authored_label_numbers_every_part() {
    assert_eq!(labels(&ids(&["p02", "x", "x"])), ids(&["P01", "P02", "P03"]));
}

#[test]
fn numbers_past_nine_keep_their_digits() {
    let many: Vec<String> = (0..12).map(|_| "same".to_string()).collect();
    let l = labels(&many);
    assert_eq!(l[0], "P01");
    assert_eq!(l[9], "P10");
    assert_eq!(l[11], "P12");
}

#[test]
fn the_title_stars_a_pending_edit_and_pads_to_fifteen() {
    let p = title_packet(200, 2, "kick", true);
    let mut want = vec![0xf0, 0x7d, 0x50, 0x43, 1, 7, 1, 72, 2];
    want.extend(b"* kick         ");
    want.push(0xf7);
    assert_eq!(p, want);
}

#[test]
fn kit_pages_name_the_page_and_mask_what_the_display_cannot_show() {
    let p = title_packet(3, 3, "hé-hat-long-name", false);
    let mut want = vec![0xf0, 0x7d, 0x50, 0x43, 1, 7, 0, 3, 3];
    want.extend(b"Kit 2 / h?-hat-");
    want.push(0xf7);
    assert_eq!(p, want);
    let q = title_packet(0, 1, "", false);
    assert_eq!(&q[9..24], b"Kit 1 /        ");
}
