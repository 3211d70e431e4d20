use phasecraft::playback::controller::{decode, packet, Message};

#[test]
fn wire_rejects_foreign_truncated_and_out_of_range() {
    assert_eq!(decode(&packet(1, &[2])), Some(Message::Hello(2)));
    assert!(decode(&[0xf0, 0x7d]).is_none());
    assert!(decode(&packet(2, &[0, 1, 2, 16, 65])).is_none());
    assert!(decode(&packet(2, &[0, 1, 2, 0, 100])).is_none());
    assert_eq!(
        decode(&packet(2, &[0, 1, 2, 0, 63])),
        Some(Message::Turn { generation: 1, page: 2, slot: 0, delta: -1 })
    );
}

#[test]
fn every_message_kind_reads_back() {
    assert_eq!(decode(&packet(6, &[3])), Some(Message::KitHello(3)));
    assert_eq!(decode(&packet(5, &[1, 2, 3, 15])), Some(Message::Select { generation: 130, page: 3, slot: 15 }));
    assert_eq!(decode(&packet(3, &[127, 127])), Some(Message::Reset { generation: 16383 }));
    assert_eq!(decode(&packet(2, &[0, 0, 1, 4, 72])), Some(Message::Turn { generation: 0, page: 1, slot: 4, delta: 8 }));
}

#[test]
fn frames_are_checked_byte_by_byte() {
    assert_eq!(packet(1, &[2]), vec![0xf0, 0x7d, 0x50, 0x43, 1, 1, 2, 0xf7]);
    // a data byte with the high bit set is not seven-bit
    assert!(decode(&packet(3, &[128, 0])).is_none());
    // a foreign manufacturer
    assert!(decode(&[0xf0, 0x7e, 0x50, 0x43, 1, 1, 2, 0xf7]).is_none());
    // no end byte
    assert!(decode(&[0xf0, 0x7d, 0x50, 0x43, 1, 1, 2]).is_none());
    // hello with a page out of range, select on page 2
    assert!(decode(&packet(1, &[3])).is_none());
    assert!(decode(&packet(5, &[0, 0, 2, 0])).is_none());
    // an unknown kind
    assert!(decode(&packet(9, &[0, 0])).is_none());
}
