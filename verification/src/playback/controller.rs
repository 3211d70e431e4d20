//! The controller's wire format: SysEx messages with a fixed manufacturer prefix, whose data
//! bytes are all seven-bit. Musical edits live elsewhere, independent of MIDI.
use vstd::prelude::*;

verus! {

/// The SysEx start, the non-commercial manufacturer id, `PC`, and the protocol version.
pub open spec fn prefix() -> Seq<u8> {
    seq![0xf0u8, 0x7d, 0x50, 0x43, 1]
}

/// One controller message.
#[derive(Clone, Copy, Debug, PartialEq, Eq, Structural)]
pub enum Message {
    Hello(u8),
    KitHello(u8),
    Select { generation: u16, page: u8, slot: usize },
    Turn { generation: u16, page: u8, slot: usize, delta: i32 },
    Reset { generation: u16 },
}

/// The generation two seven-bit bytes spell.
pub open spec fn generation_of(hi: u8, lo: u8) -> u16 {
    (hi as nat * 128 + lo as nat) as u16
}

/// Whether `b` is a frame of this protocol: the prefix, seven-bit data, and the SysEx end.
pub open spec fn framed(b: Seq<u8>) -> bool {
    &&& b.len() >= 6
    &&& b.subrange(0, 5) == prefix()
    &&& b.last() == 0xf7u8
    &&& forall|i: int| 5 <= i < b.len() - 1 ==> b[i] <= 127
}

/// The message a frame carries, by its kind byte and length; anything else is refused.
pub open spec fn message_of(b: Seq<u8>) -> Option<Message> {
    if !framed(b) {
        None
    } else if b[5] == 6 && b.len() == 8 && 1 <= b[6] <= 3 {
        Some(Message::KitHello(b[6]))
    } else if b[5] == 5 && b.len() == 11 && (b[8] == 1 || b[8] == 3) && b[9] < 16 {
        Some(Message::Select { generation: generation_of(b[6], b[7]), page: b[8], slot: b[9] as usize })
    } else if b[5] == 1 && b.len() == 8 && 1 <= b[6] <= 2 {
        Some(Message::Hello(b[6]))
    } else if b[5] == 2 && b.len() == 12 && 1 <= b[8] <= 3 && b[9] < 16 && 56 <= b[10] <= 72 {
        Some(Message::Turn {
            generation: generation_of(b[6], b[7]),
            page: b[8],
            slot: b[9] as usize,
            delta: (b[10] as int - 64) as i32,
        })
    } else if b[5] == 3 && b.len() == 9 {
        Some(Message::Reset { generation: generation_of(b[6], b[7]) })
    } else {
        None
    }
}

/// A frame of `kind` around `body`.
pub open spec fn packet_of(kind: u8, body: Seq<u8>) -> Seq<u8> {
    prefix() + seq![kind] + body + seq![0xf7u8]
}

/// Reads one controller message; foreign, truncated and out-of-range frames are refused.
pub fn decode(b: &[u8]) -> (r: Option<Message>)
    ensures
        r == message_of(b@),
{
    let n = b.len();
    if n < 6 || b[0] != 0xf0 || b[1] != 0x7d || b[2] != 0x50 || b[3] != 0x43 || b[4] != 1 || b[n - 1] != 0xf7 {
        proof {
            if n >= 6 && b@.subrange(0, 5) == prefix() {
                assert(b@.subrange(0, 5)[0] == b@[0] && b@.subrange(0, 5)[1] == b@[1] && b@.subrange(0, 5)[2] == b@[2]);
                assert(b@.subrange(0, 5)[3] == b@[3] && b@.subrange(0, 5)[4] == b@[4]);
            }
        }
        return None;
    }
    proof {
        assert(b@.subrange(0, 5) =~= prefix());
    }
    let mut i: usize = 5;
    while i < n - 1
        invariant
            n == b@.len(),
            n >= 6,
            5 <= i <= n - 1,
            forall|j: int| 5 <= j < i ==> b@[j] <= 127,
        decreases n - 1 - i,
    {
        if b[i] > 127 {
            return None;
        }
        i += 1;
    }
    let kind = b[5];
    if kind == 6 && n == 8 && 1 <= b[6] && b[6] <= 3 {
        Some(Message::KitHello(b[6]))
    } else if kind == 5 && n == 11 && (b[8] == 1 || b[8] == 3) && b[9] < 16 {
        Some(Message::Select { generation: (b[6] as u16) * 128 + (b[7] as u16), page: b[8], slot: b[9] as usize })
    } else if kind == 1 && n == 8 && 1 <= b[6] && b[6] <= 2 {
        Some(Message::Hello(b[6]))
    } else if kind == 2 && n == 12 && 1 <= b[8] && b[8] <= 3 && b[9] < 16 && 56 <= b[10] && b[10] <= 72 {
        Some(Message::Turn {
            generation: (b[6] as u16) * 128 + (b[7] as u16),
            page: b[8],
            slot: b[9] as usize,
            delta: (b[10] as i32) - 64,
        })
    } else if kind == 3 && n == 9 {
        Some(Message::Reset { generation: (b[6] as u16) * 128 + (b[7] as u16) })
    } else {
        None
    }
}

/// Frames `body` as a message of `kind`.
pub fn packet(kind: u8, body: &[u8]) -> (v: Vec<u8>)
    ensures
        v@ == packet_of(kind, body@),
{
    let mut v: Vec<u8> = vec![0xf0u8, 0x7d, 0x50, 0x43, 1];
    v.push(kind);
    let mut i: usize = 0;
    while i < body.len()
        invariant
            i <= body@.len(),
            v@ == prefix() + seq![kind] + body@.subrange(0, i as int),
        decreases body@.len() - i,
    {
        v.push(body[i]);
        i += 1;
        proof {
            assert(v@ =~= prefix() + seq![kind] + body@.subrange(0, i as int));
        }
    }
    v.push(0xf7);
    proof {
        assert(body@.subrange(0, body@.len() as int) =~= body@);
        assert(v@ =~= packet_of(kind, body@));
    }
    v
}

/// A frame built by `packet` from seven-bit bytes is read back by its kind and body alone.
pub proof fn lemma_packet_frames(kind: u8, body: Seq<u8>)
    requires
        kind <= 127,
        forall|i: int| 0 <= i < body.len() ==> body[i] <= 127,
    ensures
        framed(packet_of(kind, body)),
        packet_of(kind, body)[5] == kind,
        packet_of(kind, body).len() == body.len() + 7,
        forall|i: int| 0 <= i < body.len() ==> packet_of(kind, body)[6 + i] == body[i],
{
    let p = packet_of(kind, body);
    assert(p.subrange(0, 5) =~= prefix());
    assert forall|i: int| 5 <= i < p.len() - 1 implies p[i] <= 127 by {
        if i > 5 {
            assert(p[i] == body[i - 6]);
        }
    }
}

} // verus!
