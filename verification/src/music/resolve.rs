//! The addresses that decisions are drawn at, and the MIDI events that resolution produces.
//! A draw is the top 53 bits of a SHA-256 hash of a versioned, length-framed address:
//! reproducible across platforms and builds, with no mutable random state.
use vstd::prelude::*;

use sha2::{Digest, Sha256};
use vstd::string::StringSliceAdditionalSpecFns;

pub mod cell;
pub mod pinning;
pub mod voice;

verus! {

/// `n` little-endian bytes of `v`.
pub open spec fn le_bytes(v: nat, n: nat) -> Seq<u8>
    decreases n,
{
    if n == 0 {
        Seq::empty()
    } else {
        seq![(v % 256) as u8] + le_bytes(v / 256, (n - 1) as nat)
    }
}

/// The number little-endian bytes `s` spell.
pub open spec fn le_value(s: Seq<u8>) -> nat
    decreases s.len(),
{
    if s.len() == 0 {
        0
    } else {
        s[0] as nat + 256 * le_value(s.drop_first())
    }
}

/// `phasecraft/decision/v1` and a zero byte: the version of the address format.
pub open spec fn decision_prefix() -> Seq<u8> {
    seq![
        0x70u8, 0x68, 0x61, 0x73, 0x65, 0x63, 0x72, 0x61, 0x66, 0x74, 0x2f, 0x64, 0x65, 0x63, 0x69,
        0x73, 0x69, 0x6f, 0x6e, 0x2f, 0x76, 0x31, 0x00,
    ]
}

/// A value preceded by its length as eight little-endian bytes.
pub open spec fn framed(value: Seq<u8>) -> Seq<u8> {
    le_bytes(value.len(), 8) + value
}

/// The bytes one draw hashes.
pub open spec fn decision_message_of(seed: u64, part: Seq<u8>, lane: Seq<u8>, event: u64, decision: Seq<u8>) -> Seq<u8> {
    decision_prefix() + le_bytes(seed as nat, 8) + framed(part) + framed(lane) + framed(decision) + le_bytes(event as nat, 8)
}

/// What SHA-256 computes of a message.
pub uninterp spec fn sha256_of(message: Seq<u8>) -> Seq<u8>;

/// The top 53 bits of the first eight digest bytes, read little-endian.
pub open spec fn digest_bits(digest: Seq<u8>) -> nat {
    le_value(digest.subrange(0, 8)) / 2048
}

/// `sha2::Sha256::digest`: the 32-byte SHA-256 digest of `message`. The contract names the
/// digest and states its length, which the hash's definition fixes; it says nothing else of it.
#[verifier::external_body]
pub(crate) fn sha256(message: &[u8]) -> (r: Vec<u8>)
    ensures
        r@ == sha256_of(message@),
        r@.len() == 32,
{
    Sha256::digest(message).to_vec()
}

/// Appends `v` as eight little-endian bytes.
fn push_le(out: &mut Vec<u8>, v: u64)
    ensures
        final(out)@ == old(out)@ + le_bytes(v as nat, 8),
{
    let mut x = v;
    let mut i: u64 = 0;
    let ghost start = out@;
    proof {
        assert(start + le_bytes(v as nat, 0) =~= start);
    }
    while i < 8
        invariant
            i <= 8,
            out@ + le_bytes(x as nat, (8 - i) as nat) == start + le_bytes(v as nat, 8),
        decreases 8 - i,
    {
        let ghost before = out@;
        proof {
            assert(le_bytes(x as nat, (8 - i) as nat) == seq![(x % 256) as u8] + le_bytes((x / 256) as nat, (8 - i - 1) as nat));
        }
        out.push((x % 256) as u8);
        proof {
            assert(before + (seq![(x % 256) as u8] + le_bytes((x / 256) as nat, (8 - i - 1) as nat))
                =~= out@ + le_bytes((x / 256) as nat, (8 - i - 1) as nat));
        }
        x = x / 256;
        i += 1;
    }
    proof {
        assert(out@ + le_bytes(x as nat, 0) =~= out@);
    }
}

/// Appends the bytes of `s`.
fn push_bytes(out: &mut Vec<u8>, s: &[u8])
    ensures
        final(out)@ == old(out)@ + s@,
{
    let ghost start = out@;
    let mut i: usize = 0;
    while i < s.len()
        invariant
            i <= s@.len(),
            out@ == start + s@.subrange(0, i as int),
        decreases s@.len() - i,
    {
        out.push(s[i]);
        i += 1;
        proof {
            assert(out@ =~= start + s@.subrange(0, i as int));
        }
    }
    proof {
        assert(s@.subrange(0, s@.len() as int) =~= s@);
    }
}

/// The versioned, length-framed bytes the draw at this address hashes.
pub fn decision_message(seed: u64, part: &str, lane: &str, event: u64, decision: &str) -> (m: Vec<u8>)
    ensures
        m@ == decision_message_of(seed, part.spec_bytes(), lane.spec_bytes(), event, decision.spec_bytes()),
{
    let mut m: Vec<u8> = vec![
        0x70u8, 0x68, 0x61, 0x73, 0x65, 0x63, 0x72, 0x61, 0x66, 0x74, 0x2f, 0x64, 0x65, 0x63, 0x69,
        0x73, 0x69, 0x6f, 0x6e, 0x2f, 0x76, 0x31, 0x00,
    ];
    proof {
        assert(m@ =~= decision_prefix());
    }
    push_le(&mut m, seed);
    let p = part.as_bytes();
    push_le(&mut m, p.len() as u64);
    push_bytes(&mut m, p);
    let l = lane.as_bytes();
    push_le(&mut m, l.len() as u64);
    push_bytes(&mut m, l);
    let d = decision.as_bytes();
    push_le(&mut m, d.len() as u64);
    push_bytes(&mut m, d);
    push_le(&mut m, event);
    proof {
        assert(m@ =~= decision_message_of(seed, part.spec_bytes(), lane.spec_bytes(), event, decision.spec_bytes()));
    }
    m
}

/// `256^n`.
pub open spec fn p256(n: nat) -> nat
    decreases n,
{
    if n == 0 { 1 } else { 256 * p256((n - 1) as nat) }
}

/// The draw's 53 bits from a digest: its first eight bytes, little-endian, shifted right by 11.
pub fn bits_of_digest(digest: &[u8]) -> (r: u64)
    requires
        digest@.len() >= 8,
    ensures
        r == digest_bits(digest@),
        r < 0x20_0000_0000_0000,
{
    let ghost first = digest@.subrange(0, 8);
    let mut acc: u128 = 0;
    let mut i: usize = 8;
    proof {
        assert(first.subrange(8, 8) =~= Seq::<u8>::empty());
        reveal_with_fuel(p256, 9);
        assert(p256(8) == 0x1_0000_0000_0000_0000);
    }
    while i > 0
        invariant
            i <= 8,
            digest@.len() >= 8,
            first == digest@.subrange(0, 8),
            acc as nat == le_value(first.subrange(i as int, 8)),
            acc < p256((8 - i) as nat),
            p256(8) == 0x1_0000_0000_0000_0000,
        decreases i,
    {
        i -= 1;
        let b = digest[i];
        proof {
            let rest = first.subrange(i as int, 8);
            assert(rest.drop_first() =~= first.subrange(i + 1, 8));
            assert(rest[0] == b);
            let q = p256((8 - (i + 1)) as nat);
            assert(p256((8 - i) as nat) == 256 * q);
            assert(q <= p256(8)) by {
                lemma_p256_monotone((8 - (i + 1)) as nat, 8);
            }
            assert(b + 256 * acc < 256 * q) by (nonlinear_arith)
                requires acc < q, b < 256, acc + 1 <= q;
        }
        acc = (b as u128) + 256 * acc;
    }
    proof {
        assert(first.subrange(0, 8) =~= first);
    }
    (acc / 2048) as u64
}

proof fn lemma_p256_monotone(a: nat, b: nat)
    requires
        a <= b,
    ensures
        p256(a) <= p256(b),
    decreases b,
{
    if a < b {
        lemma_p256_monotone(a, (b - 1) as nat);
        lemma_p256_positive((b - 1) as nat);
    }
}

proof fn lemma_p256_positive(n: nat)
    ensures
        p256(n) >= 1,
    decreases n,
{
    if n > 0 {
        lemma_p256_positive((n - 1) as nat);
    }
}

/// The 53 bits of the draw at this address.
pub fn decision_bits(seed: u64, part: &str, lane: &str, event: u64, decision: &str) -> (r: u64)
    ensures
        r == digest_bits(sha256_of(decision_message_of(seed, part.spec_bytes(), lane.spec_bytes(), event, decision.spec_bytes()))),
        r < 0x20_0000_0000_0000,
{
    let message = decision_message(seed, part, lane, event, decision);
    let digest = sha256(message.as_slice());
    bits_of_digest(digest.as_slice())
}

/// The exact address one draw hashes: what a pin has to name to force it.
#[derive(Clone, Debug, Default, PartialEq, Eq, PartialOrd, Ord)]
pub struct Address {
    pub part: String,
    pub lane: String,
    pub event: u64,
    pub decision: String,
}

/// Where a pin lands, in the author's words: which dice (`roll`), whose (`voice`, or a shared
/// `accent` lane), and when (`bar`, `slot`, both 1-based; the slot counts the owner's own grid).
#[derive(Clone, Debug, PartialEq)]
pub struct PinAt {
    pub roll: String,
    pub voice: Option<String>,
    pub accent: Option<String>,
    pub bar: u64,
    pub slot: u64,
}

/// Whether `a` is the address `(part, lane, event, decision)`.
pub open spec fn names(a: Address, part: Seq<char>, lane: Seq<char>, event: u64, decision: Seq<char>) -> bool {
    a.event == event && a.part@ == part && a.lane@ == lane && a.decision@ == decision
}

/// The first pin address that names the draw, if any: a pin is consulted before the hash.
pub fn find_pin(pins: &[Address], part: &str, lane: &str, event: u64, decision: &str) -> (r: Option<usize>)
    ensures
        match r {
            Some(i) => i < pins@.len() && names(pins@[i as int], part@, lane@, event, decision@)
                && forall|j: int| 0 <= j < i ==> !names(#[trigger] pins@[j], part@, lane@, event, decision@),
            None => forall|j: int| 0 <= j < pins@.len() ==> !names(#[trigger] pins@[j], part@, lane@, event, decision@),
        },
{
    let mut i: usize = 0;
    while i < pins.len()
        invariant
            i <= pins@.len(),
            forall|j: int| 0 <= j < i ==> !names(#[trigger] pins@[j], part@, lane@, event, decision@),
        decreases pins@.len() - i,
    {
        let a = &pins[i];
        if a.event == event && crate::text::same_text(a.part.as_str(), part)
            && crate::text::same_text(a.lane.as_str(), lane) && crate::text::same_text(a.decision.as_str(), decision) {
            return Some(i);
        }
        i += 1;
    }
    None
}

/// One MIDI message at a transport tick, with what dispatch needs to clean up after it.
#[derive(Clone, Copy, Debug, PartialEq, Eq)]
pub struct MidiEvent {
    pub tick: u64,
    pub bytes: [u8; 3],
    /// A control onset registers a resting value for stop and error cleanup.
    pub reset_value: Option<u8>,
    /// Neutral target restored on stop, independently of per-note emphasis resets.
    pub stop_value: Option<u8>,
    /// A timeline sample: deduplicate values and skip obsolete samples on dispatch.
    pub parameter: bool,
    /// A section transition: reset before the incoming section initialises controls.
    pub boundary_reset: bool,
}

/// Within one tick: note-offs first, then boundary resets, then plain control changes, then
/// control onsets that carry a reset, then everything else.
pub open spec fn order_priority(e: MidiEvent) -> u8 {
    if e.bytes[0] & 0xf0 == 0x80 {
        0
    } else if e.boundary_reset {
        1
    } else if e.bytes[0] & 0xf0 == 0xb0 {
        if e.reset_value is None { 2 } else { 3 }
    } else {
        4
    }
}

/// The sort key of a MIDI event: tick, then priority, then bytes.
pub fn midi_order(event: &MidiEvent) -> (r: (u64, u8, [u8; 3]))
    ensures
        r.0 == event.tick,
        r.1 == order_priority(*event),
        r.2 == event.bytes,
{
    let status = event.bytes[0];
    let priority: u8 = if status & 0xf0 == 0x80 {
        0
    } else if event.boundary_reset {
        1
    } else if status & 0xf0 == 0xb0 {
        if event.reset_value.is_none() { 2 } else { 3 }
    } else {
        4
    };
    (event.tick, priority, event.bytes)
}

/// Whether a subdivision is the default sixteenth: a trace leaves it out.
pub fn is_default_cell(v: &u64) -> (r: bool)
    ensures
        r == (*v == 240),
{
    *v == super::STEP_TICKS
}

/// `bar.beat.sixteenth` of a tick, each counted from one.
pub open spec fn position_of(tick: u64) -> Seq<char> {
    let step = tick as nat / 240;
    crate::text::decimal(step / 16 + 1) + "."@ + crate::text::decimal(step / 4 % 4 + 1) + "."@
        + crate::text::decimal(step % 4 + 1)
}

/// The musical position of a tick, for a trace.
pub fn position_text(tick: u64) -> (r: String)
    ensures
        r@ == position_of(tick),
{
    let step = tick / super::STEP_TICKS;
    let mut m = String::new();
    crate::text::push_decimal(&mut m, (step / 16 + 1) as u128);
    m.append(".");
    crate::text::push_decimal(&mut m, (step / 4 % 4 + 1) as u128);
    m.append(".");
    crate::text::push_decimal(&mut m, (step % 4 + 1) as u128);
    proof {
        reveal_strlit(".");
        assert(m@ =~= position_of(tick));
    }
    m
}

} // verus!
