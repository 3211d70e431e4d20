//! One Part owns one MIDI voice: coincident attacks merge into the strongest, the next attack
//! cuts its gate short, and every event becomes a note-on and its note-off.
use vstd::prelude::*;

use super::{midi_order, order_priority, MidiEvent};

verus! {

/// An attack a Part's cell produced: its main hit or an ornament.
#[derive(Clone, Copy, Debug, PartialEq, Eq, Structural)]
pub struct Attack {
    pub tick: u64,
    pub velocity: u8,
    /// The cell's main hit, not an ornament.
    pub main: bool,
    /// The cell the attack belongs to, in cell order.
    pub owner: usize,
    pub duration: u64,
}

/// Whether `a` wins over `b` at the same tick: a higher velocity, then a main hit over an
/// ornament, then the earlier cell.
pub open spec fn stronger(a: Attack, b: Attack) -> bool {
    ||| a.velocity > b.velocity
    ||| a.velocity == b.velocity && a.main && !b.main
    ||| a.velocity == b.velocity && a.main == b.main && a.owner < b.owner
}

/// Attack `i` is the one kept at its tick among the first `n`: no other there is stronger,
/// and it is stronger than every earlier one there, so the first of equals is kept.
#[verifier::opaque]
pub open spec fn kept(v: Seq<Attack>, n: int, i: int) -> bool {
    &&& 0 <= i < n <= v.len()
    &&& forall|j: int| 0 <= j < n && #[trigger] v[j].tick == v[i].tick ==> !stronger(v[j], v[i])
    &&& forall|j: int| 0 <= j < i && #[trigger] v[j].tick == v[i].tick ==> stronger(v[i], v[j])
}

/// How long an attack sounds when `next` is the tick of the following one: it ends at least a
/// tick before it, and lasts at least one tick.
pub open spec fn gate_before(duration: u64, tick: u64, next: u64) -> u64 {
    let room: int = next - tick - 1;
    let limit: int = if room < 1 { 1 } else { room };
    if duration < limit { duration } else { limit as u64 }
}

/// Ticks strictly increasing.
pub open spec fn tick_sorted(w: Seq<Attack>) -> bool {
    forall|k: int, l: int| 0 <= k < l < w.len() ==> (#[trigger] w[k]).tick < (#[trigger] w[l]).tick
}

/// Whether some attack of `w` is at tick `t`.
pub open spec fn listed(w: Seq<Attack>, t: u64) -> bool {
    exists|k: int| 0 <= k < w.len() && (#[trigger] w[k]).tick == t
}

/// Every tick among the first `n` attacks is listed in `w`.
pub open spec fn covers(v: Seq<Attack>, n: int, w: Seq<Attack>) -> bool {
    forall|i: int| 0 <= i < n ==> listed(w, #[trigger] v[i].tick)
}

/// Every attack listed in `w` is the one kept at its tick among the first `n`.
pub open spec fn all_kept(v: Seq<Attack>, n: int, w: Seq<Attack>) -> bool {
    forall|k: int| 0 <= k < w.len() ==> exists|i: int| #[trigger] kept(v, n, i) && v[i] == #[trigger] w[k]
}

proof fn lemma_kept_extends(v: Seq<Attack>, n: int, i: int)
    requires
        kept(v, n, i),
        n < v.len(),
        v[n].tick != v[i].tick || !stronger(v[n], v[i]),
    ensures
        kept(v, n + 1, i),
{
    reveal(kept);
}

proof fn lemma_kept_replaced(v: Seq<Attack>, n: int, i: int)
    requires
        kept(v, n, i),
        n < v.len(),
        v[n].tick == v[i].tick,
        stronger(v[n], v[i]),
    ensures
        kept(v, n + 1, n),
{
    reveal(kept);
    assert forall|j: int| 0 <= j < n + 1 && #[trigger] v[j].tick == v[n].tick implies !stronger(v[j], v[n]) by {
        if j < n {
            assert(!stronger(v[j], v[i]));
        }
    }
    assert forall|j: int| 0 <= j < n && #[trigger] v[j].tick == v[n].tick implies stronger(v[n], v[j]) by {
        assert(!stronger(v[j], v[i]));
    }
}

proof fn lemma_kept_new(v: Seq<Attack>, n: int)
    requires
        0 <= n < v.len(),
        forall|j: int| 0 <= j < n ==> #[trigger] v[j].tick != v[n].tick,
    ensures
        kept(v, n + 1, n),
{
    reveal(kept);
}

proof fn lemma_kept_tick(v: Seq<Attack>, n: int, i: int)
    requires
        kept(v, n, i),
    ensures
        0 <= i < n <= v.len(),
{
    reveal(kept);
}

/// Taking attack `n` in where the kept one at its tick stands at `p`.
proof fn lemma_step_replace(v: Seq<Attack>, n: int, before: Seq<Attack>, after: Seq<Attack>, p: int, wins: bool)
    requires
        0 <= n < v.len(),
        tick_sorted(before),
        covers(v, n, before),
        all_kept(v, n, before),
        0 <= p < before.len(),
        before[p].tick == v[n].tick,
        wins == stronger(v[n], before[p]),
        after == (if wins { before.update(p, v[n]) } else { before }),
    ensures
        tick_sorted(after),
        covers(v, n + 1, after),
        all_kept(v, n + 1, after),
{
    let i = choose|i: int| #[trigger] kept(v, n, i) && v[i] == #[trigger] before[p];
    assert(kept(v, n, i) && v[i] == before[p]);
    if wins {
        lemma_kept_replaced(v, n, i);
    } else {
        lemma_kept_extends(v, n, i);
    }
    assert forall|k: int, l: int| 0 <= k < l < after.len() implies (#[trigger] after[k]).tick < (#[trigger] after[l]).tick by {
        assert(before[k].tick < before[l].tick);
    }
    assert forall|k: int| 0 <= k < after.len() implies exists|x: int| #[trigger] kept(v, n + 1, x) && v[x] == #[trigger] after[k] by {
        if k == p {
            if wins {
                assert(kept(v, n + 1, n) && v[n] == after[k]);
            } else {
                assert(kept(v, n + 1, i) && v[i] == after[k]);
            }
        } else {
            let x = choose|x: int| #[trigger] kept(v, n, x) && v[x] == #[trigger] before[k];
            assert(kept(v, n, x) && v[x] == before[k]);
            if v[n].tick == v[x].tick {
                if k < p {
                    assert(before[k].tick < before[p].tick);
                } else {
                    assert(before[p].tick < before[k].tick);
                }
            }
            lemma_kept_extends(v, n, x);
            assert(kept(v, n + 1, x) && v[x] == after[k]);
        }
    }
    assert forall|j: int| 0 <= j < n + 1 implies listed(after, #[trigger] v[j].tick) by {
        if j == n {
            assert(after[p].tick == v[j].tick);
        } else {
            assert(listed(before, v[j].tick));
            let k = choose|k: int| 0 <= k < before.len() && (#[trigger] before[k]).tick == v[j].tick;
            assert(after[k].tick == v[j].tick);
        }
    }
}

/// Putting attack `n`, at a tick none kept has, at `p`, after every earlier tick.
proof fn lemma_step_insert(v: Seq<Attack>, n: int, before: Seq<Attack>, after: Seq<Attack>, p: int)
    requires
        0 <= n < v.len(),
        tick_sorted(before),
        covers(v, n, before),
        all_kept(v, n, before),
        0 <= p <= before.len(),
        forall|k: int| 0 <= k < p ==> (#[trigger] before[k]).tick < v[n].tick,
        p < before.len() ==> before[p].tick > v[n].tick,
        after == before.insert(p, v[n]),
    ensures
        tick_sorted(after),
        covers(v, n + 1, after),
        all_kept(v, n + 1, after),
{
    assert forall|j: int| 0 <= j < n implies #[trigger] v[j].tick != v[n].tick by {
        assert(listed(before, v[j].tick));
        let k = choose|k: int| 0 <= k < before.len() && (#[trigger] before[k]).tick == v[j].tick;
        if k > p {
            assert(before[p].tick < before[k].tick);
        }
    }
    lemma_kept_new(v, n);
    assert forall|k: int, l: int| 0 <= k < l < after.len() implies (#[trigger] after[k]).tick < (#[trigger] after[l]).tick by {
        if l < p {
            assert(after[k] == before[k] && after[l] == before[l]);
            assert(before[k].tick < before[l].tick);
        } else if l == p {
            assert(after[k] == before[k]);
        } else if k < p {
            assert(after[l] == before[l - 1]);
            assert(after[k] == before[k]);
            if l - 1 > p {
                assert(before[p].tick < before[l - 1].tick);
            }
        } else if k == p {
            assert(after[l] == before[l - 1]);
            if l - 1 > p {
                assert(before[p].tick < before[l - 1].tick);
            }
        } else {
            assert(after[k] == before[k - 1] && after[l] == before[l - 1]);
            assert(before[k - 1].tick < before[l - 1].tick);
        }
    }
    assert forall|k: int| 0 <= k < after.len() implies exists|x: int| #[trigger] kept(v, n + 1, x) && v[x] == #[trigger] after[k] by {
        if k == p {
            assert(kept(v, n + 1, n) && v[n] == after[k]);
        } else {
            let kb = if k < p { k } else { k - 1 };
            assert(after[k] == before[kb]);
            let x = choose|x: int| #[trigger] kept(v, n, x) && v[x] == #[trigger] before[kb];
            assert(kept(v, n, x) && v[x] == before[kb]);
            lemma_kept_tick(v, n, x);
            if v[n].tick == v[x].tick {
                assert(v[x].tick == before[kb].tick);
                if kb < p {
                    assert(before[kb].tick < v[n].tick);
                } else {
                    if kb > p {
                        assert(before[p].tick < before[kb].tick);
                    }
                }
            }
            lemma_kept_extends(v, n, x);
            assert(kept(v, n + 1, x) && v[x] == after[k]);
        }
    }
    assert forall|j: int| 0 <= j < n + 1 implies listed(after, #[trigger] v[j].tick) by {
        if j == n {
            assert(after[p].tick == v[j].tick);
        } else {
            assert(listed(before, v[j].tick));
            let k = choose|k: int| 0 <= k < before.len() && (#[trigger] before[k]).tick == v[j].tick;
            let ko = if k < p { k } else { k + 1 };
            assert(after[ko] == before[k]);
        }
    }
}

proof fn lemma_covers_same_ticks(v: Seq<Attack>, n: int, w: Seq<Attack>, o: Seq<Attack>)
    requires
        covers(v, n, w),
        o.len() == w.len(),
        forall|x: int| 0 <= x < w.len() ==> (#[trigger] o[x]).tick == w[x].tick,
    ensures
        covers(v, n, o),
{
    assert forall|i: int| 0 <= i < n implies listed(o, #[trigger] v[i].tick) by {
        assert(listed(w, v[i].tick));
        let k = choose|k: int| 0 <= k < w.len() && (#[trigger] w[k]).tick == v[i].tick;
        assert(o[k].tick == w[k].tick);
    }
}

/// The gates cut before the next attack.
pub open spec fn gated(w: Seq<Attack>, x: int) -> Attack {
    Attack {
        duration: if x + 1 < w.len() { gate_before(w[x].duration, w[x].tick, w[x + 1].tick) } else { w[x].duration },
        ..w[x]
    }
}

/// Attack `k` of `o` is the attack kept at its tick among all of `v`, its gate cut to end
/// before attack `k + 1` of `o`, if there is one.
pub open spec fn sounds_as(v: Seq<Attack>, o: Seq<Attack>, k: int) -> bool {
    exists|i: int| #[trigger] kept(v, v.len() as int, i)
        && o[k] == (Attack {
            duration: if k + 1 < o.len() { gate_before(v[i].duration, v[i].tick, o[k + 1].tick) } else { v[i].duration },
            ..v[i]
        })
}

proof fn lemma_gated_kept(v: Seq<Attack>, w: Seq<Attack>, o: Seq<Attack>)
    requires
        all_kept(v, v.len() as int, w),
        o.len() == w.len(),
        forall|x: int| 0 <= x < w.len() ==> #[trigger] o[x] == gated(w, x),
    ensures
        forall|k: int| 0 <= k < o.len() ==> #[trigger] sounds_as(v, o, k),
{
    assert forall|x: int| 0 <= x < o.len() implies #[trigger] sounds_as(v, o, x) by {
        let i = choose|i: int| #[trigger] kept(v, v.len() as int, i) && v[i] == #[trigger] w[x];
        assert(kept(v, v.len() as int, i) && v[i] == w[x]);
        assert(o[x] == gated(w, x));
        if x + 1 < o.len() {
            assert(o[x + 1] == gated(w, x + 1));
            assert(o[x + 1].tick == w[x + 1].tick);
        }
        assert(o[x] == (Attack {
            duration: if x + 1 < o.len() { gate_before(v[i].duration, v[i].tick, o[x + 1].tick) } else { v[i].duration },
            ..v[i]
        }));
    }
}

/// The attacks that sound, one per tick in tick order: at each tick the strongest is kept
/// (the first of equals), and each gate is cut to end before the next attack.
pub fn voice_attacks(attacks: Vec<Attack>) -> (r: Vec<Attack>)
    ensures
        tick_sorted(r@),
        covers(attacks@, attacks@.len() as int, r@),
        forall|k: int| 0 <= k < r@.len() ==> #[trigger] sounds_as(attacks@, r@, k),
{
    let ghost v = attacks@;
    let mut out: Vec<Attack> = Vec::new();
    let mut n: usize = 0;
    while n < attacks.len()
        invariant
            v == attacks@,
            n <= v.len(),
            tick_sorted(out@),
            covers(v, n as int, out@),
            all_kept(v, n as int, out@),
        decreases v.len() - n,
    {
        let a = attacks[n];
        let mut p: usize = 0;
        while p < out.len() && out[p].tick < a.tick
            invariant
                p <= out@.len(),
                forall|k: int| 0 <= k < p ==> (#[trigger] out@[k]).tick < a.tick,
            decreases out@.len() - p,
        {
            p += 1;
        }
        let ghost before = out@;
        if p < out.len() && out[p].tick == a.tick {
            let b = out[p];
            let wins = a.velocity > b.velocity || (a.velocity == b.velocity && a.main && !b.main)
                || (a.velocity == b.velocity && a.main == b.main && a.owner < b.owner);
            if wins {
                out.set(p, a);
            }
            proof {
                lemma_step_replace(v, n as int, before, out@, p as int, wins);
            }
        } else {
            out.insert(p, a);
            proof {
                lemma_step_insert(v, n as int, before, out@, p as int);
            }
        }
        n += 1;
    }
    let ghost w = out@;
    let mut k: usize = 0;
    while k < out.len()
        invariant
            tick_sorted(w),
            out@.len() == w.len(),
            k <= w.len(),
            forall|x: int| k <= x < w.len() ==> #[trigger] out@[x] == w[x],
            forall|x: int| 0 <= x < k ==> #[trigger] out@[x] == gated(w, x),
        decreases w.len() - k,
    {
        if k + 1 < out.len() {
            let next = out[k + 1].tick;
            let a = out[k];
            proof {
                assert(w[k as int].tick < w[k + 1].tick);
            }
            let room = next - a.tick - 1;
            let limit = if room < 1 { 1 } else { room };
            let d = if a.duration < limit { a.duration } else { limit };
            out.set(k, Attack { duration: d, ..a });
        }
        k += 1;
    }
    proof {
        lemma_gated_kept(v, w, out@);
        assert forall|x: int| 0 <= x < w.len() implies (#[trigger] out@[x]).tick == w[x].tick by {}
        lemma_covers_same_ticks(v, v.len() as int, w, out@);
        assert forall|a: int, b: int| 0 <= a < b < out@.len() implies (#[trigger] out@[a]).tick < (#[trigger] out@[b]).tick by {
            assert(out@[a].tick == w[a].tick && out@[b].tick == w[b].tick);
            assert(w[a].tick < w[b].tick);
        }
    }
    out
}

/// A control change sent with a note: its channel (one-based), controller, value, the value
/// it returns to when the note ends, and the neutral value stop restores, if any.
#[derive(Clone, Copy, Debug, PartialEq, Eq, Structural)]
pub struct NoteControl {
    pub channel: u8,
    pub cc: u8,
    pub value: u8,
    pub reset: u8,
    pub stop: Option<u8>,
}

pub open spec fn plain(tick: u64, bytes: [u8; 3]) -> MidiEvent {
    MidiEvent { tick, bytes, reset_value: None, stop_value: None, parameter: false, boundary_reset: false }
}

/// The messages of one note: its note-on at `tick` and note-off `duration` later, then for
/// each control its change at the onset and its return at the release.
pub open spec fn note_messages(
    channel: u8,
    note: u8,
    velocity: u8,
    tick: u64,
    duration: u64,
    controls: Seq<NoteControl>,
) -> Seq<MidiEvent> {
    let end = (tick + duration) as u64;
    seq![
        plain(tick, [(0x90u8 | (channel - 1) as u8) as u8, note, velocity]),
        plain(end, [(0x80u8 | (channel - 1) as u8) as u8, note, 0u8]),
    ] + Seq::new(2 * controls.len(), |i: int| {
        let c = controls[i / 2];
        if i % 2 == 0 {
            MidiEvent {
                tick,
                bytes: [(0xb0u8 | (c.channel - 1) as u8) as u8, c.cc, c.value],
                reset_value: Some(c.reset),
                stop_value: c.stop,
                parameter: false,
                boundary_reset: false,
            }
        } else {
            plain(end, [(0xb0u8 | (c.channel - 1) as u8) as u8, c.cc, c.reset])
        }
    })
}

/// The messages an event sends on a Part's voice, on one-based MIDI `channel`: the note-on and
/// note-off pair, and each control's onset and return.
pub fn to_midi(
    channel: u8,
    note: u8,
    velocity: u8,
    tick: u64,
    duration: u64,
    controls: &Vec<NoteControl>,
) -> (r: Vec<MidiEvent>)
    requires
        1 <= channel <= 16,
        tick + duration <= u64::MAX,
        forall|i: int| 0 <= i < controls@.len() ==> 1 <= (#[trigger] controls@[i]).channel <= 16,
    ensures
        r@ == note_messages(channel, note, velocity, tick, duration, controls@),
{
    let end = tick + duration;
    let mut r: Vec<MidiEvent> = Vec::new();
    r.push(MidiEvent {
        tick,
        bytes: [0x90 | (channel - 1), note, velocity],
        reset_value: None,
        stop_value: None,
        parameter: false,
        boundary_reset: false,
    });
    r.push(MidiEvent {
        tick: end,
        bytes: [0x80 | (channel - 1), note, 0],
        reset_value: None,
        stop_value: None,
        parameter: false,
        boundary_reset: false,
    });
    let ghost spec = note_messages(channel, note, velocity, tick, duration, controls@);
    let mut i: usize = 0;
    while i < controls.len()
        invariant
            1 <= channel <= 16,
            end == tick + duration,
            spec == note_messages(channel, note, velocity, tick, duration, controls@),
            i <= controls@.len(),
            forall|x: int| 0 <= x < controls@.len() ==> 1 <= (#[trigger] controls@[x]).channel <= 16,
            r@ == spec.subrange(0, 2 + 2 * i),
        decreases controls@.len() - i,
    {
        let c = controls[i];
        r.push(MidiEvent {
            tick,
            bytes: [0xb0 | (c.channel - 1), c.cc, c.value],
            reset_value: Some(c.reset),
            stop_value: c.stop,
            parameter: false,
            boundary_reset: false,
        });
        r.push(MidiEvent {
            tick: end,
            bytes: [0xb0 | (c.channel - 1), c.cc, c.reset],
            reset_value: None,
            stop_value: None,
            parameter: false,
            boundary_reset: false,
        });
        proof {
            assert(spec[2 + 2 * i] == r@[2 + 2 * i]);
            assert(spec[2 + 2 * i + 1] == r@[2 + 2 * i + 1]);
            assert(r@ =~= spec.subrange(0, 2 + 2 * (i + 1)));
        }
        i += 1;
    }
    proof {
        assert(r@ =~= spec);
    }
    r
}

/// A note's velocity from its rounded strength: clamped to a valid, nonzero MIDI velocity.
pub fn clamp_velocity(rounded: i64) -> (r: u8)
    ensures
        r == (if rounded < 1 { 1 } else if rounded > 127 { 127 } else { rounded }),
{
    if rounded < 1 {
        1
    } else if rounded > 127 {
        127
    } else {
        rounded as u8
    }
}

/// Whether `a` may come before `b` on the wire: by tick, then by priority within the tick,
/// then by bytes.
pub open spec fn wire_le(a: MidiEvent, b: MidiEvent) -> bool {
    ||| a.tick < b.tick
    ||| a.tick == b.tick && order_priority(a) < order_priority(b)
    ||| a.tick == b.tick && order_priority(a) == order_priority(b) && bytes_le(a.bytes, b.bytes)
}

pub open spec fn bytes_le(a: [u8; 3], b: [u8; 3]) -> bool {
    ||| a[0] < b[0]
    ||| a[0] == b[0] && a[1] < b[1]
    ||| a[0] == b[0] && a[1] == b[1] && a[2] <= b[2]
}

/// `e` put into wire order after every message that may come before it.
pub open spec fn insert_on_wire(sorted: Seq<MidiEvent>, e: MidiEvent) -> Seq<MidiEvent>
    decreases sorted.len(),
{
    if sorted.len() == 0 {
        seq![e]
    } else if wire_le(sorted.last(), e) {
        sorted.push(e)
    } else {
        insert_on_wire(sorted.drop_last(), e).push(sorted.last())
    }
}

/// The messages in wire order; messages with the same key keep their order.
pub open spec fn wire_order(s: Seq<MidiEvent>) -> Seq<MidiEvent>
    decreases s.len(),
{
    if s.len() == 0 {
        Seq::empty()
    } else {
        insert_on_wire(wire_order(s.drop_last()), s.last())
    }
}

pub open spec fn wire_sorted(s: Seq<MidiEvent>) -> bool {
    forall|i: int, j: int| 0 <= i < j < s.len() ==> wire_le(#[trigger] s[i], #[trigger] s[j])
}

fn le_on_wire(a: &MidiEvent, b: &MidiEvent) -> (r: bool)
    ensures
        r == wire_le(*a, *b),
{
    let ka = midi_order(a);
    let kb = midi_order(b);
    ka.0 < kb.0 || (ka.0 == kb.0 && ka.1 < kb.1) || (ka.0 == kb.0 && ka.1 == kb.1 && (ka.2[0] < kb.2[0]
        || (ka.2[0] == kb.2[0] && ka.2[1] < kb.2[1]) || (ka.2[0] == kb.2[0] && ka.2[1] == kb.2[1] && ka.2[2] <= kb.2[2])))
}

/// Inserting behind the last message that may come before `e`, past those that may not.
proof fn lemma_insert_at(sorted: Seq<MidiEvent>, e: MidiEvent, j: int)
    requires
        0 <= j <= sorted.len(),
        j > 0 ==> wire_le(sorted[j - 1], e),
        forall|x: int| j <= x < sorted.len() ==> !wire_le(#[trigger] sorted[x], e),
    ensures
        insert_on_wire(sorted, e) == sorted.insert(j, e),
    decreases sorted.len(),
{
    if sorted.len() == 0 {
        assert(sorted.insert(j, e) =~= seq![e]);
    } else if j == sorted.len() {
        assert(sorted.insert(j, e) =~= sorted.push(e));
    } else {
        let d = sorted.drop_last();
        assert(!wire_le(sorted[sorted.len() - 1], e));
        lemma_insert_at(d, e, j);
        assert(d.insert(j, e).push(sorted.last()) =~= sorted.insert(j, e));
    }
}

proof fn lemma_wire_total(a: MidiEvent, b: MidiEvent, c: MidiEvent)
    ensures
        wire_le(a, b) || wire_le(b, a),
        wire_le(a, b) && wire_le(b, c) ==> wire_le(a, c),
{
}

proof fn lemma_insert_sorted(sorted: Seq<MidiEvent>, e: MidiEvent)
    requires
        wire_sorted(sorted),
    ensures
        wire_sorted(insert_on_wire(sorted, e)),
        insert_on_wire(sorted, e).to_multiset() == sorted.to_multiset().insert(e),
    decreases sorted.len(),
{
    broadcast use vstd::seq_lib::group_to_multiset_ensures;
    if sorted.len() == 0 {
        assert(seq![e] =~= Seq::<MidiEvent>::empty().push(e));
    } else if wire_le(sorted.last(), e) {
        let r = sorted.push(e);
        assert forall|i: int, j: int| 0 <= i < j < r.len() implies wire_le(#[trigger] r[i], #[trigger] r[j]) by {
            if j == sorted.len() && i < sorted.len() - 1 {
                lemma_wire_total(sorted[i], sorted.last(), e);
            }
        }
    } else {
        let d = sorted.drop_last();
        let last = sorted.last();
        assert(wire_sorted(d)) by {
            assert forall|i: int, j: int| 0 <= i < j < d.len() implies wire_le(#[trigger] d[i], #[trigger] d[j]) by {
                assert(d[i] == sorted[i] && d[j] == sorted[j]);
            }
        }
        lemma_insert_sorted(d, e);
        let m = insert_on_wire(d, e);
        lemma_wire_total(e, last, last);
        assert forall|x: int| 0 <= x < m.len() implies wire_le(#[trigger] m[x], last) by {
            lemma_insert_member(d, e, x);
            if m[x] != e {
                let y = choose|y: int| 0 <= y < d.len() && d[y] == m[x];
                assert(sorted[y] == d[y]);
                assert(wire_le(sorted[y], sorted[sorted.len() - 1]));
            }
        }
        let r = m.push(last);
        assert forall|i: int, j: int| 0 <= i < j < r.len() implies wire_le(#[trigger] r[i], #[trigger] r[j]) by {
            if j == m.len() {
                assert(r[i] == m[i]);
            } else {
                assert(r[i] == m[i] && r[j] == m[j]);
            }
        }
        assert(d.push(last) =~= sorted);
    }
}

proof fn lemma_insert_member(d: Seq<MidiEvent>, e: MidiEvent, x: int)
    requires
        0 <= x < insert_on_wire(d, e).len(),
    ensures
        insert_on_wire(d, e).len() == d.len() + 1,
        insert_on_wire(d, e)[x] == e || exists|y: int| 0 <= y < d.len() && d[y] == insert_on_wire(d, e)[x],
    decreases d.len(),
{
    if d.len() == 0 {
    } else if wire_le(d.last(), e) {
        if x < d.len() {
            assert(d[x] == d.push(e)[x]);
        }
    } else {
        let dd = d.drop_last();
        let m = insert_on_wire(dd, e);
        lemma_insert_len(dd, e);
        if x < m.len() {
            lemma_insert_member(dd, e, x);
            if m[x] != e {
                let y = choose|y: int| 0 <= y < dd.len() && dd[y] == m[x];
                assert(d[y] == dd[y]);
                assert(m.push(d.last())[x] == m[x]);
            }
        } else {
            assert(m.push(d.last())[x] == d[d.len() - 1]);
        }
    }
}

proof fn lemma_insert_len(d: Seq<MidiEvent>, e: MidiEvent)
    ensures
        insert_on_wire(d, e).len() == d.len() + 1,
    decreases d.len(),
{
    if d.len() > 0 && !wire_le(d.last(), e) {
        lemma_insert_len(d.drop_last(), e);
    }
}

/// Wire order is sorted by key and keeps every message.
pub proof fn lemma_wire_order(s: Seq<MidiEvent>)
    ensures
        wire_sorted(wire_order(s)),
        wire_order(s).to_multiset() == s.to_multiset(),
    decreases s.len(),
{
    broadcast use vstd::seq_lib::group_to_multiset_ensures;
    if s.len() > 0 {
        lemma_wire_order(s.drop_last());
        lemma_insert_sorted(wire_order(s.drop_last()), s.last());
        assert(s.drop_last().push(s.last()) =~= s);
    }
}

/// Messages in the order they go on the wire: by tick, then note-offs, boundary resets, plain
/// control changes, control onsets and everything else, then by bytes; messages with the same
/// key keep the order they came in.
pub fn order_messages(messages: Vec<MidiEvent>) -> (r: Vec<MidiEvent>)
    ensures
        r@ == wire_order(messages@),
        wire_sorted(r@),
        r@.to_multiset() == messages@.to_multiset(),
{
    let mut out: Vec<MidiEvent> = Vec::new();
    let mut i: usize = 0;
    while i < messages.len()
        invariant
            i <= messages@.len(),
            out@ == wire_order(messages@.subrange(0, i as int)),
        decreases messages@.len() - i,
    {
        let e = messages[i];
        let mut j: usize = out.len();
        while j > 0 && !le_on_wire(&out[j - 1], &e)
            invariant
                j <= out@.len(),
                forall|x: int| j <= x < out@.len() ==> !wire_le(#[trigger] out@[x], e),
            decreases j,
        {
            j -= 1;
        }
        proof {
            lemma_insert_at(out@, e, j as int);
            let p = messages@.subrange(0, i as int + 1);
            assert(p.drop_last() =~= messages@.subrange(0, i as int));
            assert(p.last() == messages@[i as int]);
        }
        out.insert(j, e);
        i += 1;
    }
    proof {
        assert(messages@.subrange(0, messages@.len() as int) =~= messages@);
        lemma_wire_order(messages@);
    }
    out
}

/// The messages of `s` at ticks `start..end`, in order.
pub open spec fn within(s: Seq<MidiEvent>, start: u64, end: u64) -> Seq<MidiEvent>
    decreases s.len(),
{
    if s.len() == 0 {
        Seq::empty()
    } else {
        let r = within(s.drop_last(), start, end);
        if start <= s.last().tick < end { r.push(s.last()) } else { r }
    }
}

/// What a window `start..end` sends of an event at `tick` held for `duration`: nothing unless
/// the event starts before the window ends and is released no earlier than it starts; then
/// those of its messages that fall in the window.
pub fn window_messages(tick: u64, duration: u64, messages: &Vec<MidiEvent>, start: u64, end: u64) -> (r: Vec<MidiEvent>)
    requires
        tick + duration <= u64::MAX,
    ensures
        r@ == (if tick < end && tick + duration >= start { within(messages@, start, end) } else { Seq::empty() }),
{
    let mut r: Vec<MidiEvent> = Vec::new();
    if !(tick < end && tick + duration >= start) {
        return r;
    }
    let mut i: usize = 0;
    while i < messages.len()
        invariant
            i <= messages@.len(),
            r@ == within(messages@.subrange(0, i as int), start, end),
        decreases messages@.len() - i,
    {
        let m = messages[i];
        if start <= m.tick && m.tick < end {
            r.push(m);
        }
        proof {
            let p = messages@.subrange(0, i as int + 1);
            assert(p.drop_last() =~= messages@.subrange(0, i as int));
            assert(p.last() == messages@[i as int]);
        }
        i += 1;
    }
    proof {
        assert(messages@.subrange(0, messages@.len() as int) =~= messages@);
    }
    r
}

} // verus!
