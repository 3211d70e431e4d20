//! The dispatch rules of the MIDI edge: which events reach the output, and what cleanup sends
//! so that nothing this engine started is left sounding or displaced.
use vstd::prelude::*;

use std::collections::{BTreeMap, BTreeSet};
use vstd::std_specs::cmp::OrdSpec;
use vstd::std_specs::iter::IteratorSpec;

use crate::music::resolve::MidiEvent;

pub mod controller;
pub mod kit;
pub mod surface;
pub mod sync;
pub mod transport;
pub mod windows_setup;

verus! {

broadcast use vstd::std_specs::btree::group_btree_axioms, vstd::laws_cmp::group_laws_cmp;

/// Where MIDI bytes go. An implementation reports a failed send; nothing more is asked of it.
pub trait MidiOutput {
    fn send(&mut self, bytes: &[u8]) -> Result<(), String>;
}

/// An output that accepts everything and sends nothing.
pub struct SilentOutput;

impl MidiOutput for SilentOutput {
    fn send(&mut self, bytes: &[u8]) -> (r: Result<(), String>)
        ensures
            r is Ok,
    {
        Ok(())
    }
}

/// Counters of one dispatch run. Lateness is in nanoseconds.
#[derive(Clone, Copy, Debug, Default)]
pub struct DispatchStats {
    pub sent: u64,
    pub controls_sent: u64,
    pub clock_pulses: u64,
    pub dropped_late_notes: u64,
    pub max_lateness: u128,
}

/// Tracks only this engine's active notes and controls; cleanup does not silence other users
/// of a port.
pub struct EventDispatcher<S: MidiOutput> {
    pub sink: S,
    active: BTreeSet<(u8, u8)>,
    controls: BTreeMap<(u8, u8), u8>,
    last_controls: BTreeMap<(u8, u8), u8>,
    stop_controls: BTreeMap<(u8, u8), u8>,
    pub stats: DispatchStats,
    /// Every message handed to the sink, in order.
    sends: Ghost<Seq<Seq<u8>>>,
    /// The output's answer to each message handed to it, in the same order.
    answers: Ghost<Seq<Result<(), String>>>,
}

/// A dispatcher as values: the notes it holds on, the control values it must restore, the last
/// value sent per control, and every message it has handed to its output.
pub struct DispatcherV {
    pub active: Set<(u8, u8)>,
    pub controls: Map<(u8, u8), u8>,
    pub last_controls: Map<(u8, u8), u8>,
    pub stop_controls: Map<(u8, u8), u8>,
    pub stats: DispatchStats,
    pub sends: Seq<Seq<u8>>,
}

impl<S: MidiOutput> View for EventDispatcher<S> {
    type V = DispatcherV;

    closed spec fn view(&self) -> DispatcherV {
        DispatcherV {
            active: self.active@,
            controls: self.controls@,
            last_controls: self.last_controls@,
            stop_controls: self.stop_controls@,
            stats: self.stats,
            sends: self.sends@,
        }
    }
}

/// `(channel, note)` of a note message, or `(channel, controller)` of a control change.
pub open spec fn key_of(bytes: [u8; 3]) -> (u8, u8) {
    (bytes[0] & 15u8, bytes[1])
}

pub open spec fn is_note_on(bytes: [u8; 3]) -> bool {
    bytes[0] & 0xf0u8 == 0x90u8 && bytes[2] > 0
}

pub open spec fn is_control_change(bytes: [u8; 3]) -> bool {
    bytes[0] & 0xf0u8 == 0xb0u8
}

/// Keys in ascending order: by channel, then by note or controller.
pub open spec fn key_lt(a: (u8, u8), b: (u8, u8)) -> bool {
    a.0 < b.0 || (a.0 == b.0 && a.1 < b.1)
}

pub open spec fn note_off(k: (u8, u8)) -> Seq<u8> {
    seq![0x80u8 | k.0, k.1, 0u8]
}

pub open spec fn control_reset(k: (u8, u8), value: u8) -> Seq<u8> {
    seq![0xb0u8 | k.0, k.1, value]
}

/// The state after recording `lateness` in the statistics.
pub open spec fn with_lateness(d: DispatcherV, lateness: u128) -> DispatcherV {
    DispatcherV {
        stats: DispatchStats {
            max_lateness: if lateness > d.stats.max_lateness { lateness } else { d.stats.max_lateness },
            ..d.stats
        },
        ..d
    }
}

/// The state after handing `bytes` to the output.
pub open spec fn sending(d: DispatcherV, bytes: [u8; 3]) -> DispatcherV {
    DispatcherV { sends: d.sends.push(bytes@), ..d }
}

/// What dispatching `e` does, given whether the output accepts a message handed to it: the
/// next state, and whether the dispatch fails. A note-on later than `late_limit` is dropped;
/// a note-off releases only a note this dispatcher started; a control onset registers its
/// reset value, a timeline sample is deduplicated, and an obsolete one is skipped.
pub open spec fn dispatched(d0: DispatcherV, e: MidiEvent, lateness: u128, late_limit: u128, send_ok: bool) -> (DispatcherV, bool) {
    let d = with_lateness(d0, lateness);
    let key = key_of(e.bytes);
    let late = lateness > late_limit;
    if is_control_change(e.bytes) {
        if e.parameter && late && (e.reset_value is Some || !d.controls.contains_key(key)) {
            (d, false)
        } else if e.reset_value is Some && late {
            (d, false)
        } else {
            let d1 = match e.reset_value {
                Some(r) => DispatcherV { controls: d.controls.insert(key, r), ..d },
                None => d,
            };
            let d2 = match e.stop_value {
                Some(v) => DispatcherV { stop_controls: d1.stop_controls.insert(key, v), ..d1 },
                None => d1,
            };
            let fresh = !e.parameter || !(d2.last_controls.contains_key(key) && d2.last_controls[key] == e.bytes[2]);
            if fresh && !send_ok {
                (sending(d2, e.bytes), true)
            } else {
                let d3 = if fresh {
                    let s = sending(d2, e.bytes);
                    DispatcherV {
                        last_controls: s.last_controls.insert(key, e.bytes[2]),
                        stats: DispatchStats { controls_sent: (s.stats.controls_sent + 1) as u64, ..s.stats },
                        ..s
                    }
                } else {
                    d2
                };
                let d4 = if e.reset_value is None { DispatcherV { controls: d3.controls.remove(key), ..d3 } } else { d3 };
                (d4, false)
            }
        }
    } else if is_note_on(e.bytes) && late {
        (DispatcherV { stats: DispatchStats { dropped_late_notes: (d.stats.dropped_late_notes + 1) as u64, ..d.stats }, ..d }, false)
    } else if is_note_on(e.bytes) {
        let s = sending(d, e.bytes);
        let d1 = DispatcherV { active: s.active.insert(key), ..s };
        if !send_ok {
            (d1, true)
        } else {
            (DispatcherV { stats: DispatchStats { sent: (d1.stats.sent + 1) as u64, ..d1.stats }, ..d1 }, false)
        }
    } else if !d.active.contains(key) {
        (d, false)
    } else {
        let s = sending(d, e.bytes);
        if !send_ok {
            (s, true)
        } else {
            (DispatcherV { active: s.active.remove(key), stats: DispatchStats { sent: (s.stats.sent + 1) as u64, ..s.stats }, ..s }, false)
        }
    }
}

/// A note-on later than the limit is dropped and counted, and nothing is sent for it; the
/// release of a note this dispatcher holds is sent however late it comes; a release of a note
/// it does not hold is never sent.
pub proof fn lemma_late_notes_drop_but_releases_run(d: DispatcherV, e: MidiEvent, lateness: u128, late_limit: u128, send_ok: bool)
    requires
        counters_room(d),
    ensures
        !is_control_change(e.bytes) && is_note_on(e.bytes) && lateness > late_limit ==> {
            let next = dispatched(d, e, lateness, late_limit, send_ok);
            &&& next.0.sends == d.sends
            &&& next.0.active == d.active
            &&& next.0.stats.dropped_late_notes == d.stats.dropped_late_notes + 1
            &&& !next.1
        },
        !is_control_change(e.bytes) && !is_note_on(e.bytes) && d.active.contains(key_of(e.bytes)) ==> {
            let next = dispatched(d, e, lateness, late_limit, send_ok);
            &&& next.0.sends == d.sends.push(e.bytes@)
            &&& send_ok ==> !next.0.active.contains(key_of(e.bytes))
        },
        !is_control_change(e.bytes) && !is_note_on(e.bytes) && !d.active.contains(key_of(e.bytes)) ==>
            dispatched(d, e, lateness, late_limit, send_ok).0.sends == d.sends,
{
}

/// Whether `keys` lists every element of `s` once, in ascending order.
pub open spec fn ascending_keys(keys: Seq<(u8, u8)>, s: Set<(u8, u8)>) -> bool {
    &&& keys.no_duplicates()
    &&& forall|k: (u8, u8)| s.contains(k) <==> keys.contains(k)
    &&& forall|i: int, j: int| 0 <= i < j < keys.len() ==> key_lt(#[trigger] keys[i], #[trigger] keys[j])
}

/// Every counter can still count once more.
pub open spec fn counters_room(d: DispatcherV) -> bool {
    d.stats.sent < u64::MAX && d.stats.controls_sent < u64::MAX && d.stats.dropped_late_notes < u64::MAX
}

impl<S: MidiOutput> EventDispatcher<S> {
    pub fn new(sink: S) -> (d: Self)
        ensures
            d@.active == Set::<(u8, u8)>::empty(),
            d@.controls == Map::<(u8, u8), u8>::empty(),
            d@.last_controls == Map::<(u8, u8), u8>::empty(),
            d@.stop_controls == Map::<(u8, u8), u8>::empty(),
            d@.stats == (DispatchStats { sent: 0, controls_sent: 0, clock_pulses: 0, dropped_late_notes: 0, max_lateness: 0 }),
            d@.sends == Seq::<Seq<u8>>::empty(),
            d.answers() == Seq::<Result<(), String>>::empty(),
            d.output() == sink,
    {
        EventDispatcher {
            sink,
            active: BTreeSet::new(),
            controls: BTreeMap::new(),
            last_controls: BTreeMap::new(),
            stop_controls: BTreeMap::new(),
            stats: DispatchStats { sent: 0, controls_sent: 0, clock_pulses: 0, dropped_late_notes: 0, max_lateness: 0 },
            sends: Ghost(Seq::empty()),
            answers: Ghost(Seq::empty()),
        }
    }

    fn send(&mut self, bytes: [u8; 3]) -> (r: Result<(), String>)
        ensures
            final(self)@ == sending(old(self)@, bytes),
            final(self).answers() == old(self).answers().push(r),
    {
        proof {
            self.sends@ = self.sends@.push(bytes@);
        }
        let slice: &[u8] = &bytes;
        let answer = self.sink.send(slice);
        proof {
            self.answers@ = self.answers@.push(answer);
        }
        answer
    }

    /// The output this dispatcher sends to.
    pub closed spec fn output(&self) -> S {
        self.sink
    }

    /// The output's answer to each message handed to it, in order.
    pub closed spec fn answers(&self) -> Seq<Result<(), String>> {
        self.answers@
    }

    /// Dispatches one event `lateness` nanoseconds after its deadline.
    pub fn dispatch(&mut self, event: &MidiEvent, lateness: u128, late_limit: u128) -> (r: Result<(), String>)
        requires
            counters_room(old(self)@),
        ensures
            r is Ok ==> final(self)@ == dispatched(old(self)@, *event, lateness, late_limit, true).0
                && !dispatched(old(self)@, *event, lateness, late_limit, true).1,
            r is Err ==> final(self)@ == dispatched(old(self)@, *event, lateness, late_limit, false).0
                && dispatched(old(self)@, *event, lateness, late_limit, false).1,
            final(self)@.sends.len() <= old(self)@.sends.len() + 1,
            final(self).answers().len() == old(self).answers().len() + (final(self)@.sends.len() - old(self)@.sends.len()),
            final(self).answers().subrange(0, old(self).answers().len() as int) == old(self).answers(),
            final(self)@.sends.len() > old(self)@.sends.len() ==> (final(self).answers().last() is Ok <==> r is Ok)
                && (r is Err ==> final(self).answers().last() == r),
            final(self)@.sends.len() == old(self)@.sends.len() ==> r is Ok,
    {
        let status = event.bytes[0];
        let note = event.bytes[1];
        let velocity = event.bytes[2];
        let key = (status & 15, note);
        let is_on = status & 0xf0 == 0x90 && velocity > 0;
        if lateness > self.stats.max_lateness {
            self.stats.max_lateness = lateness;
        }
        let late = lateness > late_limit;
        if status & 0xf0 == 0xb0 {
            if event.parameter && late && (event.reset_value.is_some() || !self.controls.contains_key(&key)) {
                return Ok(());
            }
            match event.reset_value {
                Some(reset) => {
                    if late {
                        return Ok(());
                    }
                    self.controls.insert(key, reset);
                },
                None => {},
            }
            match event.stop_value {
                Some(value) => {
                    self.stop_controls.insert(key, value);
                },
                None => {},
            }
            let same = match self.last_controls.get(&key) {
                Some(v) => *v == velocity,
                None => false,
            };
            if !event.parameter || !same {
                let answer = self.send(event.bytes);
                match answer {
                    Ok(()) => {},
                    Err(e) => return Err(e),
                }
                self.last_controls.insert(key, velocity);
                self.stats.controls_sent = self.stats.controls_sent + 1;
            }
            if event.reset_value.is_none() {
                self.controls.remove(&key);
            }
            return Ok(());
        }
        if is_on && late {
            self.stats.dropped_late_notes = self.stats.dropped_late_notes + 1;
            return Ok(());
        }
        if is_on {
            // Register before sending: even a partially failed send merits cleanup.
            self.active.insert(key);
            let answer = self.send(event.bytes);
            match answer {
                Ok(()) => {},
                Err(e) => return Err(e),
            }
        } else {
            if !self.active.contains(&key) {
                return Ok(());
            }
            let answer = self.send(event.bytes);
            match answer {
                Ok(()) => {},
                Err(e) => return Err(e),
            }
            self.active.remove(&key);
        }
        self.stats.sent = self.stats.sent + 1;
        Ok(())
    }

    /// Releases every note this dispatcher started, in ascending key order, then restores every
    /// registered control value, the transport's stop values taking precedence over a
    /// temporary accent base. Every message is attempted even when one fails; the error of a
    /// failed one is returned.
    pub fn cleanup(&mut self) -> (r: Result<(), String>)
        ensures
            final(self)@.active == Set::<(u8, u8)>::empty(),
            final(self)@.controls == Map::<(u8, u8), u8>::empty(),
            final(self)@.stop_controls == Map::<(u8, u8), u8>::empty(),
            final(self)@.stats == old(self)@.stats,
            exists|offs: Seq<(u8, u8)>, keys: Seq<(u8, u8)>|
                ascending_keys(offs, old(self)@.active) && ascending_keys(keys, restores(old(self)@).dom())
                && final(self)@.sends == old(self)@.sends + off_messages(offs) + reset_messages(keys, restores(old(self)@)),
            r is Ok ==> final(self)@.last_controls == old(self)@.last_controls.union_prefer_right(restores(old(self)@)),
            forall|k: (u8, u8)| #[trigger] final(self)@.last_controls.contains_key(k) ==>
                (old(self)@.last_controls.contains_key(k) && final(self)@.last_controls[k] == old(self)@.last_controls[k])
                || (restores(old(self)@).contains_key(k) && final(self)@.last_controls[k] == restores(old(self)@)[k]),
            forall|k: (u8, u8)| #[trigger] old(self)@.last_controls.contains_key(k) ==> final(self)@.last_controls.contains_key(k),
            final(self).answers().len() == old(self).answers().len() + (final(self)@.sends.len() - old(self)@.sends.len()),
            final(self).answers().subrange(0, old(self).answers().len() as int) == old(self).answers(),
            match last_failure(final(self).answers().skip(old(self).answers().len() as int)) {
                Some(e) => r == Err::<(), String>(e),
                None => r is Ok,
            },
    {
        let ghost start = self@;
        let ghost start_answers = self.answers@;
        let mut error: Option<String> = None;
        let ghost rem = vstd::std_specs::btree::spec_btree_keys_iter(&self.active).remaining();
        for k in it: self.active.iter()
            invariant
                it.seq() == rem,
                self.sends@ == start.sends + off_messages(rem.take(it.index() as int).map_values(|x: &(u8, u8)| *x)),
                self.active@ == start.active,
                self.controls@ == start.controls,
                self.stop_controls@ == start.stop_controls,
                self.last_controls@ == start.last_controls,
                self.stats == start.stats,
                self.sends@.len() >= start.sends.len(),
                self.answers@.len() == start_answers.len() + (self.sends@.len() - start.sends.len()),
                self.answers@.subrange(0, start_answers.len() as int) == start_answers,
                error == last_failure(self.answers@.skip(start_answers.len() as int)),
        {
            let key = *k;
            let bytes: [u8; 3] = [0x80 | key.0, key.1, 0];
            proof {
                let before = rem.take(it.index() as int).map_values(|x: &(u8, u8)| *x);
                let after = rem.take(it.index() + 1).map_values(|x: &(u8, u8)| *x);
                assert(after =~= before.push(key));
                assert(off_messages(after) =~= off_messages(before).push(note_off(key)));
                assert(bytes@ =~= note_off(key));
                self.sends@ = self.sends@.push(bytes@);
            }
            let slice: &[u8] = &bytes;
            let answer = self.sink.send(slice);
            proof {
                let before = self.answers@;
                self.answers@ = self.answers@.push(answer);
                assert(self.answers@.skip(start_answers.len() as int).drop_last()
                    =~= before.skip(start_answers.len() as int));
                assert(self.answers@.subrange(0, start_answers.len() as int)
                    =~= before.subrange(0, start_answers.len() as int));
            }
            match answer {
                Ok(()) => {},
                Err(e) => {
                    error = Some(e);
                },
            }
        }
        let ghost offs = rem.map_values(|x: &(u8, u8)| *x);
        proof {
            assert(rem.take(rem.len() as int) =~= rem);
            lemma_ascending_refs(rem);
            assert forall|i: int, j: int| 0 <= i < j < offs.len() implies key_lt(#[trigger] offs[i], #[trigger] offs[j]) by {}
            lemma_ascending_distinct(offs);
            assert forall|k: (u8, u8)| start.active.contains(k) <==> offs.contains(k) by {
                assert(rem.unref().to_set() == start.active);
                assert(rem.unref() =~= offs);
                if offs.contains(k) {
                    assert(offs.to_set().contains(k));
                }
                if start.active.contains(k) {
                    assert(offs.to_set().contains(k));
                }
            }
        }
        self.active.clear();
        let mut resets = self.controls.clone();
        let ghost stops = vstd::std_specs::btree::spec_btree_map_iter(&self.stop_controls).remaining();
        for kv in it2: self.stop_controls.iter()
            invariant
                it2.seq() == stops,
                self.stop_controls@ == start.stop_controls,
                forall|k: (u8, u8)| #[trigger] resets@.contains_key(k) <==>
                    (start.controls.contains_key(k) || exists|i: int| 0 <= i < it2.index() && *stops[i].0 == k),
                forall|k: (u8, u8)| #[trigger] resets@.contains_key(k) ==>
                    resets@[k] == (if exists|i: int| 0 <= i < it2.index() && *stops[i].0 == k { start.stop_controls[k] } else { start.controls[k] }),
        {
            let (k, v) = kv;
            proof {
                assert(stops[it2.index() as int] == (k, v));
                assert(start.stop_controls.contains_key(*k) && start.stop_controls[*k] == *v);
            }
            resets.insert(*k, *v);
        }
        proof {
            assert forall|k: (u8, u8)| #[trigger] resets@.contains_key(k) <==> restores(start).contains_key(k) by {
                if start.stop_controls.contains_key(k) {
                    assert(stops.contains((&k, &start.stop_controls[k])));
                    let i = choose|i: int| 0 <= i < stops.len() && stops[i] == (&k, &start.stop_controls[k]);
                    assert(*stops[i].0 == k);
                }
            }
            assert forall|k: (u8, u8)| #[trigger] resets@.contains_key(k) implies resets@[k] == restores(start)[k] by {
                if start.stop_controls.contains_key(k) {
                    assert(stops.contains((&k, &start.stop_controls[k])));
                    let i = choose|i: int| 0 <= i < stops.len() && stops[i] == (&k, &start.stop_controls[k]);
                    assert(*stops[i].0 == k);
                }
            }
            assert(resets@ =~= restores(start));
        }
        self.controls = BTreeMap::new();
        self.stop_controls = BTreeMap::new();
        let ghost rs = resets@;
        let ghost sends_before = self.sends@;
        let ghost entries = vstd::std_specs::btree::spec_btree_map_iter(&resets).remaining();
        for kv in it3: resets.iter()
            invariant
                it3.seq() == entries,
                resets@ == rs,
                rs == restores(start),
                self.sends@ == sends_before + reset_messages(entries.take(it3.index() as int).map_values(|e: (&(u8, u8), &u8)| *e.0), rs),
                self.active@ == Set::<(u8, u8)>::empty(),
                self.controls@ == Map::<(u8, u8), u8>::empty(),
                self.stop_controls@ == Map::<(u8, u8), u8>::empty(),
                self.stats == start.stats,
                self.sends@.len() >= start.sends.len(),
                self.answers@.len() == start_answers.len() + (self.sends@.len() - start.sends.len()),
                self.answers@.subrange(0, start_answers.len() as int) == start_answers,
                error == last_failure(self.answers@.skip(start_answers.len() as int)),
                forall|k: (u8, u8)| !(exists|i: int| 0 <= i < it3.index() && *entries[i].0 == k) ==>
                    (#[trigger] self.last_controls@.contains_key(k) == start.last_controls.contains_key(k)
                    && (self.last_controls@.contains_key(k) ==> self.last_controls@[k] == start.last_controls[k])),
                forall|k: (u8, u8)| (exists|i: int| 0 <= i < it3.index() && *entries[i].0 == k) ==>
                    (#[trigger] self.last_controls@.contains_key(k) && self.last_controls@[k] == rs[k])
                    || (self.last_controls@.contains_key(k) == start.last_controls.contains_key(k)
                        && (self.last_controls@.contains_key(k) ==> self.last_controls@[k] == start.last_controls[k])),
                error is None ==> forall|k: (u8, u8)| (exists|i: int| 0 <= i < it3.index() && *entries[i].0 == k) ==>
                    (#[trigger] self.last_controls@.contains_key(k) && self.last_controls@[k] == rs[k]),
        {
            let (k, v) = kv;
            let key = *k;
            let value = *v;
            let bytes: [u8; 3] = [0xb0 | key.0, key.1, value];
            proof {
                assert(entries[it3.index() as int] == (k, v));
                assert(rs.contains_key(key) && rs[key] == value);
                let f = |e: (&(u8, u8), &u8)| *e.0;
                let before = entries.take(it3.index() as int).map_values(f);
                let after = entries.take(it3.index() + 1).map_values(f);
                assert(after =~= before.push(key));
                assert(reset_messages(after, rs) =~= reset_messages(before, rs).push(control_reset(key, rs[key])));
                assert(bytes@ =~= control_reset(key, value));
                self.sends@ = self.sends@.push(bytes@);
            }
            let slice: &[u8] = &bytes;
            let answer = self.sink.send(slice);
            proof {
                let before = self.answers@;
                self.answers@ = self.answers@.push(answer);
                assert(self.answers@.skip(start_answers.len() as int).drop_last()
                    =~= before.skip(start_answers.len() as int));
                assert(self.answers@.subrange(0, start_answers.len() as int)
                    =~= before.subrange(0, start_answers.len() as int));
            }
            match answer {
                Ok(()) => {
                    self.last_controls.insert(key, value);
                },
                Err(e) => {
                    error = Some(e);
                },
            }
        }
        proof {
            let keys = entries.map_values(|e: (&(u8, u8), &u8)| *e.0);
            assert(entries.take(entries.len() as int) =~= entries);
            lemma_ascending_plain(keys);
            lemma_ascending_distinct(keys);
            assert forall|k: (u8, u8)| rs.dom().contains(k) <==> keys.contains(k) by {
                if rs.contains_key(k) {
                    assert(entries.contains((&k, &rs[k])));
                    let i = choose|i: int| 0 <= i < entries.len() && entries[i] == (&k, &rs[k]);
                    assert(keys[i] == k);
                }
                if keys.contains(k) {
                    let i = choose|i: int| 0 <= i < keys.len() && keys[i] == k;
                    assert(rs.contains_key(*entries[i].0));
                }
            }
            assert(ascending_keys(offs, start.active));
            assert(ascending_keys(keys, restores(start).dom()));
            assert(self.sends@ == start.sends + off_messages(offs) + reset_messages(keys, restores(start)));
            assert forall|k: (u8, u8)| #[trigger] self.last_controls@.contains_key(k) implies
                (start.last_controls.contains_key(k) && self.last_controls@[k] == start.last_controls[k])
                || (restores(start).contains_key(k) && self.last_controls@[k] == restores(start)[k]) by {
                if exists|i: int| 0 <= i < entries.len() && *entries[i].0 == k {
                    let i = choose|i: int| 0 <= i < entries.len() && *entries[i].0 == k;
                    assert(rs.contains_key(*entries[i].0));
                }
            }
            if error is None {
                assert forall|k: (u8, u8)| #[trigger] self.last_controls@.contains_key(k)
                    == start.last_controls.union_prefer_right(rs).contains_key(k) by {
                    if rs.contains_key(k) {
                        assert(entries.contains((&k, &rs[k])));
                        let i = choose|i: int| 0 <= i < entries.len() && entries[i] == (&k, &rs[k]);
                        assert(*entries[i].0 == k);
                    }
                    if exists|i: int| 0 <= i < entries.len() && *entries[i].0 == k {
                        let i = choose|i: int| 0 <= i < entries.len() && *entries[i].0 == k;
                        assert(rs.contains_key(*entries[i].0));
                    }
                }
                assert(self.last_controls@ =~= start.last_controls.union_prefer_right(rs)) by {
                    assert forall|k: (u8, u8)| #[trigger] self.last_controls@.contains_key(k) implies
                        self.last_controls@[k] == start.last_controls.union_prefer_right(rs)[k] by {
                        if rs.contains_key(k) {
                            assert(entries.contains((&k, &rs[k])));
                            let i = choose|i: int| 0 <= i < entries.len() && entries[i] == (&k, &rs[k]);
                            assert(*entries[i].0 == k);
                        }
                    }
                }
            }
        }
        match error {
            Some(e) => Err(e),
            None => Ok(()),
        }
    }
}

/// The error of the last failed answer, if any answer failed.
pub open spec fn last_failure(answers: Seq<Result<(), String>>) -> Option<String>
    decreases answers.len(),
{
    if answers.len() == 0 {
        None
    } else {
        match answers.last() {
            Err(e) => Some(e),
            Ok(()) => last_failure(answers.drop_last()),
        }
    }
}

/// The values cleanup restores: each registered control's reset, a stop value winning.
pub open spec fn restores(d: DispatcherV) -> Map<(u8, u8), u8> {
    d.controls.union_prefer_right(d.stop_controls)
}

pub open spec fn off_messages(keys: Seq<(u8, u8)>) -> Seq<Seq<u8>> {
    keys.map_values(|k: (u8, u8)| note_off(k))
}

pub open spec fn reset_messages(keys: Seq<(u8, u8)>, values: Map<(u8, u8), u8>) -> Seq<Seq<u8>> {
    keys.map_values(|k: (u8, u8)| control_reset(k, values[k]))
}

/// Ascending keys never repeat.
proof fn lemma_ascending_distinct(keys: Seq<(u8, u8)>)
    requires
        forall|i: int, j: int| 0 <= i < j < keys.len() ==> key_lt(#[trigger] keys[i], #[trigger] keys[j]),
    ensures
        keys.no_duplicates(),
{
    assert forall|i: int, j: int| 0 <= i < keys.len() && 0 <= j < keys.len() && i != j implies keys[i] != keys[j] by {
        if i < j {
            assert(key_lt(keys[i], keys[j]));
        } else {
            assert(key_lt(keys[j], keys[i]));
        }
    }
}

/// A set's iteration order is ascending.
proof fn lemma_ascending_refs(rem: Seq<&(u8, u8)>)
    requires
        vstd::std_specs::btree::increasing_seq(rem),
    ensures
        forall|i: int, j: int| 0 <= i < j < rem.len() ==> key_lt(*(#[trigger] rem[i]), *(#[trigger] rem[j])),
{
    assert(vstd::laws_cmp::obeys_cmp::<u8>());
    assert(vstd::laws_cmp::obeys_cmp::<(u8, u8)>());
    assert(vstd::laws_cmp::obeys_cmp::<&(u8, u8)>());
    vstd::std_specs::btree::axiom_increasing_seq_meaning::<&(u8, u8)>(rem);
    assert forall|i: int, j: int| 0 <= i < j < rem.len() implies key_lt(*(#[trigger] rem[i]), *(#[trigger] rem[j])) by {
        assert(OrdSpec::cmp_spec(&rem[i], &rem[j]) is Less);
    }
}

/// A map's iteration order is ascending in its keys.
proof fn lemma_ascending_plain(keys: Seq<(u8, u8)>)
    requires
        vstd::std_specs::btree::increasing_seq(keys),
    ensures
        forall|i: int, j: int| 0 <= i < j < keys.len() ==> key_lt(#[trigger] keys[i], #[trigger] keys[j]),
{
    assert(vstd::laws_cmp::obeys_cmp::<u8>());
    assert(vstd::laws_cmp::obeys_cmp::<(u8, u8)>());
    vstd::std_specs::btree::axiom_increasing_seq_meaning::<(u8, u8)>(keys);
    assert forall|i: int, j: int| 0 <= i < j < keys.len() implies key_lt(#[trigger] keys[i], #[trigger] keys[j]) by {
        assert(OrdSpec::cmp_spec(&keys[i], &keys[j]) is Less);
    }
}

} // verus!
