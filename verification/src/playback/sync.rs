//! MIDI clock is a transport lane, independent of notes, Parts and their probabilities.
//!
//! The lane sends a Start before its first pulse, one Clock message per pulse, and a Stop when
//! it is stopped after having started. Time is the caller's: it reports, for the current
//! pulse's deadline, whether that deadline is still ahead, has come, or has passed by a whole
//! pulse or more.
use vstd::prelude::*;

use super::MidiOutput;

verus! {

/// Ticks between MIDI clock pulses: twenty-four pulses per quarter note.
pub const CLOCK_TICKS: u64 = 40;

/// Whether to send MIDI clock, and the tick it stops at.
#[derive(Clone, Copy, Debug, Default, PartialEq, Eq, Structural)]
pub struct SyncOptions {
    pub enabled: bool,
    pub end_tick: Option<u64>,
}

/// The tick of clock pulse `pulse`.
pub fn pulse_tick(pulse: u64) -> (r: Option<u64>)
    ensures
        r == (if pulse as nat * 40 <= u64::MAX { Some((pulse * 40) as u64) } else { None::<u64> }),
{
    pulse.checked_mul(CLOCK_TICKS)
}

/// Where the present stands relative to the current pulse's deadline.
#[derive(Clone, Copy, Debug, PartialEq, Eq, Structural)]
pub enum PulseTime {
    /// The deadline is still ahead.
    Early,
    /// The deadline has come, less than one pulse ago.
    Due,
    /// The deadline passed one pulse or more ago.
    Missed,
}

/// The clock lane's state: its options, the next pulse, and whether Start has been sent.
pub struct ClockOutput {
    options: SyncOptions,
    pulse: u64,
    started: bool,
    /// Every message handed to an output, in order.
    sends: Ghost<Seq<Seq<u8>>>,
    /// The output's answer to each message, in the same order.
    answers: Ghost<Seq<Result<(), String>>>,
}

pub struct ClockV {
    pub options: SyncOptions,
    pub pulse: u64,
    pub started: bool,
    pub sends: Seq<Seq<u8>>,
    pub answers: Seq<Result<(), String>>,
}

impl View for ClockOutput {
    type V = ClockV;

    closed spec fn view(&self) -> ClockV {
        ClockV { options: self.options, pulse: self.pulse, started: self.started, sends: self.sends@, answers: self.answers@ }
    }
}

/// The tick the next pulse is due at, while the lane is enabled and before its end tick.
pub open spec fn deadline_of(c: ClockV) -> Option<u64> {
    let tick = c.pulse * 40;
    if c.options.enabled && (match c.options.end_tick {
        Some(end) => tick < end,
        None => true,
    }) {
        Some(tick as u64)
    } else {
        None
    }
}

/// The messages a pulse hands over: Start first if the lane has not started, then Clock.
pub open spec fn pulse_messages(started: bool) -> Seq<Seq<u8>> {
    if started {
        seq![seq![0xf8u8]]
    } else {
        seq![seq![0xfau8], seq![0xf8u8]]
    }
}

pub open spec fn missed_message() -> Seq<char> {
    "MIDI clock missed a pulse deadline; playback stopped to avoid sending an incorrect tempo. Restart playback."@
}

impl ClockOutput {
    pub fn new(options: SyncOptions) -> (r: ClockOutput)
        ensures
            r@ == (ClockV { options, pulse: 0, started: false, sends: Seq::empty(), answers: Seq::empty() }),
    {
        ClockOutput { options, pulse: 0, started: false, sends: Ghost(Seq::empty()), answers: Ghost(Seq::empty()) }
    }

    /// The tick of the next pulse, or none when the lane is off or has reached its end tick.
    pub fn deadline(&self) -> (r: Option<u64>)
        requires
            self@.pulse * 40 <= u64::MAX,
        ensures
            r == deadline_of(self@),
    {
        let tick = self.pulse * CLOCK_TICKS;
        let before_end = match self.options.end_tick {
            Some(end) => tick < end,
            None => true,
        };
        if self.options.enabled && before_end {
            Some(tick)
        } else {
            None
        }
    }

    /// Sends the pulse whose deadline stands at `at`. Nothing is sent before the deadline or
    /// when no pulse is due. A deadline missed by a whole pulse or more is an error: a burst of
    /// obsolete pulses would mislead the receiving clock. The lane counts as started once it
    /// has tried to send Start, so that a Stop is attempted even after a Start that failed.
    pub fn send<S: MidiOutput>(&mut self, sink: &mut S, at: PulseTime) -> (r: Result<(), String>)
        requires
            old(self)@.pulse * 40 <= u64::MAX,
        ensures
            deadline_of(old(self)@) is None || at == PulseTime::Early ==> r is Ok && final(self)@ == old(self)@,
            deadline_of(old(self)@) is Some && at == PulseTime::Missed ==> (r matches Err(e) && e@ == missed_message())
                && final(self)@ == old(self)@,
            deadline_of(old(self)@) is Some && at == PulseTime::Due ==> {
                &&& final(self)@.options == old(self)@.options
                &&& final(self)@.started
                &&& r is Ok ==> final(self)@.pulse == old(self)@.pulse + 1
                    && final(self)@.sends == old(self)@.sends + pulse_messages(old(self)@.started)
                &&& r is Err ==> final(self)@.pulse == old(self)@.pulse && (
                    final(self)@.sends == old(self)@.sends + pulse_messages(old(self)@.started).take(1)
                    || final(self)@.sends == old(self)@.sends + pulse_messages(old(self)@.started))
                &&& final(self)@.answers.len() - old(self)@.answers.len() == final(self)@.sends.len() - old(self)@.sends.len()
                &&& final(self)@.answers.subrange(0, old(self)@.answers.len() as int) == old(self)@.answers
                &&& r is Ok ==> forall|i: int| old(self)@.answers.len() <= i < final(self)@.answers.len()
                    ==> #[trigger] final(self)@.answers[i] is Ok
                &&& r is Err ==> final(self)@.answers.last() == r
                    && forall|i: int| old(self)@.answers.len() <= i < final(self)@.answers.len() - 1
                    ==> #[trigger] final(self)@.answers[i] is Ok
            },
    {
        let deadline = self.deadline();
        if deadline.is_none() {
            return Ok(());
        }
        match at {
            PulseTime::Early => Ok(()),
            PulseTime::Missed => {
                proof {
                    reveal_strlit("MIDI clock missed a pulse deadline; playback stopped to avoid sending an incorrect tempo. Restart playback.");
                }
                Err(String::from_str("MIDI clock missed a pulse deadline; playback stopped to avoid sending an incorrect tempo. Restart playback."))
            },
            PulseTime::Due => {
                let ghost before = self.sends@;
                if !self.started {
                    self.started = true;
                    let start: [u8; 1] = [0xfa];
                    proof {
                        assert(start@ =~= seq![0xfau8]);
                        self.sends@ = self.sends@.push(start@);
                        assert(self.sends@ =~= before + pulse_messages(false).take(1));
                    }
                    let slice: &[u8] = &start;
                    let answer = sink.send(slice);
                    proof {
                        self.answers@ = self.answers@.push(answer);
                    }
                    match answer {
                        Ok(()) => {},
                        Err(e) => return Err(e),
                    }
                }
                let clock: [u8; 1] = [0xf8];
                proof {
                    assert(clock@ =~= seq![0xf8u8]);
                    self.sends@ = self.sends@.push(clock@);
                    assert(self.sends@ =~= before + pulse_messages(old(self)@.started));
                    if old(self)@.started {
                        assert(pulse_messages(true).take(1) =~= pulse_messages(true));
                    }
                }
                let slice: &[u8] = &clock;
                let answer = sink.send(slice);
                proof {
                    self.answers@ = self.answers@.push(answer);
                }
                match answer {
                    Ok(()) => {},
                    Err(e) => return Err(e),
                }
                self.pulse = self.pulse + 1;
                Ok(())
            },
        }
    }

    /// Sends Stop if the lane has started, once.
    pub fn stop<S: MidiOutput>(&mut self, sink: &mut S) -> (r: Result<(), String>)
        ensures
            !final(self)@.started,
            final(self)@.pulse == old(self)@.pulse,
            final(self)@.options == old(self)@.options,
            final(self)@.sends == old(self)@.sends + (if old(self)@.started {
                seq![seq![0xfcu8]]
            } else {
                Seq::<Seq<u8>>::empty()
            }),
            !old(self)@.started ==> r is Ok && final(self)@.answers == old(self)@.answers,
            old(self)@.started ==> final(self)@.answers == old(self)@.answers.push(r),
    {
        if self.started {
            self.started = false;
            let stop: [u8; 1] = [0xfc];
            proof {
                let before = self.sends@;
                assert(stop@ =~= seq![0xfcu8]);
                self.sends@ = self.sends@.push(stop@);
                assert(self.sends@ =~= before + seq![seq![0xfcu8]]);
            }
            let slice: &[u8] = &stop;
            let answer = sink.send(slice);
            proof {
                self.answers@ = self.answers@.push(answer);
            }
            return answer;
        }
        proof {
            assert(self.sends@ =~= self.sends@ + Seq::<Seq<u8>>::empty());
        }
        Ok(())
    }

    /// Pulses sent so far.
    pub fn pulses(&self) -> (r: u64)
        ensures
            r == self@.pulse,
    {
        self.pulse
    }
}

} // verus!
