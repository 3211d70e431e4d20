//! What the player shows of recent steps. Planned frames arrive ahead of their audible
//! deadlines; the display shows a frame only once its deadline has passed, keeps a bounded
//! queue of frames still to show, dropping the oldest under load, and a bounded history of
//! the most recent steps shown.
use vstd::prelude::*;

verus! {

/// One Part at one step: whether it could fire, fired, and was accented.
#[derive(Clone, Debug, PartialEq, Eq)]
pub struct Hit {
    pub id: String,
    pub eligible: bool,
    pub fired: bool,
    pub accented: bool,
}

/// Every Part at one step.
#[derive(Clone, Debug, PartialEq, Eq)]
pub struct HistoryStep {
    pub step: u64,
    pub parts: Vec<Hit>,
}

/// A planned step as the display receives it: its deadline, in nanoseconds on the
/// transport's clock, its step, and what every Part did.
#[derive(Clone, Debug)]
pub struct Frame {
    pub deadline: u64,
    pub step: u64,
    pub parts: Vec<Hit>,
}

/// Frames held for display at most.
pub const PENDING_LIMIT: usize = 256;
/// Steps of history kept.
pub const HISTORY_LIMIT: usize = 32;

/// The display's state: frames still to show, in arrival order, the steps shown most
/// recently, oldest first, and the step and deadline of the frame shown last.
pub struct Display {
    pub pending: Vec<Frame>,
    pub history: Vec<HistoryStep>,
    pub current: Option<(u64, u64)>,
}

/// The last `n` entries of `s`, or all of them.
pub open spec fn keep_last<T>(s: Seq<T>, n: nat) -> Seq<T> {
    if s.len() > n { s.subrange(s.len() - n, s.len() as int) } else { s }
}

/// The history entries of frames, in order.
pub open spec fn steps_of(frames: Seq<Frame>) -> Seq<HistoryStep> {
    frames.map_values(|f: Frame| HistoryStep { step: f.step, parts: f.parts })
}

/// Both bounds hold.
pub open spec fn bounded(d: Display) -> bool {
    d.pending@.len() <= PENDING_LIMIT && d.history@.len() <= HISTORY_LIMIT
}

/// Keeping the last `n` entries before a push and again after it keeps what one trim after
/// the push keeps.
proof fn lemma_keep_last_push<T>(s: Seq<T>, e: T, n: nat)
    requires
        n > 0,
    ensures
        keep_last(keep_last(s, n).push(e), n) == keep_last(s.push(e), n),
{
    let t = keep_last(s, n);
    if s.len() > n {
        assert(keep_last(t.push(e), n) =~= keep_last(s.push(e), n));
    } else {
        assert(t == s);
    }
}

impl Display {
    pub fn new() -> (d: Display)
        ensures
            d.pending@.len() == 0,
            d.history@.len() == 0,
            d.current is None,
    {
        Display { pending: Vec::new(), history: Vec::new(), current: None }
    }

    /// Takes a planned frame; when the queue is full its oldest frame is dropped, so that a
    /// display that falls behind never holds up the transport.
    pub fn receive(&mut self, frame: Frame)
        requires
            bounded(*old(self)),
        ensures
            bounded(*final(self)),
            final(self).pending@ == (if old(self).pending@.len() == PENDING_LIMIT {
                old(self).pending@.drop_first()
            } else {
                old(self).pending@
            }).push(frame),
            final(self).history@ == old(self).history@,
            final(self).current == old(self).current,
    {
        if self.pending.len() == PENDING_LIMIT {
            self.pending.remove(0);
            proof {
                assert(self.pending@ =~= old(self).pending@.drop_first());
            }
        }
        self.pending.push(frame);
    }

    /// Shows, at time `now`, the frames at the front of the queue whose deadlines have passed,
    /// stopping at the first that is not yet due; each shown frame becomes the newest history
    /// step, and the frame shown last becomes the current one.
    pub fn show_due(&mut self, now: u64)
        requires
            bounded(*old(self)),
        ensures
            bounded(*final(self)),
            exists|k: int| {
                &&& 0 <= k <= old(self).pending@.len()
                &&& forall|i: int| 0 <= i < k ==> (#[trigger] old(self).pending@[i]).deadline <= now
                &&& k < old(self).pending@.len() ==> old(self).pending@[k].deadline > now
                &&& final(self).pending@ == old(self).pending@.skip(k)
                &&& final(self).history@ == keep_last(
                    old(self).history@ + steps_of(old(self).pending@.take(k)),
                    HISTORY_LIMIT as nat,
                )
                &&& final(self).current == (if k > 0 {
                    Some((old(self).pending@[k - 1].step, old(self).pending@[k - 1].deadline))
                } else {
                    old(self).current
                })
            },
    {
        let ghost start = self.pending@;
        let ghost shown: int = 0;
        while self.pending.len() > 0 && self.pending[0].deadline <= now
            invariant
                0 <= shown <= start.len(),
                self.pending@ == start.skip(shown),
                forall|i: int| 0 <= i < shown ==> (#[trigger] start[i]).deadline <= now,
                self.history@ == keep_last(old(self).history@ + steps_of(start.take(shown)), HISTORY_LIMIT as nat),
                self.history@.len() <= HISTORY_LIMIT,
                self.current == (if shown > 0 {
                    Some((start[shown - 1].step, start[shown - 1].deadline))
                } else {
                    old(self).current
                }),
                start == old(self).pending@,
                old(self).history@.len() <= HISTORY_LIMIT,
            decreases self.pending@.len(),
        {
            let frame = self.pending.remove(0);
            proof {
                assert(frame == start[shown]);
                assert(start.skip(shown).drop_first() =~= start.skip(shown + 1));
                let before = old(self).history@ + steps_of(start.take(shown));
                let entry = HistoryStep { step: frame.step, parts: frame.parts };
                assert(old(self).history@ + steps_of(start.take(shown + 1)) =~= before.push(entry));
                lemma_keep_last_push(before, entry, HISTORY_LIMIT as nat);
                shown = shown + 1;
            }
            self.current = Some((frame.step, frame.deadline));
            self.history.push(HistoryStep { step: frame.step, parts: frame.parts });
            if self.history.len() > HISTORY_LIMIT {
                let ghost h = self.history@;
                self.history.remove(0);
                proof {
                    assert(self.history@ =~= keep_last(h, HISTORY_LIMIT as nat));
                }
            }
        }
        proof {
            assert(self.pending@.len() > 0 ==> self.pending@[0] == start[shown]);
        }
    }
}

/// The display never shows a frame early: after showing at `now`, every step shown in that
/// call had its deadline at or before `now`, and the frame left at the front is not yet due.
pub proof fn lemma_never_early(before: Display, after: Display, now: u64, k: int)
    requires
        0 <= k <= before.pending@.len(),
        forall|i: int| 0 <= i < k ==> (#[trigger] before.pending@[i]).deadline <= now,
        k < before.pending@.len() ==> before.pending@[k].deadline > now,
        after.pending@ == before.pending@.skip(k),
    ensures
        after.pending@.len() > 0 ==> after.pending@[0].deadline > now,
        forall|i: int| 0 <= i < before.pending@.len() - after.pending@.len() ==> (#[trigger] before.pending@[i]).deadline <= now,
{
}

} // verus!
