//! Chronological retained rhythm mutation: a bounded swap evaluator that moves one hit to a
//! rest per admitted opportunity, publishing edits only at application boundaries.
use vstd::prelude::*;

verus! {

#[derive(Clone, Copy, Debug, Default, PartialEq, Eq, Structural)]
pub enum Per {
    #[default]
    Step,
    Event,
}

#[derive(Clone, Copy, Debug, Default, PartialEq, Eq, Structural)]
pub enum Clock {
    Main,
    #[default]
    Attacks,
}

#[derive(Clone, Copy, Debug, PartialEq, Eq, Structural)]
pub enum Carry {
    Always,
}

/// Application boundaries for retained rhythm edits, measured from transport slot zero.
#[derive(Clone, Copy, Debug, PartialEq, Eq, Structural)]
pub enum Apply {
    Bar,
    Cycle,
}

/// The caller supplies draws by (transport occurrence, decision), independently of history.
#[derive(Clone, Copy, Debug, PartialEq, Eq, Structural)]
pub enum MutationDecision {
    Admit,
    RestIndex,
    HitIndex,
}

pub open spec fn decision_key(d: MutationDecision) -> Seq<char> {
    match d {
        MutationDecision::Admit => "admit"@,
        MutationDecision::RestIndex => "rest_index"@,
        MutationDecision::HitIndex => "hit_index"@,
    }
}

impl MutationDecision {
    /// The decision's name in a draw address.
    pub fn key(self) -> (r: &'static str)
        ensures
            r@ == decision_key(self),
    {
        proof {
            reveal_strlit("admit");
            reveal_strlit("rest_index");
            reveal_strlit("hit_index");
        }
        match self {
            MutationDecision::Admit => "admit",
            MutationDecision::RestIndex => "rest_index",
            MutationDecision::HitIndex => "hit_index",
        }
    }
}

/// How many slots of `s`, before `n`, hold `v`.
pub open spec fn count_of(s: Seq<bool>, v: bool, n: int) -> nat
    decreases n,
{
    if n <= 0 || n > s.len() {
        0
    } else {
        count_of(s, v, n - 1) + if s[n - 1] == v { 1nat } else { 0nat }
    }
}

/// How many slots of `s` hold `v`.
pub open spec fn count(s: Seq<bool>, v: bool) -> nat {
    count_of(s, v, s.len() as int)
}

/// The slot of the `k`-th (zero-based) occurrence of `v` in `s`.
pub open spec fn nth_slot(s: Seq<bool>, v: bool, k: nat) -> int {
    choose|i: int| 0 <= i < s.len() && s[i] == v && count_of(s, v, i) == k
}

/// What one slot of the evaluator did.
#[derive(Clone, Copy, Debug, PartialEq, Eq)]
pub struct SlotStep {
    pub slot: u64,
    /// Zero-based transport opportunity, when this slot is one.
    pub occurrence: Option<u64>,
    /// A pending copy was published before this slot's mutation opportunity.
    pub committed: bool,
    /// The material slots that became a hit and a rest, when a swap was made.
    pub swapped: Option<(usize, usize)>,
}

/// A bounded swap evaluator over retained rhythm material. One call advances exactly one
/// sixteenth-note slot.
#[derive(Debug)]
pub struct RetainedSwap {
    material: Vec<bool>,
    pending: Option<Vec<bool>>,
    every: u32,
    apply_slots: u32,
    next_slot: u64,
}

/// The evaluator as values.
pub struct RetainedSwapV {
    pub material: Seq<bool>,
    pub pending: Option<Seq<bool>>,
    pub every: u32,
    pub apply_slots: u32,
    pub next_slot: u64,
}

impl View for RetainedSwap {
    type V = RetainedSwapV;

    closed spec fn view(&self) -> RetainedSwapV {
        RetainedSwapV {
            material: self.material@,
            pending: match self.pending {
                Some(p) => Some(p@),
                None => None,
            },
            every: self.every,
            apply_slots: self.apply_slots,
            next_slot: self.next_slot,
        }
    }
}

/// Material that can be swapped: 1..4096 slots, at least one hit and one rest.
pub open spec fn swappable(s: Seq<bool>) -> bool {
    1 <= s.len() <= 4096 && count(s, true) >= 1 && count(s, false) >= 1
}

/// The pattern a swap edits: the pending copy, or the audible material.
pub open spec fn current(r: RetainedSwapV) -> Seq<bool> {
    match r.pending {
        Some(p) => p,
        None => r.material,
    }
}

/// The evaluator after one slot, given the rest and hit indices to swap when the slot is an
/// opportunity; the slot number past the end of `u64` is refused by the caller's contract.
pub open spec fn after_slot(r: RetainedSwapV, swap: Option<(usize, usize)>) -> (RetainedSwapV, SlotStep) {
    let slot = r.next_slot;
    let committed = slot % (r.apply_slots as u64) == 0 && r.pending is Some;
    let occurrence = if slot % (r.every as u64) == 0 { Some((slot / (r.every as u64)) as u64) } else { None };
    let cur = current(r);
    let material = if committed { cur } else { r.material };
    let swapped = match (occurrence, swap) {
        (Some(_), Some((ri, hi))) => Some((nth_slot(cur, false, ri as nat) as usize, nth_slot(cur, true, hi as nat) as usize)),
        _ => None,
    };
    let pending = match swapped {
        Some((rs, hs)) => Some(cur.update(rs as int, true).update(hs as int, false)),
        None => if committed { None } else { r.pending },
    };
    (
        RetainedSwapV { material, pending, every: r.every, apply_slots: r.apply_slots, next_slot: (slot + 1) as u64 },
        SlotStep { slot, occurrence, committed, swapped },
    )
}

/// The state after a run of `advance_slot` calls with these swaps, as their contract fixes
/// it, and how many of them succeeded: a call on an exhausted transport fails and changes
/// nothing.
pub open spec fn advanced(r: RetainedSwapV, swaps: Seq<Option<(usize, usize)>>) -> (RetainedSwapV, nat)
    decreases swaps.len(),
{
    if swaps.len() == 0 {
        (r, 0)
    } else {
        let (p, k) = advanced(r, swaps.drop_last());
        if p.next_slot == u64::MAX {
            (p, k)
        } else {
            (after_slot(p, swaps.last()).0, k + 1)
        }
    }
}

/// Each successful advance moves exactly one sixteenth-note slot and a failed one moves none:
/// after any run of calls, the next slot is where it started plus the number that succeeded.
pub proof fn lemma_next_slot_counts_advances(r: RetainedSwapV, swaps: Seq<Option<(usize, usize)>>)
    ensures
        advanced(r, swaps).0.next_slot == r.next_slot + advanced(r, swaps).1,
    decreases swaps.len(),
{
    if swaps.len() > 0 {
        lemma_next_slot_counts_advances(r, swaps.drop_last());
    }
}

fn owned(s: &'static str) -> (m: String)
    ensures
        m@ == s@,
{
    String::from_str(s)
}

/// A copy of `v`.
fn copied(v: &[bool]) -> (r: Vec<bool>)
    ensures
        r@ == v@,
{
    let mut r: Vec<bool> = Vec::new();
    let mut i: usize = 0;
    while i < v.len()
        invariant
            i <= v@.len(),
            r@ == v@.subrange(0, i as int),
        decreases v@.len() - i,
    {
        r.push(v[i]);
        i += 1;
        proof {
            assert(r@ =~= v@.subrange(0, i as int));
        }
    }
    proof {
        assert(r@ =~= v@);
    }
    r
}

/// Counts the slots holding `v`.
fn count_exec(s: &[bool], v: bool) -> (n: usize)
    ensures
        n == count(s@, v),
{
    let mut n: usize = 0;
    let mut i: usize = 0;
    while i < s.len()
        invariant
            i <= s@.len(),
            n == count_of(s@, v, i as int),
            n <= i,
        decreases s@.len() - i,
    {
        if s[i] == v {
            n += 1;
        }
        i += 1;
    }
    n
}

/// Counting is monotone in the prefix, and each occurrence has its own index.
proof fn lemma_count_monotone(s: Seq<bool>, v: bool, a: int, b: int)
    requires
        0 <= a <= b <= s.len(),
    ensures
        count_of(s, v, a) <= count_of(s, v, b),
    decreases b - a,
{
    if a < b {
        lemma_count_monotone(s, v, a, b - 1);
    }
}

/// The slot of the `k`-th occurrence of `v`, found by scanning.
fn nth_exec(s: &[bool], v: bool, k: usize) -> (i: usize)
    requires
        k < count(s@, v),
    ensures
        i == nth_slot(s@, v, k as nat),
        i < s@.len(),
        s@[i as int] == v,
{
    let mut i: usize = 0;
    let mut seen: usize = 0;
    while i < s.len()
        invariant
            i <= s@.len(),
            seen == count_of(s@, v, i as int),
            seen <= k,
            k < count(s@, v),
        decreases s@.len() - i,
    {
        if s[i] == v {
            if seen == k {
                proof {
                    let w = nth_slot(s@, v, k as nat);
                    assert(0 <= i < s@.len() && s@[i as int] == v && count_of(s@, v, i as int) == k);
                    assert(0 <= w < s@.len() && s@[w] == v && count_of(s@, v, w) == k);
                    if w < i {
                        lemma_count_monotone(s@, v, w + 1, i as int);
                        assert(count_of(s@, v, w + 1) == k + 1);
                    } else if w > i {
                        lemma_count_monotone(s@, v, i + 1, w);
                        assert(count_of(s@, v, i + 1) == k + 1);
                    }
                }
                return i;
            }
            seen += 1;
        }
        i += 1;
    }
    proof {
        assert(count(s@, v) == seen);
    }
    0
}

/// Changing one slot from `a` to `b` moves one count from `a` to `b`.
proof fn lemma_count_update(s: Seq<bool>, i: int, b: bool, v: bool, n: int)
    requires
        0 <= i < s.len(),
        0 <= n <= s.len(),
    ensures
        count_of(s.update(i, b), v, n) + (if i < n && s[i] == v { 1nat } else { 0nat })
            == count_of(s, v, n) + (if i < n && b == v { 1nat } else { 0nat }),
    decreases n,
{
    if n > 0 {
        lemma_count_update(s, i, b, v, n - 1);
    }
}

impl Clone for RetainedSwap {
    fn clone(&self) -> (r: RetainedSwap)
        ensures
            r@ == self@,
    {
        proof {
            use_type_invariant(self);
        }
        let pending = match &self.pending {
            Some(p) => Some(copied(p.as_slice())),
            None => None,
        };
        RetainedSwap {
            material: copied(self.material.as_slice()),
            pending,
            every: self.every,
            apply_slots: self.apply_slots,
            next_slot: self.next_slot,
        }
    }
}

impl RetainedSwap {
    #[verifier::type_invariant]
    closed spec fn well_formed(self) -> bool {
        &&& swappable(self.material@)
        &&& self.pending matches Some(p) ==> swappable(p@) && p@.len() == self.material@.len()
            && count(p@, true) == count(self.material@, true)
        &&& 1 <= self.every <= 65536
        &&& 1 <= self.apply_slots
    }

    pub fn new(initial: &[bool], every: u32, apply: Apply) -> (r: Result<RetainedSwap, String>)
        ensures
            r matches Ok(s) ==> s@.material == initial@ && s@.pending is None && s@.every == every && s@.next_slot == 0
                && s@.apply_slots == (match apply { Apply::Bar => 16, Apply::Cycle => initial@.len() }),
            r is Ok <==> swappable(initial@) && 1 <= every <= 65536,
            r matches Err(e) ==> e@ == (if !(1 <= initial@.len() <= 4096) {
                "retained swap requires 1..4096 initial slots"@
            } else if count(initial@, true) == 0 || count(initial@, false) == 0 {
                "retained swap requires at least one hit and one rest"@
            } else {
                "retained swap every must be 1..65536 slots"@
            }),
    {
        proof {
            reveal_strlit("retained swap requires 1..4096 initial slots");
            reveal_strlit("retained swap requires at least one hit and one rest");
            reveal_strlit("retained swap every must be 1..65536 slots");
        }
        if initial.len() == 0 || initial.len() > 4096 {
            return Err(owned("retained swap requires 1..4096 initial slots"));
        }
        if count_exec(initial, true) == 0 || count_exec(initial, false) == 0 {
            return Err(owned("retained swap requires at least one hit and one rest"));
        }
        if every < 1 || every > 65536 {
            return Err(owned("retained swap every must be 1..65536 slots"));
        }
        let material = copied(initial);
        let apply_slots: u32 = match apply {
            Apply::Bar => 16,
            Apply::Cycle => initial.len() as u32,
        };
        Ok(RetainedSwap { material, pending: None, every, apply_slots, next_slot: 0 })
    }

    /// The pattern currently audible, never the uncommitted edits.
    pub fn material(&self) -> (r: &[bool])
        ensures
            r@ == self@.material,
    {
        self.material.as_slice()
    }

    /// Pending material is exposed for diagnostics; callers cannot mutate it.
    pub fn pending(&self) -> (r: Option<&[bool]>)
        ensures
            match self@.pending {
                Some(p) => r matches Some(q) && q@ == p,
                None => r is None,
            },
    {
        match &self.pending {
            Some(p) => Some(p.as_slice()),
            None => None,
        }
    }

    pub fn next_slot(&self) -> (r: u64)
        ensures
            r == self@.next_slot,
    {
        self.next_slot
    }

    /// The opportunity the next slot is, if any: slot `every * n` is opportunity `n`.
    pub fn next_occurrence(&self) -> (r: Option<u64>)
        ensures
            r == (if self@.next_slot % (self@.every as u64) == 0 {
                Some((self@.next_slot / (self@.every as u64)) as u64)
            } else {
                None
            }),
    {
        proof {
            use_type_invariant(self);
        }
        if self.next_slot % (self.every as u64) == 0 {
            Some(self.next_slot / (self.every as u64))
        } else {
            None
        }
    }

    /// How many rests and hits the next swap chooses among.
    pub fn counts(&self) -> (r: (usize, usize))
        ensures
            r == (count(current(self@), false) as usize, count(current(self@), true) as usize),
    {
        let cur: &[bool] = match &self.pending {
            Some(p) => p.as_slice(),
            None => self.material.as_slice(),
        };
        (count_exec(cur, false), count_exec(cur, true))
    }

    /// Advances one slot. At an opportunity, `swap` carries the indices, in the ascending rest
    /// and hit lists of the current pattern, of the rest that becomes a hit and the hit that
    /// becomes a rest; `None` leaves the opportunity unused. A boundary commit precedes the
    /// opportunity, so an edit made at a boundary waits for the following one.
    pub fn advance_slot(&mut self, swap: Option<(usize, usize)>) -> (r: Result<SlotStep, String>)
        requires
            swap matches Some((ri, hi)) ==> ri < count(current(old(self)@), false) && hi < count(current(old(self)@), true),
        ensures
            r is Err <==> old(self)@.next_slot == u64::MAX,
            r matches Err(e) ==> e@ == "retained swap transport exhausted"@ && final(self)@ == old(self)@,
            r matches Ok(step) ==> (final(self)@, step) == after_slot(old(self)@, swap),
            final(self)@.next_slot == old(self)@.next_slot + (if r is Ok { 1int } else { 0int }),
            count(current(final(self)@), true) == count(current(old(self)@), true),
            final(self)@.material.len() == old(self)@.material.len(),
            count(final(self)@.material, true) == count(old(self)@.material, true),
            final(self)@.pending matches Some(p) ==> p.len() == old(self)@.material.len()
                && count(p, true) == count(old(self)@.material, true),
    {
        proof {
            use_type_invariant(&*self);
            reveal_strlit("retained swap transport exhausted");
        }
        let slot = self.next_slot;
        if slot == u64::MAX {
            return Err(owned("retained swap transport exhausted"));
        }
        let boundary = slot % (self.apply_slots as u64) == 0;
        let committed = boundary && self.pending.is_some();
        let occurrence = if slot % (self.every as u64) == 0 { Some(slot / (self.every as u64)) } else { None };
        let swapped: Option<(usize, usize)> = match (occurrence, swap) {
            (Some(_), Some((ri, hi))) => {
                let cur: &[bool] = match &self.pending {
                    Some(p) => p.as_slice(),
                    None => self.material.as_slice(),
                };
                Some((nth_exec(cur, false, ri), nth_exec(cur, true, hi)))
            },
            _ => None,
        };
        let ghost cur = current(self@);
        if committed {
            let v = match &self.pending {
                Some(p) => copied(p.as_slice()),
                None => copied(self.material.as_slice()),
            };
            self.material = v;
            self.pending = None;
        }
        match swapped {
            Some((rest_slot, hit_slot)) => {
                let mut next: Vec<bool> = match &self.pending {
                    Some(p) => copied(p.as_slice()),
                    None => copied(self.material.as_slice()),
                };
                proof {
                    assert(next@ == cur);
                }
                next.set(rest_slot, true);
                next.set(hit_slot, false);
                proof {
                    lemma_count_update(cur, rest_slot as int, true, true, cur.len() as int);
                    let c1 = cur.update(rest_slot as int, true);
                    lemma_count_update(c1, hit_slot as int, false, true, cur.len() as int);
                    lemma_count_update(cur, rest_slot as int, true, false, cur.len() as int);
                    lemma_count_update(c1, hit_slot as int, false, false, cur.len() as int);
                    assert(next@ == c1.update(hit_slot as int, false));
                }
                self.pending = Some(next);
            },
            None => {},
        }
        self.next_slot = slot + 1;
        Ok(SlotStep { slot, occurrence, committed, swapped })
    }
}

} // verus!
