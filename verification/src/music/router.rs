//! The return group: fixed transport periods elsewhere in the piece that return when they all
//! line up. Its period is the checked least common multiple in ticks.
use vstd::prelude::*;

use super::ratio::{gcd, lemma_gcd_divides};
use crate::text::{blank, debug_str, is_blank, quoted};

verus! {

pub const MAX_GROUPS: usize = 16;
pub const MAX_SCENES: usize = 64;

/// `[returns.<name>] align = [...]`: the author writes `align`; the engine calls them members.
#[derive(Clone, Debug, PartialEq)]
pub struct ReturnGroup {
    pub members: Vec<String>,
}

/// What one `align` key resolves to in one composition.
#[derive(Clone, Copy, Debug, PartialEq, Eq, Structural)]
pub enum Clock {
    /// A fixed transport period, in ticks.
    Fixed(u64),
    /// Advances on events rather than on the transport. Never a member.
    Event,
    /// The key's owner is not in this composition: a scene that dropped the voice.
    Absent,
}

/// `every = { returns = "<group>" }`. `bars` is named so its refusal can say why.
#[derive(Clone, Debug, Default, PartialEq)]
pub struct Every {
    pub returns: Option<String>,
    pub bars: Option<u64>,
}

/// Where the piece is at one tick, for a trace.
#[derive(Clone, Debug, PartialEq)]
pub struct Visit {
    pub scene: String,
    /// Returns elapsed: 0 before the first return.
    pub index: u64,
    /// `period * index`: the return that opened this visit, or 0.
    pub start_tick: u64,
    /// The tick of the move that opened this run of the scene, or 0. A stay keeps it.
    pub entered_tick: u64,
    /// The next return, where the router asks again.
    pub next_tick: u64,
    /// The scene the run was entered from; none at the start.
    pub from: Option<String>,
}

/// Euclid's remainder loop.
pub fn gcd_u64(a: u64, b: u64) -> (g: u64)
    ensures
        g == gcd(a as nat, b as nat),
{
    let mut x = a;
    let mut y = b;
    while y != 0
        invariant
            gcd(x as nat, y as nat) == gcd(a as nat, b as nat),
        decreases y,
    {
        let r = x % y;
        x = y;
        y = r;
    }
    x
}

pub open spec fn zero_period(group: Seq<char>, key: Seq<char>) -> Seq<char> {
    "returns."@ + group + ": "@ + key + " has a period of zero ticks"@
}

pub open spec fn period_overflow(group: Seq<char>, key: Seq<char>) -> Seq<char> {
    "returns."@ + group + ": the period of "@ + key + " does not fit in u64 ticks together with the members before it"@
}

/// The least common multiple of `acc` and `t`, as the loop computes it.
pub open spec fn lcm_step(acc: nat, t: nat) -> nat {
    (acc / gcd(acc, t)) * t
}

/// Keyed values with each key read as its characters.
pub open spec fn keyed<T>(v: Seq<(&str, T)>) -> Seq<(Seq<char>, T)> {
    Seq::new(v.len(), |i: int| (v[i].0@, v[i].1))
}

/// Folds periods `i..` into `acc`: the first zero period or overflow is named.
pub open spec fn lcm_from(group: Seq<char>, periods: Seq<(Seq<char>, u64)>, i: int, acc: nat) -> Result<nat, Seq<char>>
    decreases periods.len() - i,
{
    if i < 0 || i >= periods.len() {
        Ok(acc)
    } else {
        let key = periods[i].0;
        let t = periods[i].1 as nat;
        if t == 0 {
            Err(zero_period(group, key))
        } else if lcm_step(acc, t) > u64::MAX {
            Err(period_overflow(group, key))
        } else {
            lcm_from(group, periods, i + 1, lcm_step(acc, t))
        }
    }
}

/// `returns.<group><middle><key><tail>`: the shape of every return-group message.
fn returns_message(group: &str, middle: &str, key: &str, tail: &str) -> (m: String)
    ensures
        m@ == "returns."@ + group@ + middle@ + key@ + tail@,
{
    let mut m = String::from_str("returns.");
    m.append(group);
    m.append(middle);
    m.append(key);
    m.append(tail);
    proof {
        reveal_strlit("returns.");
        assert(m@ =~= "returns."@ + group@ + middle@ + key@ + tail@);
    }
    m
}

/// The checked lcm of named periods: an overflow names the member that caused it.
pub fn lcm_ticks(group: &str, periods: &[(&str, u64)]) -> (r: Result<u64, String>)
    ensures
        match lcm_from(group@, keyed(periods@), 0, 1) {
            Ok(p) => r == Ok::<u64, String>(p as u64),
            Err(m) => r matches Err(e) && e@ == m,
        },
{
    let mut period: u64 = 1;
    let mut i: usize = 0;
    while i < periods.len()
        invariant
            i <= periods@.len(),
            period > 0,
            lcm_from(group@, keyed(periods@), 0, 1) == lcm_from(group@, keyed(periods@), i as int, period as nat),
        decreases periods@.len() - i,
    {
        let (key, ticks) = periods[i];
        proof {
            assert(keyed(periods@)[i as int] == (key@, ticks));
        }
        if ticks == 0 {
            proof {
                reveal_strlit(": ");
                reveal_strlit(" has a period of zero ticks");
            }
            return Err(returns_message(group, ": ", key, " has a period of zero ticks"));
        }
        let g = gcd_u64(period, ticks);
        proof {
            lemma_gcd_divides(period as nat, ticks as nat);
            vstd::arithmetic::div_mod::lemma_fundamental_div_mod(period as int, g as int);
            assert(period / g > 0) by (nonlinear_arith)
                requires period == g * (period / g) + period % g, period % g == 0, period > 0, g > 0;
        }
        match (period / g).checked_mul(ticks) {
            Some(p) => {
                proof {
                    assert(p > 0) by (nonlinear_arith)
                        requires p == (period / g) * ticks, period / g > 0, ticks > 0;
                }
                period = p;
            },
            None => {
                proof {
                    reveal_strlit(": the period of ");
                    reveal_strlit(" does not fit in u64 ticks together with the members before it");
                }
                return Err(returns_message(group, ": the period of ", key,
                    " does not fit in u64 ticks together with the members before it"));
            },
        }
        i += 1;
    }
    Ok(period)
}

/// The first member, from `i` on, that is blank or repeats an earlier one.
pub open spec fn first_bad_member(members: Seq<Seq<char>>, i: int) -> Option<int>
    decreases members.len() - i,
{
    if i < 0 || i >= members.len() {
        None
    } else if blank(members[i]) || exists|j: int| 0 <= j < i && members[j] == members[i] {
        Some(i)
    } else {
        first_bad_member(members, i + 1)
    }
}

pub open spec fn members_view(members: Seq<String>) -> Seq<Seq<char>> {
    Seq::new(members.len(), |i: int| members[i]@)
}

/// The check of a group named `name`.
pub open spec fn group_check(name: Seq<char>, members: Seq<Seq<char>>) -> Result<(), Seq<char>> {
    if blank(name) {
        Err("returns: a group needs a name"@)
    } else if members.len() == 0 {
        Err("returns."@ + name + ": align needs at least one member"@)
    } else {
        match first_bad_member(members, 0) {
            Some(i) => Err("returns."@ + name + ": empty or duplicate member "@ + debug_str(members[i])),
            None => Ok(()),
        }
    }
}

pub open spec fn event_clocked(name: Seq<char>, key: Seq<char>) -> Seq<char> {
    "returns."@ + name + ": "@ + key + " is event-clocked; align accepts members with a fixed transport period and nothing else"@
}

pub open spec fn absent_member(name: Seq<char>, key: Seq<char>) -> Seq<char> {
    "returns."@ + name + ": "@ + key + " names a voice the piece does not have"@
}

/// Clocks `i..`: the first event-clocked member, or absent one when that is refused, is named;
/// otherwise the fixed periods, in order, after `fixed`.
pub open spec fn fixed_clocks(
    name: Seq<char>,
    clocks: Seq<(Seq<char>, Clock)>,
    i: int,
    absent_ok: bool,
    fixed: Seq<(Seq<char>, u64)>,
) -> Result<Seq<(Seq<char>, u64)>, Seq<char>>
    decreases clocks.len() - i,
{
    if i < 0 || i >= clocks.len() {
        Ok(fixed)
    } else {
        match clocks[i].1 {
            Clock::Fixed(t) => fixed_clocks(name, clocks, i + 1, absent_ok, fixed.push((clocks[i].0, t))),
            Clock::Event => Err(event_clocked(name, clocks[i].0)),
            Clock::Absent => if absent_ok {
                fixed_clocks(name, clocks, i + 1, absent_ok, fixed)
            } else {
                Err(absent_member(name, clocks[i].0))
            },
        }
    }
}

impl ReturnGroup {
    pub fn validate(&self, name: &str) -> (r: Result<(), String>)
        ensures
            match group_check(name@, members_view(self.members@)) {
                Ok(()) => r is Ok,
                Err(m) => r matches Err(e) && e@ == m,
            },
    {
        let ghost mv = members_view(self.members@);
        if is_blank(name) {
            proof {
                reveal_strlit("returns: a group needs a name");
            }
            return Err(String::from_str("returns: a group needs a name"));
        }
        if self.members.len() == 0 {
            proof {
                reveal_strlit("");
                reveal_strlit(": align needs at least one member");
                assert("returns."@ + name@ + ""@ + ""@ + ": align needs at least one member"@
                    =~= "returns."@ + name@ + ": align needs at least one member"@);
            }
            return Err(returns_message(name, "", "", ": align needs at least one member"));
        }
        let mut i: usize = 0;
        while i < self.members.len()
            invariant
                i <= self.members@.len(),
                self.members@.len() > 0,
                !blank(name@),
                mv == members_view(self.members@),
                first_bad_member(mv, 0) == first_bad_member(mv, i as int),
            decreases self.members@.len() - i,
        {
            let key = &self.members[i];
            let mut dup = false;
            let mut j: usize = 0;
            while j < i
                invariant
                    j <= i < self.members@.len(),
                    mv == members_view(self.members@),
                    *key == self.members@[i as int],
                    dup == exists|x: int| 0 <= x < j && mv[x] == mv[i as int],
                decreases i - j,
            {
                proof {
                    assert(mv[j as int] == self.members@[j as int]@);
                    assert(mv[i as int] == self.members@[i as int]@);
                }
                if self.members[j] == *key {
                    dup = true;
                }
                j += 1;
            }
            proof {
                assert(mv[i as int] == key@);
            }
            if is_blank(key.as_str()) || dup {
                proof {
                    reveal_strlit(": empty or duplicate member ");
                    reveal_strlit("");
                }
                let q = quoted(key.as_str());
                let m = returns_message(name, ": empty or duplicate member ", q.as_str(), "");
                proof {
                    assert(m@ =~= "returns."@ + name@ + ": empty or duplicate member "@ + debug_str(mv[i as int]));
                }
                return Err(m);
            }
            i += 1;
        }
        Ok(())
    }

    /// The period from resolved clocks. An event-clocked member is refused; an absent one is
    /// refused too unless `absent_ok`, which a scene gets because the clock is the transport's
    /// and the voice merely left the room.
    pub fn period_from(name: &str, clocks: &[(&str, Clock)], absent_ok: bool) -> (r: Result<u64, String>)
        ensures
            match fixed_clocks(name@, keyed(clocks@), 0, absent_ok, Seq::empty()) {
                Err(m) => r matches Err(e) && e@ == m,
                Ok(fixed) => match lcm_from(name@, fixed, 0, 1) {
                    Ok(p) => r == Ok::<u64, String>(p as u64),
                    Err(m) => r matches Err(e) && e@ == m,
                },
            },
    {
        let mut fixed: Vec<(&str, u64)> = Vec::new();
        proof {
            assert(keyed(fixed@) =~= Seq::<(Seq<char>, u64)>::empty());
        }
        let mut i: usize = 0;
        while i < clocks.len()
            invariant
                i <= clocks@.len(),
                fixed_clocks(name@, keyed(clocks@), 0, absent_ok, Seq::empty())
                    == fixed_clocks(name@, keyed(clocks@), i as int, absent_ok, keyed(fixed@)),
            decreases clocks@.len() - i,
        {
            let (key, clock) = clocks[i];
            proof {
                assert(keyed(clocks@)[i as int] == (key@, clock));
            }
            match clock {
                Clock::Fixed(ticks) => {
                    let ghost before = fixed@;
                    fixed.push((key, ticks));
                    proof {
                        assert(keyed(fixed@) =~= keyed(before).push((key@, ticks)));
                    }
                },
                Clock::Event => {
                    proof {
                        reveal_strlit(": ");
                        reveal_strlit(" is event-clocked; align accepts members with a fixed transport period and nothing else");
                    }
                    return Err(returns_message(name, ": ", key,
                        " is event-clocked; align accepts members with a fixed transport period and nothing else"));
                },
                Clock::Absent => {
                    if !absent_ok {
                        proof {
                            reveal_strlit(": ");
                            reveal_strlit(" names a voice the piece does not have");
                        }
                        return Err(returns_message(name, ": ", key, " names a voice the piece does not have"));
                    }
                },
            }
            i += 1;
        }
        lcm_ticks(name, fixed.as_slice())
    }
}

/// The lcm step is a common multiple of both of its arguments.
proof fn lemma_lcm_step_divides(acc: nat, t: nat)
    requires
        acc > 0,
        t > 0,
    ensures
        lcm_step(acc, t) % acc == 0,
        lcm_step(acc, t) % t == 0,
        lcm_step(acc, t) > 0,
{
    lemma_gcd_divides(acc, t);
    let g = gcd(acc, t);
    vstd::arithmetic::div_mod::lemma_fundamental_div_mod(acc as int, g as int);
    vstd::arithmetic::div_mod::lemma_fundamental_div_mod(t as int, g as int);
    let a = acc / g;
    let b = t / g;
    assert(acc == g * a) by (nonlinear_arith) requires acc == g * a + acc % g, acc % g == 0;
    assert(t == g * b) by (nonlinear_arith) requires t == g * b + t % g, t % g == 0;
    assert(a > 0) by (nonlinear_arith) requires acc == g * a, acc > 0, g > 0;
    assert(a * t == b * acc) by (nonlinear_arith) requires acc == g * a, t == g * b;
    vstd::arithmetic::div_mod::lemma_mod_multiples_basic(a as int, t as int);
    vstd::arithmetic::div_mod::lemma_mod_multiples_basic(b as int, acc as int);
    assert(a * t > 0) by (nonlinear_arith) requires a > 0, t > 0;
}

/// Divisibility passes along the fold: whatever divides `acc` divides the result.
proof fn lemma_lcm_from_multiple(group: Seq<char>, periods: Seq<(Seq<char>, u64)>, i: int, acc: nat, p: nat, x: nat)
    requires
        0 <= i,
        acc > 0,
        x > 0,
        acc % x == 0,
        lcm_from(group, periods, i, acc) == Ok::<nat, Seq<char>>(p),
    ensures
        p % x == 0,
        forall|j: int| i <= j < periods.len() ==> p % (#[trigger] periods[j]).1 as nat == 0,
    decreases periods.len() - i,
{
    if i < periods.len() {
        let t = periods[i].1 as nat;
        let next = lcm_step(acc, t);
        lemma_lcm_step_divides(acc, t);
        vstd::arithmetic::div_mod::lemma_mod_mod(next as int, acc as int, x as int);
        lemma_divides_trans(x, acc, next);
        lemma_lcm_from_multiple(group, periods, i + 1, next, p, x);
        lemma_lcm_from_multiple(group, periods, i + 1, next, p, t);
    }
}

proof fn lemma_divides_trans(x: nat, y: nat, z: nat)
    requires
        x > 0,
        y > 0,
        y % x == 0,
        z % y == 0,
    ensures
        z % x == 0,
{
    vstd::arithmetic::div_mod::lemma_fundamental_div_mod(y as int, x as int);
    vstd::arithmetic::div_mod::lemma_fundamental_div_mod(z as int, y as int);
    let a = y / x;
    let b = z / y;
    assert(z == x * (a * b)) by (nonlinear_arith)
        requires y == x * a + y % x, y % x == 0, z == y * b + z % y, z % y == 0;
    vstd::arithmetic::div_mod::lemma_mod_multiples_basic((a * b) as int, x as int);
    assert((a * b) * x == x * (a * b)) by (nonlinear_arith);
}

/// A folded period fits in `u64` ticks.
pub proof fn lemma_lcm_from_fits(group: Seq<char>, periods: Seq<(Seq<char>, u64)>, i: int, acc: nat)
    requires
        acc <= u64::MAX,
    ensures
        lcm_from(group, periods, i, acc) matches Ok(p) ==> p <= u64::MAX,
    decreases periods.len() - i,
{
    if 0 <= i < periods.len() {
        let t = periods[i].1 as nat;
        if t != 0 && lcm_step(acc, t) <= u64::MAX {
            lemma_lcm_from_fits(group, periods, i + 1, lcm_step(acc, t));
        }
    }
}

/// The members of a group line up at its period: every member's period divides it.
pub proof fn lemma_period_lines_up(group: Seq<char>, periods: Seq<(Seq<char>, u64)>, p: nat)
    requires
        lcm_from(group, periods, 0, 1) == Ok::<nat, Seq<char>>(p),
    ensures
        forall|j: int| 0 <= j < periods.len() ==> p % (#[trigger] periods[j]).1 as nat == 0,
{
    lemma_lcm_from_multiple(group, periods, 0, 1, p, 1);
}


/// One return of the router, as the piece's location reads it: its index, landing tick, the
/// scenes it left and reached, and whether it changed scene. The draw that chose it stays with
/// whoever rolled it.
#[derive(Clone, Debug, PartialEq)]
pub struct MoveRecord {
    pub index: u64,
    pub tick: u64,
    pub from: String,
    pub to: String,
    pub moved: bool,
}

/// The last of the first `n` returns that changed scene.
pub open spec fn last_move(log: Seq<MoveRecord>, n: int) -> Option<int>
    decreases n,
{
    if n <= 0 {
        None
    } else if log[n - 1].moved {
        Some(n - 1)
    } else {
        last_move(log, n - 1)
    }
}

/// Where the piece is at `tick`, given the returns so far and the router's `start` scene: the
/// scene the last elapsed return reached, and the run of it that the last real move opened.
pub open spec fn visit_of(start: Seq<char>, period: u64, tick: u64, log: Seq<MoveRecord>) -> (Seq<char>, u64, u64, u64, u64, Option<Seq<char>>) {
    let index = tick / period;
    let n = index as int;
    let scene = if n == 0 { start } else { log[n - 1].to@ };
    let m = last_move(log, n);
    let next = (index + 1) * period;
    (
        scene,
        index as u64,
        (index * period) as u64,
        match m { Some(j) => log[j].tick, None => 0 },
        if next > u64::MAX { u64::MAX } else { next as u64 },
        match m { Some(j) => Some(log[j].from@), None => None },
    )
}

pub open spec fn visit_view(v: Visit) -> (Seq<char>, u64, u64, u64, u64, Option<Seq<char>>) {
    (v.scene@, v.index, v.start_tick, v.entered_tick, v.next_tick, match v.from { Some(f) => Some(f@), None => None })
}

/// Where the piece is at `tick`, given a log that reaches that far.
pub fn locate(start: &str, period: u64, tick: u64, log: &Vec<MoveRecord>) -> (r: Visit)
    requires
        period > 0,
        log@.len() >= tick / period,
        tick / period < u64::MAX,
    ensures
        visit_view(r) == visit_of(start@, period, tick, log@),
{
    let index = tick / period;
    // The log holds at least `index` records, so `index` fits in a `usize`.
    let held = log.len();
    let n = index as usize;
    proof {
        assert(index <= held);
        assert(n == index);
    }
    let scene = if n == 0 { String::from_str(start) } else { log[n - 1].to.clone() };
    let mut j = n;
    let mut found: Option<usize> = None;
    while j > 0
        invariant
            j <= n,
            n <= log@.len(),
            found is None ==> last_move(log@, n as int) == last_move(log@, j as int),
            found matches Some(k) ==> last_move(log@, n as int) == Some(k as int) && k < n,
        decreases j,
    {
        if found.is_none() && log[j - 1].moved {
            found = Some(j - 1);
        }
        j -= 1;
    }
    proof {
        assert(index * period <= tick) by (nonlinear_arith)
            requires
                index == tick / period,
                period > 0;
    }
    let next = match (index + 1).checked_mul(period) {
        Some(v) => v,
        None => u64::MAX,
    };
    match found {
        Some(k) => Visit {
            scene,
            index,
            start_tick: index * period,
            entered_tick: log[k].tick,
            next_tick: next,
            from: Some(log[k].from.clone()),
        },
        None => Visit { scene, index, start_tick: index * period, entered_tick: 0, next_tick: next, from: None },
    }
}

/// A stay is not a move: the return after a stay finds the piece in the same run it was in,
/// entered at the same tick from the same scene, and a move opens a new run at its own tick.
pub proof fn lemma_stay_keeps_run(start: Seq<char>, period: u64, log: Seq<MoveRecord>, n: nat)
    requires
        period > 0,
        n < log.len(),
        (n + 1) * period <= u64::MAX,
    ensures
        !log[n as int].moved ==> {
            &&& visit_of(start, period, ((n + 1) * period) as u64, log).3 == visit_of(start, period, (n * period) as u64, log).3
            &&& visit_of(start, period, ((n + 1) * period) as u64, log).5 == visit_of(start, period, (n * period) as u64, log).5
        },
        log[n as int].moved ==> {
            &&& visit_of(start, period, ((n + 1) * period) as u64, log).3 == log[n as int].tick
            &&& visit_of(start, period, ((n + 1) * period) as u64, log).5 == Some(log[n as int].from@)
        },
{
    assert(((n + 1) * period) / (period as int) == n + 1) by (nonlinear_arith)
        requires
            period > 0;
    assert((n * period) / (period as int) == n) by (nonlinear_arith)
        requires
            period > 0;
    assert(n * period <= (n + 1) * period) by (nonlinear_arith);
}

} // verus!
