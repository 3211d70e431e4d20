//! Numeric velocity sequences: which value a read takes, and the rule that a carried index
//! keeps one index space wherever its Part plays.
use vstd::prelude::*;

use super::process::{Clock, Per};
use crate::text::{debug_str, quoted, same_text};

verus! {

/// The index a read at `position` takes from `len` values spread over `cycle_ticks`: per event,
/// the position itself wraps the values; per step, the value whose floored onset
/// `floor(i * cycle_ticks / len)` is the last at or before the position within the cycle.
pub open spec fn read_index_of(per: Per, len: nat, cycle_ticks: nat, position: nat) -> int {
    if per == Per::Event {
        (position % len) as int
    } else {
        let x: int = (((position % cycle_ticks) + 1) * len) as int;
        (x + cycle_ticks as int - 1) / (cycle_ticks as int) - 1
    }
}

proof fn lemma_step_index(len: nat, ct: nat, r: nat)
    requires
        len > 0,
        ct > 0,
        r < ct,
    ensures
        ({
            let i: int = (((r + 1) * len) as int + ct as int - 1) / (ct as int) - 1;
            &&& 0 <= i < len
            &&& (i * ct) / len as int <= r
            &&& r < ((i + 1) * ct) / len as int
        }),
{
    let x: int = ((r + 1) * len) as int;
    let q: int = (x + ct as int - 1) / (ct as int);
    let i: int = q - 1;
    assert(q * ct <= x + ct - 1 && x + ct - 1 < (q + 1) * ct) by (nonlinear_arith)
        requires
            q == (x + ct as int - 1) / (ct as int),
            ct > 0,
            x + ct - 1 >= 0;
    assert(x >= 1) by (nonlinear_arith)
        requires
            x == (r + 1) * len,
            len > 0;
    assert(x <= ct * len) by (nonlinear_arith)
        requires
            x == (r + 1) * len,
            r < ct,
            len > 0;
    assert(q >= 1) by (nonlinear_arith)
        requires
            q * ct <= x + ct - 1,
            x + ct - 1 < (q + 1) * ct,
            x >= 1,
            ct > 0;
    assert(q <= len) by (nonlinear_arith)
        requires
            q * ct <= x + ct - 1,
            x <= ct * len,
            ct > 0;
    // i * ct < x <= (i + 1) * ct
    assert(i * ct < x) by (nonlinear_arith)
        requires
            i == q - 1,
            q * ct <= x + ct - 1;
    assert(x <= (i + 1) * ct) by (nonlinear_arith)
        requires
            i == q - 1,
            x + ct - 1 < (q + 1) * ct;
    assert((i * ct) / len as int <= r) by (nonlinear_arith)
        requires
            i * ct < x,
            x == (r + 1) * len,
            len > 0,
            i >= 0;
    assert(r < ((i + 1) * ct) / len as int) by (nonlinear_arith)
        requires
            x <= (i + 1) * ct,
            x == (r + 1) * len,
            len > 0,
            i >= 0;
}

/// The index of the value a read at `position` takes.
pub fn read_index(per: Per, len: usize, cycle_ticks: u64, position: u64) -> (r: usize)
    requires
        len > 0,
        cycle_ticks > 0,
    ensures
        r == read_index_of(per, len as nat, cycle_ticks as nat, position as nat),
        r < len,
        per == Per::Step ==> (r * cycle_ticks) / (len as int) <= position % cycle_ticks
            < ((r + 1) * cycle_ticks) / (len as int),
{
    if per == Per::Event {
        return (position % (len as u64)) as usize;
    }
    let r = position % cycle_ticks;
    proof {
        lemma_step_index(len as nat, cycle_ticks as nat, r as nat);
        assert((r as u128 + 1) * (len as u128) <= (cycle_ticks as u128) * (len as u128)) by (nonlinear_arith)
            requires
                r < cycle_ticks;
        assert((cycle_ticks as u128) * (len as u128) <= 0xffff_ffff_ffff_ffff * 0xffff_ffff_ffff_ffff) by (nonlinear_arith)
            requires
                cycle_ticks <= 0xffff_ffff_ffff_ffffu64,
                len <= 0xffff_ffff_ffff_ffffu64;
    }
    let x: u128 = ((r as u128) + 1) * (len as u128);
    let q: u128 = (x + (cycle_ticks as u128) - 1) / (cycle_ticks as u128);
    (q - 1) as usize
}

/// A velocity lane as the carry rule sees it: whether it carries its index, how many values it
/// has, and the clock it advances on.
#[derive(Clone, Copy, Debug, PartialEq, Eq, Structural)]
pub struct VelocityShape {
    pub carries: bool,
    pub len: usize,
    pub clock: Clock,
}

/// A Part in one scene or section: its id and its velocity lane, if it has one.
pub struct CarriedPart {
    pub id: String,
    pub velocity: Option<VelocityShape>,
}

pub open spec fn first_with(parts: Seq<CarriedPart>, id: Seq<char>, n: int) -> Option<int>
    decreases n,
{
    if n <= 0 {
        None
    } else {
        match first_with(parts, id, n - 1) {
            Some(i) => Some(i),
            None => if parts[n - 1].id@ == id { Some(n - 1) } else { None },
        }
    }
}

/// The Part a snapshot plays under `id`: its first with that id.
pub open spec fn part_with(parts: Seq<CarriedPart>, id: Seq<char>) -> Option<int> {
    first_with(parts, id, parts.len() as int)
}

/// `other` keeps the index space of a carried lane `owner`: it carries too, with as many values
/// and the same clock.
pub open spec fn keeps(owner: VelocityShape, other: Option<VelocityShape>) -> bool {
    other matches Some(v) && v.carries && v.len == owner.len && v.clock == owner.clock
}

/// Part `i` of snapshot `s` either carries no velocity, or every snapshot that plays its id
/// keeps the carried index space.
pub open spec fn carry_holds(snaps: Seq<Seq<CarriedPart>>, s: int, i: int) -> bool {
    match snaps[s][i].velocity {
        Some(v) => v.carries ==> forall|t: int| 0 <= t < snaps.len() ==>
            (#[trigger] part_with(snaps[t], snaps[s][i].id@) matches Some(j) ==> keeps(v, snaps[t][j].velocity)),
        None => true,
    }
}

pub open spec fn owner_before(s: int, i: int, t: int, j: int) -> bool {
    s < t || (s == t && i < j)
}

pub open spec fn carry_message(id: Seq<char>) -> Seq<char> {
    "Part "@ + debug_str(id)
        + ": carried velocity requires the same value count and clock in every active scene/section; absent Parts freeze"@
}

pub open spec fn snapshots_view(v: Seq<Vec<CarriedPart>>) -> Seq<Seq<CarriedPart>> {
    Seq::new(v.len(), |s: int| v[s]@)
}

fn part_index(parts: &Vec<CarriedPart>, id: &str) -> (r: Option<usize>)
    ensures
        r matches Some(j) ==> part_with(parts@, id@) == Some(j as int) && j < parts@.len(),
        r is None ==> part_with(parts@, id@) is None,
{
    let mut i: usize = 0;
    while i < parts.len()
        invariant
            i <= parts@.len(),
            first_with(parts@, id@, i as int) is None,
        decreases parts@.len() - i,
    {
        if same_text(parts[i].id.as_str(), id) {
            proof {
                assert(first_with(parts@, id@, i + 1) == Some(i as int));
                lemma_first_stays(parts@, id@, i + 1, parts@.len() as int);
            }
            return Some(i);
        }
        i += 1;
    }
    None
}

proof fn lemma_first_stays(parts: Seq<CarriedPart>, id: Seq<char>, n: int, m: int)
    requires
        n <= m,
        first_with(parts, id, n) is Some,
    ensures
        first_with(parts, id, m) == first_with(parts, id, n),
    decreases m - n,
{
    if n < m {
        lemma_first_stays(parts, id, n, m - 1);
    }
}

/// A carried velocity index belongs to the Part's id: in every scene or section that plays the
/// id, its velocity must carry too, with the same value count and clock. Absent Parts freeze the
/// index. The first Part that breaks the rule, in snapshot order, is named.
pub fn validate_carry(snapshots: &Vec<Vec<CarriedPart>>) -> (r: Result<(), String>)
    ensures
        r is Ok <==> forall|s: int, i: int| 0 <= s < snapshots@.len() && 0 <= i < snapshots@[s]@.len()
            ==> #[trigger] carry_holds(snapshots_view(snapshots@), s, i),
        r matches Err(e) ==> exists|s: int, i: int| 0 <= s < snapshots@.len() && 0 <= i < snapshots@[s]@.len()
            && !#[trigger] carry_holds(snapshots_view(snapshots@), s, i)
            && (forall|t: int, j: int| 0 <= t < snapshots@.len() && 0 <= j < snapshots@[t]@.len() && owner_before(t, j, s, i)
                ==> #[trigger] carry_holds(snapshots_view(snapshots@), t, j))
            && e@ == carry_message(snapshots@[s]@[i].id@),
{
    let ghost g = snapshots_view(snapshots@);
    let mut s: usize = 0;
    while s < snapshots.len()
        invariant
            g == snapshots_view(snapshots@),
            s <= snapshots@.len(),
            forall|t: int, j: int| 0 <= t < s && 0 <= j < snapshots@[t]@.len() ==> #[trigger] carry_holds(g, t, j),
        decreases snapshots@.len() - s,
    {
        let parts = &snapshots[s];
        let mut i: usize = 0;
        while i < parts.len()
            invariant
                g == snapshots_view(snapshots@),
                s < snapshots@.len(),
                parts@ == snapshots@[s as int]@,
                i <= parts@.len(),
                forall|t: int, j: int| 0 <= t < s && 0 <= j < snapshots@[t]@.len() ==> #[trigger] carry_holds(g, t, j),
                forall|j: int| 0 <= j < i ==> #[trigger] carry_holds(g, s as int, j),
            decreases parts@.len() - i,
        {
            let owner = &parts[i];
            proof {
                assert(g[s as int][i as int] == owner);
            }
            match owner.velocity {
                Some(v) if v.carries => {
                    let mut t: usize = 0;
                    while t < snapshots.len()
                        invariant
                            g == snapshots_view(snapshots@),
                            s < snapshots@.len(),
                            parts@ == snapshots@[s as int]@,
                            i < parts@.len(),
                            owner == parts@[i as int],
                            owner.velocity == Some(v),
                            v.carries,
                            g[s as int][i as int] == owner,
                            forall|t2: int, j2: int| 0 <= t2 < s && 0 <= j2 < snapshots@[t2]@.len() ==> #[trigger] carry_holds(g, t2, j2),
                            forall|j2: int| 0 <= j2 < i ==> #[trigger] carry_holds(g, s as int, j2),
                            t <= snapshots@.len(),
                            forall|u: int| 0 <= u < t ==> (#[trigger] part_with(g[u], owner.id@) matches Some(j)
                                ==> keeps(v, g[u][j].velocity)),
                        decreases snapshots@.len() - t,
                    {
                        proof {
                            assert(g[t as int] == snapshots@[t as int]@);
                        }
                        match part_index(&snapshots[t], owner.id.as_str()) {
                            None => {},
                            Some(j) => {
                                let other = snapshots[t][j].velocity;
                                let fine = match other {
                                    Some(w) => w.carries && w.len == v.len && w.clock == v.clock,
                                    None => false,
                                };
                                if !fine {
                                    let mut m = String::from_str("Part ");
                                    let q = quoted(owner.id.as_str());
                                    m.append(q.as_str());
                                    m.append(": carried velocity requires the same value count and clock in every active scene/section; absent Parts freeze");
                                    proof {
                                        reveal_strlit("Part ");
                                        reveal_strlit(": carried velocity requires the same value count and clock in every active scene/section; absent Parts freeze");
                                        assert(m@ =~= carry_message(owner.id@));
                                        assert(!keeps(v, g[t as int][j as int].velocity));
                                        assert(part_with(g[t as int], g[s as int][i as int].id@) == Some(j as int));
                                        assert(!carry_holds(g, s as int, i as int));
                                        assert forall|t2: int, j2: int| 0 <= t2 < snapshots@.len() && 0 <= j2 < snapshots@[t2]@.len()
                                            && owner_before(t2, j2, s as int, i as int) implies #[trigger] carry_holds(g, t2, j2) by {
                                            if t2 == s {
                                                assert(carry_holds(g, s as int, j2));
                                            }
                                        }
                                    }
                                    return Err(m);
                                }
                            },
                        }
                        t += 1;
                    }
                    proof {
                        assert(carry_holds(g, s as int, i as int));
                    }
                },
                _ => {},
            }
            i += 1;
        }
        s += 1;
    }
    Ok(())
}

} // verus!
