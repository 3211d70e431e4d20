//! The router's load check: a router is clocked by a return group on the sixteenth grid; its
//! scenes are named, distinct, plain compositions at the piece's tempo that keep every member's
//! period; and every scene has exactly the row it leaves by. Checks on real-valued settings
//! (tempo, row weights) are made by whoever holds those values; their outcomes come in as
//! plain results and keep their place in the order.
use vstd::prelude::*;

use super::members::{lemma_resolved_len, member_clocks, resolved_clocks, ClockScope};
use super::router::{fixed_clocks, keyed, lcm_from, lemma_lcm_from_fits, Clock, ReturnGroup};
use crate::authoring::library::joined;
use crate::text::{blank, debug_str, decimal, is_blank, push_decimal, quoted, same_text};

verus! {

/// A scene as the router's check sees it: its name, whether its composition carries an
/// arrangement or a router, whether it plays at the piece's tempo, whether it declares return
/// groups, what its composition's own check reported, and what its member keys can read.
pub struct SceneCheck {
    pub name: String,
    pub nested: bool,
    pub same_tempo: bool,
    pub has_returns: bool,
    pub composition: Result<(), String>,
    pub clocks: ClockScope,
}

/// A row of the routes: the scene it leaves, and what the check of its weights reported.
pub struct RowCheck {
    pub scene: String,
    pub weights: Result<(), String>,
}

/// A router as its check sees it.
pub struct RouterCheck {
    /// `every = { bars }` was written.
    pub every_bars: bool,
    /// `every = { returns = "<group>" }`.
    pub every_returns: Option<String>,
    pub start: String,
    pub scenes: Vec<SceneCheck>,
    pub rows: Vec<RowCheck>,
}

/// The piece's return groups by name, and what member keys read in the piece itself.
pub struct PieceReturns {
    pub groups: Vec<(String, ReturnGroup)>,
    pub clocks: ClockScope,
}

pub open spec fn first_group(groups: Seq<(String, ReturnGroup)>, name: Seq<char>, n: int) -> Option<int>
    decreases n,
{
    if n <= 0 {
        None
    } else {
        match first_group(groups, name, n - 1) {
            Some(k) => Some(k),
            None => if groups[n - 1].0@ == name { Some(n - 1) } else { None },
        }
    }
}

/// A group's period in a composition whose member keys read `s`.
pub open spec fn group_period_of(s: ClockScope, name: Seq<char>, members: Seq<String>) -> Result<nat, Seq<char>> {
    match resolved_clocks(s, name, members, members.len() as int) {
        Err(m) => Err(m),
        Ok(cs) => match fixed_clocks(name, member_clocks(members, cs), 0, false, Seq::empty()) {
            Err(m) => Err(m),
            Ok(fixed) => lcm_from(name, fixed, 0, 1),
        },
    }
}

/// The router's period: that of the group it is clocked by.
pub open spec fn router_period_of(group: Option<String>, piece: PieceReturns) -> Result<nat, Seq<char>> {
    match group {
        None => Err("router.every needs { returns = \"<group>\" }; a router clocked in bars is M2"@),
        Some(name) => match first_group(piece.groups@, name@, piece.groups@.len() as int) {
            None => Err("router.every.returns = "@ + debug_str(name@) + ": no [returns."@ + name@ + "]"@),
            Some(k) => group_period_of(piece.clocks, name@, piece.groups@[k].1.members@),
        },
    }
}

pub open spec fn scene_names(scenes: Seq<SceneCheck>) -> Seq<Seq<char>> {
    Seq::new(scenes.len(), |i: int| scenes[i].name@)
}

/// Scene name `i` is blank, the weight word `rest`, or an earlier name again.
pub open spec fn bad_name(names: Seq<Seq<char>>, i: int) -> bool {
    blank(names[i]) || names[i] == "rest"@ || exists|j: int| 0 <= j < i && #[trigger] names[j] == names[i]
}

pub open spec fn first_bad_name(names: Seq<Seq<char>>, n: int) -> Option<int>
    decreases n,
{
    if n <= 0 {
        None
    } else {
        match first_bad_name(names, n - 1) {
            Some(i) => Some(i),
            None => if bad_name(names, n - 1) { Some(n - 1) } else { None },
        }
    }
}

/// Member `j` of a group keeps its period in a scene, or the refusal that names it.
pub open spec fn member_kept(scene: Seq<char>, group: Seq<char>, key: Seq<char>, base: Clock, here: Clock) -> Result<(), Seq<char>> {
    match (base, here) {
        (Clock::Fixed(a), Clock::Fixed(b)) => if a != b {
            Err("scene "@ + debug_str(scene) + " changes the period of returns."@ + group + " member "@ + key + " from "@
                + decimal(a as nat) + " to "@ + decimal(b as nat) + " ticks; a return group's period is the piece's, in every scene"@)
        } else {
            Ok(())
        },
        (_, Clock::Event) => Err("scene "@ + debug_str(scene) + ": returns."@ + group + " member "@ + key + " is event-clocked there"@),
        _ => Ok(()),
    }
}

/// The first of the first `n` members that a scene does not keep.
pub open spec fn members_kept(scene: Seq<char>, group: Seq<char>, members: Seq<String>, base: Seq<Clock>, here: Seq<Clock>, n: int) -> Result<(), Seq<char>>
    decreases n,
{
    if n <= 0 {
        Ok(())
    } else {
        match members_kept(scene, group, members, base, here, n - 1) {
            Err(e) => Err(e),
            Ok(()) => member_kept(scene, group, members[n - 1]@, base[n - 1], here[n - 1]),
        }
    }
}

/// One scene's check against the group `group` with members `members`, whose clocks in the
/// piece are `base`.
pub open spec fn scene_ok(s: SceneCheck, group: Seq<char>, members: Seq<String>, base: Seq<Clock>) -> Result<(), Seq<char>> {
    let who = "scene "@ + debug_str(s.name@);
    if s.nested {
        Err(who + ": a scene cannot carry an arrangement or a router"@)
    } else if !s.same_tempo {
        Err(who + ": every scene plays at the piece's tempo"@)
    } else if s.has_returns {
        Err(who + ": return groups belong to the piece, not to a scene"@)
    } else if s.composition is Err {
        Err(who + ": "@ + s.composition->Err_0@)
    } else {
        match resolved_clocks(s.clocks, group, members, members.len() as int) {
            Err(m) => Err(m),
            Ok(here) => match members_kept(s.name@, group, members, base, here, members.len() as int) {
                Err(m) => Err(m),
                Ok(()) => match fixed_clocks(group, member_clocks(members, here), 0, true, Seq::empty()) {
                    Err(m) => Err(m),
                    Ok(fixed) => match lcm_from(group, fixed, 0, 1) {
                        Err(m) => Err(m),
                        Ok(_) => Ok(()),
                    },
                },
            },
        }
    }
}

pub open spec fn scenes_ok(scenes: Seq<SceneCheck>, group: Seq<char>, members: Seq<String>, base: Seq<Clock>, n: int) -> Result<(), Seq<char>>
    decreases n,
{
    if n <= 0 {
        Ok(())
    } else {
        match scenes_ok(scenes, group, members, base, n - 1) {
            Err(e) => Err(e),
            Ok(()) => scene_ok(scenes[n - 1], group, members, base),
        }
    }
}

/// The first of the first `n` rows whose scene is not a scene.
pub open spec fn first_stray_row(rows: Seq<RowCheck>, names: Seq<Seq<char>>, n: int) -> Option<int>
    decreases n,
{
    if n <= 0 {
        None
    } else {
        match first_stray_row(rows, names, n - 1) {
            Some(i) => Some(i),
            None => if !names.contains(rows[n - 1].scene@) { Some(n - 1) } else { None },
        }
    }
}

pub open spec fn first_row(rows: Seq<RowCheck>, name: Seq<char>, n: int) -> Option<int>
    decreases n,
{
    if n <= 0 {
        None
    } else {
        match first_row(rows, name, n - 1) {
            Some(k) => Some(k),
            None => if rows[n - 1].scene@ == name { Some(n - 1) } else { None },
        }
    }
}

/// Scenes `0..n` each have a row whose weights check passed, or the first that does not.
pub open spec fn rows_ok(rows: Seq<RowCheck>, names: Seq<Seq<char>>, n: int) -> Result<(), Seq<char>>
    decreases n,
{
    if n <= 0 {
        Ok(())
    } else {
        match rows_ok(rows, names, n - 1) {
            Err(e) => Err(e),
            Ok(()) => match first_row(rows, names[n - 1], rows.len() as int) {
                None => Err("router.routes has no row for scene "@ + debug_str(names[n - 1])
                    + "; a room with no row has no door, not even to itself"@),
                Some(k) => match rows[k].weights {
                    Err(e) => Err(e@),
                    Ok(()) => Ok(()),
                },
            },
        }
    }
}

/// The router's check, in order.
pub open spec fn router_check(r: RouterCheck, piece: PieceReturns) -> Result<(), Seq<char>> {
    let names = scene_names(r.scenes@);
    if r.every_bars {
        Err("router.every = { bars } is M2 (decide and the promise); this router is clocked by a return group"@)
    } else {
        match router_period_of(r.every_returns, piece) {
            Err(m) => Err(m),
            Ok(period) => if period % 240 != 0 {
                Err("router: the return group's period is "@ + decimal(period) + " ticks, which is not on the sixteenth grid; the router changes scene on that grid"@)
            } else if r.scenes@.len() == 0 || r.scenes@.len() > 64 {
                Err("router requires 1..64 scenes"@)
            } else {
                match first_bad_name(names, names.len() as int) {
                    Some(i) => Err("router: scene names must be nonempty and distinct, and \"rest\" is a weight word, not a scene: "@
                        + debug_str(names[i])),
                    None => if !names.contains(r.start@) {
                        Err("start = "@ + debug_str(r.start@) + " is not a scene; the router has "@ + joined(names, ", "@))
                    } else {
                        let group = r.every_returns->Some_0@;
                        let k = first_group(piece.groups@, group, piece.groups@.len() as int)->Some_0;
                        let members = piece.groups@[k].1.members@;
                        let base = resolved_clocks(piece.clocks, group, members, members.len() as int)->Ok_0;
                        match scenes_ok(r.scenes@, group, members, base, r.scenes@.len() as int) {
                            Err(m) => Err(m),
                            Ok(()) => match first_stray_row(r.rows@, names, r.rows@.len() as int) {
                                Some(i) => Err("router.routes."@ + r.rows@[i].scene@ + ": not a scene; a row is keyed by the scene it leaves"@),
                                None => rows_ok(r.rows@, names, names.len() as int),
                            },
                        }
                    },
                }
            },
        }
    }
}

proof fn lemma_first_group_stays(groups: Seq<(String, ReturnGroup)>, name: Seq<char>, n: int, m: int)
    requires
        n <= m,
        first_group(groups, name, n) is Some,
    ensures
        first_group(groups, name, m) == first_group(groups, name, n),
    decreases m - n,
{
    if n < m {
        lemma_first_group_stays(groups, name, n, m - 1);
    }
}

proof fn lemma_first_group_named(groups: Seq<(String, ReturnGroup)>, name: Seq<char>, n: int)
    requires
        n <= groups.len(),
    ensures
        first_group(groups, name, n) matches Some(k) ==> 0 <= k < n && groups[k].0@ == name,
    decreases n,
{
    if n > 0 {
        lemma_first_group_named(groups, name, n - 1);
    }
}

fn find_group(groups: &Vec<(String, ReturnGroup)>, name: &str) -> (r: Option<usize>)
    ensures
        r matches Some(k) ==> first_group(groups@, name@, groups@.len() as int) == Some(k as int) && k < groups@.len(),
        r is None ==> first_group(groups@, name@, groups@.len() as int) is None,
{
    let mut i: usize = 0;
    while i < groups.len()
        invariant
            i <= groups@.len(),
            first_group(groups@, name@, i as int) is None,
        decreases groups@.len() - i,
    {
        if same_text(groups[i].0.as_str(), name) {
            proof {
                lemma_first_group_stays(groups@, name@, i + 1, groups@.len() as int);
            }
            return Some(i);
        }
        i += 1;
    }
    None
}

/// The group that clocks a router, by its index among the piece's groups, and its period.
fn clock_group(group: &Option<String>, piece: &PieceReturns) -> (r: Result<(usize, u64), String>)
    ensures
        match router_period_of(*group, *piece) {
            Ok(p) => r matches Ok((k, q)) && q == p && group is Some
                && first_group(piece.groups@, group->Some_0@, piece.groups@.len() as int) == Some(k as int)
                && k < piece.groups@.len(),
            Err(m) => r matches Err(e) && e@ == m,
        },
{
    proof {
        reveal_strlit("router.every needs { returns = \"<group>\" }; a router clocked in bars is M2");
        reveal_strlit("router.every.returns = ");
        reveal_strlit(": no [returns.");
        reveal_strlit("]");
    }
    let name = match group {
        None => return Err(String::from_str("router.every needs { returns = \"<group>\" }; a router clocked in bars is M2")),
        Some(n) => n,
    };
    match find_group(&piece.groups, name.as_str()) {
        None => {
            let mut m = String::from_str("router.every.returns = ");
            let q = quoted(name.as_str());
            m.append(q.as_str());
            m.append(": no [returns.");
            m.append(name.as_str());
            m.append("]");
            proof {
                assert(m@ =~= "router.every.returns = "@ + debug_str(name@) + ": no [returns."@ + name@ + "]"@);
            }
            Err(m)
        },
        Some(k) => {
            proof {
                let members = piece.groups@[k as int].1.members@;
                if let Ok(cs) = resolved_clocks(piece.clocks, name@, members, members.len() as int) {
                    if let Ok(fixed) = fixed_clocks(name@, member_clocks(members, cs), 0, false, Seq::empty()) {
                        lemma_lcm_from_fits(name@, fixed, 0, 1);
                    }
                }
            }
            match piece.groups[k].1.period_ticks(&piece.clocks, name.as_str()) {
                Err(e) => Err(e),
                Ok(p) => Ok((k, p)),
            }
        },
    }
}

/// The period of the return group that clocks a router.
pub fn router_period(group: &Option<String>, piece: &PieceReturns) -> (r: Result<u64, String>)
    ensures
        match router_period_of(*group, *piece) {
            Ok(p) => r == Ok::<u64, String>(p as u64),
            Err(m) => r matches Err(e) && e@ == m,
        },
{
    match clock_group(group, piece) {
        Err(e) => Err(e),
        Ok((_, p)) => Ok(p),
    }
}

fn scene_refusal(name: &str, tail: &str) -> (r: String)
    ensures
        r@ == "scene "@ + debug_str(name@) + tail@,
{
    proof {
        reveal_strlit("scene ");
    }
    let mut m = String::from_str("scene ");
    let q = quoted(name);
    m.append(q.as_str());
    m.append(tail);
    m
}

proof fn lemma_kept_refusal_stays(scene: Seq<char>, group: Seq<char>, members: Seq<String>, base: Seq<Clock>, here: Seq<Clock>, n: int, m: int)
    requires
        n <= m,
        members_kept(scene, group, members, base, here, n) is Err,
    ensures
        members_kept(scene, group, members, base, here, m) == members_kept(scene, group, members, base, here, n),
    decreases m - n,
{
    if n < m {
        lemma_kept_refusal_stays(scene, group, members, base, here, n, m - 1);
    }
}

/// One scene's check.
#[verifier::loop_isolation(false)]
fn check_scene(s: &SceneCheck, group: &str, g: &ReturnGroup, base: &Vec<(&str, Clock)>, Ghost(bs): Ghost<Seq<Clock>>) -> (r: Result<(), String>)
    requires
        base@.len() == g.members@.len(),
        bs.len() == g.members@.len(),
        forall|i: int| 0 <= i < bs.len() ==> (#[trigger] base@[i]).1 == bs[i] && base@[i].0@ == g.members@[i]@,
    ensures
        match scene_ok(*s, group@, g.members@, bs) {
            Ok(()) => r is Ok,
            Err(m) => r matches Err(e) && e@ == m,
        },
{
    proof {
        reveal_strlit(": a scene cannot carry an arrangement or a router");
        reveal_strlit(": every scene plays at the piece's tempo");
        reveal_strlit(": return groups belong to the piece, not to a scene");
        reveal_strlit(": ");
        reveal_strlit(" changes the period of returns.");
        reveal_strlit(" member ");
        reveal_strlit(" from ");
        reveal_strlit(" to ");
        reveal_strlit(" ticks; a return group's period is the piece's, in every scene");
        reveal_strlit(": returns.");
        reveal_strlit(" is event-clocked there");
    }
    if s.nested {
        return Err(scene_refusal(s.name.as_str(), ": a scene cannot carry an arrangement or a router"));
    }
    if !s.same_tempo {
        return Err(scene_refusal(s.name.as_str(), ": every scene plays at the piece's tempo"));
    }
    if s.has_returns {
        return Err(scene_refusal(s.name.as_str(), ": return groups belong to the piece, not to a scene"));
    }
    match &s.composition {
        Err(e) => {
            let mut m = scene_refusal(s.name.as_str(), ": ");
            m.append(e.as_str());
            return Err(m);
        },
        Ok(()) => {},
    }
    let here = match g.resolve(&s.clocks, group) {
        Err(e) => return Err(e),
        Ok(h) => h,
    };
    let ghost hs = resolved_clocks(s.clocks, group@, g.members@, g.members@.len() as int)->Ok_0;
    proof {
        lemma_resolved_len(s.clocks, group@, g.members@, g.members@.len() as int);
    }
    let mut j: usize = 0;
    while j < base.len()
        invariant
            j <= base@.len(),
            base@.len() == g.members@.len(),
            here@.len() == hs.len(),
            hs.len() == g.members@.len(),
            bs.len() == g.members@.len(),
            forall|i: int| 0 <= i < bs.len() ==> (#[trigger] base@[i]).1 == bs[i] && base@[i].0@ == g.members@[i]@,
            forall|i: int| 0 <= i < hs.len() ==> (#[trigger] here@[i]).1 == hs[i],
            members_kept(s.name@, group@, g.members@, bs, hs, j as int) is Ok,
        decreases base@.len() - j,
    {
        let (key, root) = base[j];
        let now = here[j].1;
        proof {
            assert(base@[j as int].1 == bs[j as int]);
            assert(here@[j as int].1 == hs[j as int]);
        }
        match (root, now) {
            (Clock::Fixed(a), Clock::Fixed(b)) => {
                if a != b {
                    let mut m = scene_refusal(s.name.as_str(), " changes the period of returns.");
                    m.append(group);
                    m.append(" member ");
                    m.append(key);
                    m.append(" from ");
                    push_decimal(&mut m, a as u128);
                    m.append(" to ");
                    push_decimal(&mut m, b as u128);
                    m.append(" ticks; a return group's period is the piece's, in every scene");
                    proof {
                        assert(m@ =~= "scene "@ + debug_str(s.name@) + " changes the period of returns."@ + group@ + " member "@
                            + g.members@[j as int]@ + " from "@ + decimal(a as nat) + " to "@ + decimal(b as nat)
                            + " ticks; a return group's period is the piece's, in every scene"@);
                        lemma_kept_refusal_stays(s.name@, group@, g.members@, bs, hs, j + 1, g.members@.len() as int);
                    }
                    return Err(m);
                }
            },
            (_, Clock::Event) => {
                let mut m = scene_refusal(s.name.as_str(), ": returns.");
                m.append(group);
                m.append(" member ");
                m.append(key);
                m.append(" is event-clocked there");
                proof {
                    assert(m@ =~= "scene "@ + debug_str(s.name@) + ": returns."@ + group@ + " member "@ + g.members@[j as int]@
                        + " is event-clocked there"@);
                    lemma_kept_refusal_stays(s.name@, group@, g.members@, bs, hs, j + 1, g.members@.len() as int);
                }
                return Err(m);
            },
            _ => {},
        }
        j += 1;
    }
    proof {
        assert(keyed(here@) =~= member_clocks(g.members@, hs));
    }
    match ReturnGroup::period_from(group, here.as_slice(), true) {
        Err(e) => Err(e),
        Ok(_) => Ok(()),
    }
}

proof fn lemma_scenes_refusal_stays(scenes: Seq<SceneCheck>, group: Seq<char>, members: Seq<String>, base: Seq<Clock>, n: int, m: int)
    requires
        n <= m,
        scenes_ok(scenes, group, members, base, n) is Err,
    ensures
        scenes_ok(scenes, group, members, base, m) == scenes_ok(scenes, group, members, base, n),
    decreases m - n,
{
    if n < m {
        lemma_scenes_refusal_stays(scenes, group, members, base, n, m - 1);
    }
}

proof fn lemma_rows_refusal_stays(rows: Seq<RowCheck>, names: Seq<Seq<char>>, n: int, m: int)
    requires
        n <= m,
        rows_ok(rows, names, n) is Err,
    ensures
        rows_ok(rows, names, m) == rows_ok(rows, names, n),
    decreases m - n,
{
    if n < m {
        lemma_rows_refusal_stays(rows, names, n, m - 1);
    }
}

proof fn lemma_first_row_stays(rows: Seq<RowCheck>, name: Seq<char>, n: int, m: int)
    requires
        n <= m,
        first_row(rows, name, n) is Some,
    ensures
        first_row(rows, name, m) == first_row(rows, name, n),
    decreases m - n,
{
    if n < m {
        lemma_first_row_stays(rows, name, n, m - 1);
    }
}

proof fn lemma_stray_stays(rows: Seq<RowCheck>, names: Seq<Seq<char>>, n: int, m: int)
    requires
        n <= m,
        first_stray_row(rows, names, n) is Some,
    ensures
        first_stray_row(rows, names, m) == first_stray_row(rows, names, n),
    decreases m - n,
{
    if n < m {
        lemma_stray_stays(rows, names, n, m - 1);
    }
}

proof fn lemma_bad_name_stays(names: Seq<Seq<char>>, n: int, m: int)
    requires
        n <= m,
        first_bad_name(names, n) is Some,
    ensures
        first_bad_name(names, m) == first_bad_name(names, n),
    decreases m - n,
{
    if n < m {
        lemma_bad_name_stays(names, n, m - 1);
    }
}

fn contains_name(scenes: &Vec<SceneCheck>, name: &str) -> (r: bool)
    ensures
        r == scene_names(scenes@).contains(name@),
{
    let ghost names = scene_names(scenes@);
    let mut i: usize = 0;
    while i < scenes.len()
        invariant
            names == scene_names(scenes@),
            i <= scenes@.len(),
            forall|j: int| 0 <= j < i ==> names[j] != name@,
        decreases scenes@.len() - i,
    {
        if same_text(scenes[i].name.as_str(), name) {
            proof {
                assert(names[i as int] == name@);
            }
            return true;
        }
        i += 1;
    }
    false
}

/// A router's load check, in order: its clock, its period on the sixteenth grid, its scenes'
/// count, names and start, each scene against the piece's return group, and its rows.
#[verifier::loop_isolation(false)]
pub fn validate_router(r: &RouterCheck, piece: &PieceReturns) -> (res: Result<(), String>)
    ensures
        match router_check(*r, *piece) {
            Ok(()) => res is Ok,
            Err(m) => res matches Err(e) && e@ == m,
        },
{
    proof {
        reveal_strlit("router.every = { bars } is M2 (decide and the promise); this router is clocked by a return group");
        reveal_strlit("router: the return group's period is ");
        reveal_strlit(" ticks, which is not on the sixteenth grid; the router changes scene on that grid");
        reveal_strlit("router requires 1..64 scenes");
        reveal_strlit("rest");
        reveal_strlit("router: scene names must be nonempty and distinct, and \"rest\" is a weight word, not a scene: ");
        reveal_strlit("start = ");
        reveal_strlit(" is not a scene; the router has ");
        reveal_strlit(", ");
        reveal_strlit("router.routes.");
        reveal_strlit(": not a scene; a row is keyed by the scene it leaves");
        reveal_strlit("router.routes has no row for scene ");
        reveal_strlit("; a room with no row has no door, not even to itself");
    }
    let ghost names = scene_names(r.scenes@);
    if r.every_bars {
        return Err(String::from_str("router.every = { bars } is M2 (decide and the promise); this router is clocked by a return group"));
    }
    let (gk, period) = match clock_group(&r.every_returns, piece) {
        Err(e) => return Err(e),
        Ok(found) => found,
    };
    if period % 240 != 0 {
        let mut m = String::from_str("router: the return group's period is ");
        push_decimal(&mut m, period as u128);
        m.append(" ticks, which is not on the sixteenth grid; the router changes scene on that grid");
        proof {
            assert(m@ =~= "router: the return group's period is "@ + decimal(period as nat)
                + " ticks, which is not on the sixteenth grid; the router changes scene on that grid"@);
        }
        return Err(m);
    }
    if r.scenes.len() == 0 || r.scenes.len() > 64 {
        return Err(String::from_str("router requires 1..64 scenes"));
    }
    let mut i: usize = 0;
    while i < r.scenes.len()
        invariant
            names == scene_names(r.scenes@),
            i <= r.scenes@.len(),
            first_bad_name(names, i as int) is None,
        decreases r.scenes@.len() - i,
    {
        let name = r.scenes[i].name.as_str();
        let mut dup = false;
        let mut j: usize = 0;
        while j < i
            invariant
                names == scene_names(r.scenes@),
                j <= i < r.scenes@.len(),
                name@ == names[i as int],
                dup == exists|x: int| 0 <= x < j && #[trigger] names[x] == names[i as int],
            decreases i - j,
        {
            if same_text(r.scenes[j].name.as_str(), name) {
                dup = true;
            }
            proof {
                assert(names[j as int] == r.scenes@[j as int].name@);
            }
            j += 1;
        }
        if is_blank(name) || same_text(name, "rest") || dup {
            let mut m = String::from_str("router: scene names must be nonempty and distinct, and \"rest\" is a weight word, not a scene: ");
            let q = quoted(name);
            m.append(q.as_str());
            proof {
                assert(bad_name(names, i as int));
                assert(first_bad_name(names, i + 1) == Some(i as int));
                lemma_bad_name_stays(names, i + 1, names.len() as int);
                assert(m@ =~= "router: scene names must be nonempty and distinct, and \"rest\" is a weight word, not a scene: "@
                    + debug_str(names[i as int]));
            }
            return Err(m);
        }
        i += 1;
    }
    if !contains_name(&r.scenes, r.start.as_str()) {
        let mut m = String::from_str("start = ");
        let q = quoted(r.start.as_str());
        m.append(q.as_str());
        m.append(" is not a scene; the router has ");
        let mut k: usize = 0;
        while k < r.scenes.len()
            invariant
                names == scene_names(r.scenes@),
                k <= r.scenes@.len(),
                m@ == "start = "@ + debug_str(r.start@) + " is not a scene; the router has "@ + joined(names.take(k as int), ", "@),
            decreases r.scenes@.len() - k,
        {
            if k > 0 {
                m.append(", ");
            }
            m.append(r.scenes[k].name.as_str());
            proof {
                assert(names.take(k + 1).drop_last() =~= names.take(k as int));
                if k == 0 {
                    assert(joined(names.take(0), ", "@) =~= Seq::<char>::empty());
                }
            }
            k += 1;
        }
        proof {
            assert(names.take(names.len() as int) =~= names);
        }
        return Err(m);
    }
    let group = piece.groups[gk].0.as_str();
    let g = &piece.groups[gk].1;
    proof {
        lemma_first_group_named(piece.groups@, r.every_returns->Some_0@, piece.groups@.len() as int);
    }
    let base = match g.resolve(&piece.clocks, group) {
        Ok(b) => b,
        Err(e) => return Err(e),
    };
    let ghost bs = resolved_clocks(piece.clocks, group@, g.members@, g.members@.len() as int)->Ok_0;
    proof {
        lemma_resolved_len(piece.clocks, group@, g.members@, g.members@.len() as int);
    }
    let mut s: usize = 0;
    while s < r.scenes.len()
        invariant
            s <= r.scenes@.len(),
            base@.len() == g.members@.len(),
            bs.len() == g.members@.len(),
            forall|x: int| 0 <= x < bs.len() ==> (#[trigger] base@[x]).1 == bs[x] && base@[x].0@ == g.members@[x]@,
            scenes_ok(r.scenes@, group@, g.members@, bs, s as int) is Ok,
        decreases r.scenes@.len() - s,
    {
        match check_scene(&r.scenes[s], group, g, &base, Ghost(bs)) {
            Err(e) => {
                proof {
                    lemma_scenes_refusal_stays(r.scenes@, group@, g.members@, bs, s + 1, r.scenes@.len() as int);
                }
                return Err(e);
            },
            Ok(()) => {},
        }
        s += 1;
    }
    let mut w: usize = 0;
    while w < r.rows.len()
        invariant
            names == scene_names(r.scenes@),
            w <= r.rows@.len(),
            first_stray_row(r.rows@, names, w as int) is None,
        decreases r.rows@.len() - w,
    {
        if !contains_name(&r.scenes, r.rows[w].scene.as_str()) {
            let mut m = String::from_str("router.routes.");
            m.append(r.rows[w].scene.as_str());
            m.append(": not a scene; a row is keyed by the scene it leaves");
            proof {
                assert(first_stray_row(r.rows@, names, w + 1) == Some(w as int));
                lemma_stray_stays(r.rows@, names, w + 1, r.rows@.len() as int);
                assert(m@ =~= "router.routes."@ + r.rows@[w as int].scene@ + ": not a scene; a row is keyed by the scene it leaves"@);
            }
            return Err(m);
        }
        w += 1;
    }
    let mut n: usize = 0;
    while n < r.scenes.len()
        invariant
            names == scene_names(r.scenes@),
            n <= r.scenes@.len(),
            rows_ok(r.rows@, names, n as int) is Ok,
        decreases r.scenes@.len() - n,
    {
        let name = r.scenes[n].name.as_str();
        proof {
            assert(name@ == names[n as int]);
        }
        let mut found: Option<usize> = None;
        let mut t: usize = 0;
        while t < r.rows.len()
            invariant
                t <= r.rows@.len(),
                found is None ==> first_row(r.rows@, name@, t as int) is None,
                found matches Some(x) ==> first_row(r.rows@, name@, t as int) == Some(x as int) && x < r.rows@.len(),
            decreases r.rows@.len() - t,
        {
            if found.is_none() && same_text(r.rows[t].scene.as_str(), name) {
                found = Some(t);
            }
            t += 1;
        }
        match found {
            None => {
                let mut m = String::from_str("router.routes has no row for scene ");
                let q = quoted(name);
                m.append(q.as_str());
                m.append("; a room with no row has no door, not even to itself");
                proof {
                    assert(m@ =~= "router.routes has no row for scene "@ + debug_str(names[n as int])
                        + "; a room with no row has no door, not even to itself"@);
                    lemma_rows_refusal_stays(r.rows@, names, n + 1, names.len() as int);
                }
                return Err(m);
            },
            Some(x) => match &r.rows[x].weights {
                Err(e) => {
                    proof {
                        lemma_rows_refusal_stays(r.rows@, names, n + 1, names.len() as int);
                    }
                    return Err(e.clone());
                },
                Ok(()) => {},
            },
        }
        n += 1;
    }
    Ok(())
}

} // verus!
