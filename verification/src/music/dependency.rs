//! The order in which a composition's Parts are evaluated: every Part after the Parts its
//! rhythms reference. A reference to a Part that does not exist, or a chain of references that
//! comes back to where it started, makes the composition invalid.
//!
//! Parts are addressed by id; where two Parts share an id the later one is the one a reference
//! reaches, and the earlier one takes no part in the order.
use vstd::prelude::*;

use super::rhythm::{references_of, Expression};
use crate::authoring::library::joined;
use crate::text::{debug_str, quoted, same_text};

verus! {

broadcast use vstd::seq_lib::group_seq_properties;

/// A Part as the evaluation order sees it: its id and the ids its rhythms reference, trigger
/// first, then accent.
pub struct Dependency {
    pub id: String,
    pub references: Vec<String>,
}

pub struct DependencyV {
    pub id: Seq<char>,
    pub references: Seq<Seq<char>>,
}

impl View for Dependency {
    type V = DependencyV;

    open spec fn view(&self) -> DependencyV {
        DependencyV {
            id: self.id@,
            references: Seq::new(self.references@.len(), |k: int| self.references@[k]@),
        }
    }
}

/// The Parts as values.
pub open spec fn graph(parts: Seq<Dependency>) -> Seq<DependencyV> {
    Seq::new(parts.len(), |i: int| parts[i]@)
}

/// The last of the first `n` Parts whose id is `id`.
pub open spec fn last_with(g: Seq<DependencyV>, id: Seq<char>, n: int) -> Option<int>
    decreases n,
{
    if n <= 0 {
        None
    } else if g[n - 1].id == id {
        Some(n - 1)
    } else {
        last_with(g, id, n - 1)
    }
}

/// The Part a reference to `id` reaches: the last Part with that id.
pub open spec fn resolve_id(g: Seq<DependencyV>, id: Seq<char>) -> Option<int> {
    last_with(g, id, g.len() as int)
}

/// Part `i` is the one its id reaches: no later Part has the same id.
pub open spec fn canonical(g: Seq<DependencyV>, i: int) -> bool {
    &&& 0 <= i < g.len()
    &&& forall|m: int| i < m < g.len() ==> #[trigger] g[m].id != g[i].id
}

/// Part `i` references Part `j`.
pub open spec fn edge(g: Seq<DependencyV>, i: int, j: int) -> bool {
    exists|k: int| 0 <= k < g[i].references.len() && #[trigger] resolve_id(g, g[i].references[k]) == Some(j)
}

/// Every index of `s` names a Part, and each references the next.
pub open spec fn is_path(g: Seq<DependencyV>, s: Seq<usize>) -> bool {
    &&& forall|t: int| 0 <= t < s.len() ==> #[trigger] s[t] < g.len()
    &&& forall|t: int| 0 <= t < s.len() - 1 ==> #[trigger] edge(g, s[t] as int, s[t + 1] as int)
}

/// Some chain of references comes back to the Part it started from.
pub open spec fn has_cycle(g: Seq<DependencyV>) -> bool {
    exists|s: Seq<usize>| s.len() >= 2 && is_path(g, s) && #[trigger] s[0] == s[s.len() - 1]
}

/// Some Part that a reference can reach references an id no Part has.
pub open spec fn missing(g: Seq<DependencyV>) -> bool {
    exists|i: int, k: int| canonical(g, i) && 0 <= k < g[i].references.len()
        && #[trigger] resolve_id(g, g[i].references[k]) is None
}

/// A path whose last Part already occurs earlier on it: a chain of references that runs into
/// a cycle.
pub open spec fn lasso(g: Seq<DependencyV>, s: Seq<usize>) -> bool {
    &&& s.len() >= 2
    &&& is_path(g, s)
    &&& exists|q: int| 0 <= q < s.len() - 1 && #[trigger] s[q] == s[s.len() - 1]
}

pub open spec fn ids_of(g: Seq<DependencyV>, s: Seq<usize>) -> Seq<Seq<char>> {
    Seq::new(s.len(), |t: int| g[s[t] as int].id)
}

pub open spec fn cycle_message(g: Seq<DependencyV>, s: Seq<usize>) -> Seq<char> {
    "Part dependency cycle: "@ + joined(ids_of(g, s), " -> "@)
}

pub open spec fn missing_message(id: Seq<char>, target: Seq<char>) -> Seq<char> {
    "Part "@ + debug_str(id) + " references missing Part "@ + debug_str(target)
}

/// `order` lists distinct Parts that references reach, and each after every Part it
/// references, all of which resolve.
pub open spec fn ordered(g: Seq<DependencyV>, order: Seq<usize>) -> bool {
    &&& order.no_duplicates()
    &&& forall|p: int| 0 <= p < order.len() ==> #[trigger] canonical(g, order[p] as int)
    &&& forall|p: int, k: int| 0 <= p < order.len() && 0 <= k < g[order[p] as int].references.len()
        ==> ((#[trigger] resolve_id(g, g[order[p] as int].references[k])) matches Some(t)
            && t >= 0 && order.take(p).contains(t as usize))
}

proof fn lemma_last_with(g: Seq<DependencyV>, id: Seq<char>, n: int)
    requires
        n <= g.len(),
    ensures
        last_with(g, id, n) matches Some(j) ==> 0 <= j < n && g[j].id == id
            && forall|m: int| j < m < n ==> #[trigger] g[m].id != id,
        last_with(g, id, n) is None ==> forall|m: int| 0 <= m < n ==> #[trigger] g[m].id != id,
    decreases n,
{
    if n > 0 {
        lemma_last_with(g, id, n - 1);
    }
}

/// What a reference reaches is canonical, and a canonical Part is what its id reaches.
pub proof fn lemma_resolve(g: Seq<DependencyV>, id: Seq<char>)
    ensures
        resolve_id(g, id) matches Some(j) ==> canonical(g, j) && g[j].id == id,
        resolve_id(g, id) is None ==> forall|m: int| 0 <= m < g.len() ==> #[trigger] g[m].id != id,
{
    lemma_last_with(g, id, g.len() as int);
}

proof fn lemma_canonical_resolves(g: Seq<DependencyV>, i: int)
    requires
        canonical(g, i),
    ensures
        resolve_id(g, g[i].id) == Some(i),
{
    lemma_last_with(g, g[i].id, g.len() as int);
    if let Some(j) = resolve_id(g, g[i].id) {
        if j < i {
            assert(g[i].id != g[i].id);
        } else if j > i {
            assert(g[j].id != g[i].id);
        }
    }
}

/// Along a path from the Part at `p0` in an ordered list, each Part stands earlier in the list.
proof fn lemma_path_descends(g: Seq<DependencyV>, order: Seq<usize>, s: Seq<usize>, p0: int)
    requires
        ordered(g, order),
        s.len() >= 1,
        is_path(g, s),
        0 <= p0 < order.len(),
        order[p0] == s[0],
    ensures
        exists|q: int| 0 <= q <= p0 - (s.len() - 1) && #[trigger] order[q] == s[s.len() - 1],
    decreases s.len(),
{
    if s.len() == 1 {
        assert(order[p0] == s[s.len() - 1]);
    } else {
        let s1 = s.drop_last();
        assert(is_path(g, s1)) by {
            assert forall|t: int| 0 <= t < s1.len() - 1 implies #[trigger] edge(g, s1[t] as int, s1[t + 1] as int) by {
                assert(edge(g, s[t] as int, s[t + 1] as int));
            }
        }
        lemma_path_descends(g, order, s1, p0);
        let q1 = choose|q: int| 0 <= q <= p0 - (s1.len() - 1) && #[trigger] order[q] == s1[s1.len() - 1];
        let t = s.len() - 2;
        let a = s[t];
        let b = s[s.len() - 1];
        assert(edge(g, s[t] as int, s[t + 1] as int));
        assert(s[t + 1] == b);
        let k = choose|k: int| 0 <= k < g[a as int].references.len() && #[trigger] resolve_id(g, g[a as int].references[k]) == Some(b as int);
        assert(order[q1] == a);
        assert(resolve_id(g, g[order[q1] as int].references[k]) matches Some(t) && order.take(q1).contains(t as usize));
        let q = choose|q: int| 0 <= q < order.take(q1).len() && order.take(q1)[q] == b;
        assert(order[q] == b);
    }
}

/// An ordered list that holds every Part a reference can reach leaves no cycle.
pub proof fn lemma_ordered_acyclic(g: Seq<DependencyV>, order: Seq<usize>)
    requires
        ordered(g, order),
        forall|i: usize| canonical(g, i as int) ==> #[trigger] order.contains(i),
    ensures
        !has_cycle(g),
{
    if has_cycle(g) {
        let s = choose|s: Seq<usize>| s.len() >= 2 && is_path(g, s) && #[trigger] s[0] == s[s.len() - 1];
        let t = s.len() - 2;
        let a = s[t];
        assert(edge(g, s[t] as int, s[t + 1] as int));
        assert(s[t + 1] == s[s.len() - 1]);
        let k = choose|k: int| 0 <= k < g[a as int].references.len() && #[trigger] resolve_id(g, g[a as int].references[k]) == Some(s[s.len() - 1] as int);
        lemma_resolve(g, g[a as int].references[k]);
        assert(canonical(g, s[0] as int));
        assert(order.contains(s[0]));
        let p0 = choose|p: int| 0 <= p < order.len() && order[p] == s[0];
        lemma_path_descends(g, order, s, p0);
        let q = choose|q: int| 0 <= q <= p0 - (s.len() - 1) && #[trigger] order[q] == s[s.len() - 1];
        assert(order[q] == order[p0]);
    }
}

/// A chain of references that runs into a cycle holds one.
pub proof fn lemma_lasso_cycle(g: Seq<DependencyV>, s: Seq<usize>)
    requires
        lasso(g, s),
    ensures
        has_cycle(g),
{
    let q = choose|q: int| 0 <= q < s.len() - 1 && #[trigger] s[q] == s[s.len() - 1];
    let c = s.subrange(q, s.len() as int);
    assert(c.len() >= 2);
    assert forall|t: int| 0 <= t < c.len() - 1 implies #[trigger] edge(g, c[t] as int, c[t + 1] as int) by {
        assert(edge(g, s[q + t] as int, s[q + t + 1] as int));
    }
    assert(is_path(g, c));
    assert(c[0] == c[c.len() - 1]);
}

proof fn lemma_distinct_bound(s: Seq<usize>, n: usize, x: usize)
    requires
        s.no_duplicates(),
        forall|t: int| 0 <= t < s.len() ==> #[trigger] s[t] < n,
        x < n,
        !s.contains(x),
    ensures
        s.len() + 1 <= n,
{
    let t = s.push(x).map_values(|v: usize| v as int);
    assert(t.no_duplicates()) by {
        assert forall|a: int, b: int| 0 <= a < t.len() && 0 <= b < t.len() && a != b implies t[a] != t[b] by {
            if a < s.len() && b < s.len() {
                assert(s[a] != s[b]);
            } else if a < s.len() {
                assert(s.contains(s[a]));
            } else if b < s.len() {
                assert(s.contains(s[b]));
            }
        }
    }
    t.unique_seq_to_set();
    vstd::set_lib::lemma_int_range(0, n as int);
    assert(t.to_set().subset_of(vstd::set_lib::set_int_range(0, n as int))) by {
        assert forall|v: int| t.to_set().contains(v) implies vstd::set_lib::set_int_range(0, n as int).contains(v) by {
            let a = choose|a: int| 0 <= a < t.len() && t[a] == v;
            if a < s.len() {
                assert(s[a] < n);
            }
        }
    }
    vstd::set_lib::lemma_len_subset(t.to_set(), vstd::set_lib::set_int_range(0, n as int));
}

/// The Part `Dependency` of a Part with id `id` and the given trigger and accent rhythms.
pub fn dependency(id: &str, trigger: &Expression, accent: &Expression) -> (r: Dependency)
    ensures
        r@.id == id@,
        r@.references == references_of(*trigger) + references_of(*accent),
{
    let a = trigger.references();
    let b = accent.references();
    let mut refs: Vec<String> = Vec::new();
    let mut i: usize = 0;
    while i < a.len()
        invariant
            i <= a@.len(),
            refs@.len() == i,
            a@.len() == references_of(*trigger).len(),
            forall|j: int| 0 <= j < a@.len() ==> (#[trigger] a@[j])@ == references_of(*trigger)[j],
            forall|j: int| 0 <= j < i ==> (#[trigger] refs@[j])@ == references_of(*trigger)[j],
        decreases a@.len() - i,
    {
        refs.push(String::from_str(a[i]));
        i += 1;
    }
    let mut j: usize = 0;
    while j < b.len()
        invariant
            j <= b@.len(),
            refs@.len() == a@.len() + j,
            a@.len() == references_of(*trigger).len(),
            b@.len() == references_of(*accent).len(),
            forall|m: int| 0 <= m < b@.len() ==> (#[trigger] b@[m])@ == references_of(*accent)[m],
            forall|m: int| 0 <= m < a@.len() ==> (#[trigger] refs@[m])@ == references_of(*trigger)[m],
            forall|m: int| 0 <= m < j ==> (#[trigger] refs@[a@.len() + m])@ == references_of(*accent)[m],
        decreases b@.len() - j,
    {
        refs.push(String::from_str(b[j]));
        j += 1;
    }
    let r = Dependency { id: String::from_str(id), references: refs };
    proof {
        let want = references_of(*trigger) + references_of(*accent);
        assert(r@.references.len() == want.len());
        assert forall|m: int| 0 <= m < want.len() implies r@.references[m] == want[m] by {
            if m >= a@.len() {
                assert(refs@[a@.len() + (m - a@.len())]@ == references_of(*accent)[m - a@.len()]);
            }
        }
        assert(r@.references =~= want);
    }
    r
}

/// The index a reference to `id` reaches.
fn resolve(parts: &Vec<Dependency>, id: &str) -> (r: Option<usize>)
    ensures
        r matches Some(j) ==> resolve_id(graph(parts@), id@) == Some(j as int),
        r is None ==> resolve_id(graph(parts@), id@) is None,
{
    let ghost g = graph(parts@);
    let mut n = parts.len();
    while n > 0
        invariant
            n <= parts@.len(),
            g == graph(parts@),
            resolve_id(g, id@) == last_with(g, id@, n as int),
        decreases n,
    {
        if same_text(parts[n - 1].id.as_str(), id) {
            return Some(n - 1);
        }
        n -= 1;
    }
    None
}

/// The ids of the Parts at `s`, joined by arrows, after the cycle's heading.
fn cycle_text(parts: &Vec<Dependency>, s: &Vec<usize>) -> (r: String)
    requires
        forall|t: int| 0 <= t < s@.len() ==> #[trigger] s@[t] < parts@.len(),
    ensures
        r@ == cycle_message(graph(parts@), s@),
{
    let ghost g = graph(parts@);
    let mut m = String::from_str("Part dependency cycle: ");
    let ghost head = m@;
    proof {
        reveal_strlit("Part dependency cycle: ");
        reveal_strlit(" -> ");
    }
    let mut t: usize = 0;
    while t < s.len()
        invariant
            t <= s@.len(),
            g == graph(parts@),
            head == "Part dependency cycle: "@,
            forall|u: int| 0 <= u < s@.len() ==> #[trigger] s@[u] < parts@.len(),
            m@ == head + joined(ids_of(g, s@.take(t as int)), " -> "@),
        decreases s@.len() - t,
    {
        let ghost before = ids_of(g, s@.take(t as int));
        let ghost after = ids_of(g, s@.take(t + 1));
        proof {
            assert(after.drop_last() =~= before);
            assert(after.last() == parts@[s@[t as int] as int].id@);
        }
        if t > 0 {
            m.append(" -> ");
        }
        m.append(parts[s[t]].id.as_str());
        proof {
            if t == 0 {
                assert(before.len() == 0);
                assert(joined(after, " -> "@) == after[0]);
                assert(joined(before, " -> "@) =~= Seq::<char>::empty());
            }
            assert(m@ =~= head + joined(after, " -> "@));
        }
        t += 1;
    }
    proof {
        assert(s@.take(s@.len() as int) =~= s@);
    }
    m
}

/// The visiting state is sound: `done` marks exactly the Parts in `order`, which is ordered.
pub open spec fn settled(g: Seq<DependencyV>, done: Seq<bool>, order: Seq<usize>) -> bool {
    &&& done.len() == g.len()
    &&& ordered(g, order)
    &&& forall|j: int| 0 <= j < g.len() ==> (#[trigger] done[j] <==> order.contains(j as usize))
}

/// What a failed visit reports: a missing Part, or a chain of references into a cycle.
pub open spec fn refused(g: Seq<DependencyV>, e: Seq<char>) -> bool {
    ||| exists|i: int, k: int| canonical(g, i) && 0 <= k < g[i].references.len()
            && #[trigger] resolve_id(g, g[i].references[k]) is None
            && e == missing_message(g[i].id, g[i].references[k])
    ||| exists|s: Seq<usize>| #[trigger] lasso(g, s) && e == cycle_message(g, s)
}

/// Depth-first visit of Part `i`: its references first, then `i` itself.
fn visit(parts: &Vec<Dependency>, i: usize, active: &mut Vec<usize>, done: &mut Vec<bool>, order: &mut Vec<usize>) -> (r: Result<(), String>)
    requires
        canonical(graph(parts@), i as int),
        settled(graph(parts@), old(done)@, old(order)@),
        old(active)@.no_duplicates(),
        is_path(graph(parts@), old(active)@),
        old(active)@.len() > 0 ==> edge(graph(parts@), old(active)@.last() as int, i as int),
        forall|t: int| 0 <= t < old(active)@.len() ==> !old(done)@[#[trigger] old(active)@[t] as int],
    ensures
        r is Ok ==> {
            &&& settled(graph(parts@), final(done)@, final(order)@)
            &&& final(active)@ == old(active)@
            &&& final(done)@[i as int]
            &&& forall|j: int| 0 <= j < parts@.len() && #[trigger] final(done)@[j] ==> old(done)@[j] || !old(active)@.contains(j as usize)
            &&& forall|j: int| 0 <= j < parts@.len() && #[trigger] old(done)@[j] ==> final(done)@[j]
        },
        r matches Err(e) ==> refused(graph(parts@), e@),
    decreases parts@.len() - old(active)@.len(),
{
    let ghost g = graph(parts@);
    if done[i] {
        return Ok(());
    }
    let mut on_path = false;
    let mut t: usize = 0;
    while t < active.len()
        invariant
            t <= active@.len(),
            on_path == active@.take(t as int).contains(i),
        decreases active@.len() - t,
    {
        if active[t] == i {
            on_path = true;
        }
        proof {
            assert(active@.take(t + 1) =~= active@.take(t as int).push(active@[t as int]));
        }
        t += 1;
    }
    proof {
        assert(active@.take(active@.len() as int) =~= active@);
    }
    if on_path {
        let mut s = active.clone();
        s.push(i);
        let e = cycle_text(parts, &s);
        proof {
            let q = choose|q: int| 0 <= q < active@.len() && active@[q] == i;
            assert(s@[q] == s@[s@.len() - 1]);
            assert forall|t: int| 0 <= t < s@.len() - 1 implies #[trigger] edge(g, s@[t] as int, s@[t + 1] as int) by {
                if t < active@.len() - 1 {
                    assert(edge(g, active@[t] as int, active@[t + 1] as int));
                }
            }
            assert(lasso(g, s@));
        }
        return Err(e);
    }
    proof {
        lemma_distinct_bound(active@, parts.len(), i);
    }
    let ghost active0 = active@;
    let ghost done0 = done@;
    let ghost order0 = order@;
    active.push(i);
    proof {
        assert(active@.no_duplicates());
        assert forall|t: int| 0 <= t < active@.len() - 1 implies #[trigger] edge(g, active@[t] as int, active@[t + 1] as int) by {
            if t < active0.len() - 1 {
                assert(edge(g, active0[t] as int, active0[t + 1] as int));
            }
        }
    }
    let refs = &parts[i].references;
    let mut k: usize = 0;
    while k < refs.len()
        invariant
            g == graph(parts@),
            refs@ == parts@[i as int].references@,
            0 <= i < parts@.len(),
            canonical(g, i as int),
            k <= refs@.len(),
            active@ == active0.push(i),
            active@.no_duplicates(),
            is_path(g, active@),
            settled(g, done@, order@),
            !done@[i as int],
            forall|t: int| 0 <= t < active@.len() ==> !done@[#[trigger] active@[t] as int],
            forall|j: int| 0 <= j < parts@.len() && #[trigger] done@[j] ==> done0[j] || !active@.contains(j as usize),
            forall|j: int| 0 <= j < parts@.len() && #[trigger] done0[j] ==> done@[j],
            active0 == old(active)@,
            done0 == old(done)@,
            forall|m: int| 0 <= m < k ==> ((#[trigger] resolve_id(g, g[i as int].references[m])) matches Some(t)
                && 0 <= t < g.len() && done@[t]),
            parts@.len() - active0.len() >= 1,
        decreases refs@.len() - k,
    {
        proof {
            assert(g[i as int].references[k as int] == refs@[k as int]@);
        }
        match resolve(parts, refs[k].as_str()) {
            None => {
                let mut m = String::from_str("Part ");
                let a = quoted(parts[i].id.as_str());
                m.append(a.as_str());
                m.append(" references missing Part ");
                let b = quoted(refs[k].as_str());
                m.append(b.as_str());
                proof {
                    reveal_strlit("Part ");
                    reveal_strlit(" references missing Part ");
                    assert(m@ =~= missing_message(g[i as int].id, g[i as int].references[k as int]));
                }
                return Err(m);
            },
            Some(target) => {
                proof {
                    lemma_resolve(g, g[i as int].references[k as int]);
                    assert(edge(g, i as int, target as int));
                }
                let ghost done_before = done@;
                match visit(parts, target, active, done, order) {
                    Ok(()) => {},
                    Err(e) => return Err(e),
                }
                proof {
                    assert forall|m: int| 0 <= m <= k implies ((#[trigger] resolve_id(g, g[i as int].references[m])) matches Some(t)
                        && 0 <= t < g.len() && done@[t]) by {
                        if m < k {
                            let t = resolve_id(g, g[i as int].references[m])->0;
                            assert(done_before[t]);
                        } else {
                            assert(resolve_id(g, g[i as int].references[m]) == Some(target as int));
                            assert(done@[target as int]);
                        }
                    }
                }
            },
        }
        k += 1;
    }
    active.pop();
    proof {
        assert(active@ =~= active0);
    }
    let ghost order1 = order@;
    let ghost done1 = done@;
    proof {
        assert forall|m: int| 0 <= m < g[i as int].references.len() implies ((#[trigger] resolve_id(g, g[i as int].references[m])) matches Some(t)
            && t >= 0 && order1.contains(t as usize)) by {
            let t = resolve_id(g, g[i as int].references[m])->0;
            assert(done1[t]);
            assert(0 <= t < g.len());
        }
    }
    done.set(i, true);
    order.push(i);
    proof {
        assert(!order1.contains(i));
        assert(order@.take(order1.len() as int) =~= order1);
        assert forall|p: int| 0 <= p < order@.len() implies #[trigger] canonical(g, order@[p] as int) by {
            if p < order1.len() {
                assert(canonical(g, order1[p] as int));
            }
        }
        assert forall|p: int, m: int| 0 <= p < order@.len() && 0 <= m < g[order@[p] as int].references.len()
            implies ((#[trigger] resolve_id(g, g[order@[p] as int].references[m])) matches Some(t)
                && t >= 0 && order@.take(p).contains(t as usize)) by {
            if p < order1.len() {
                assert(order@.take(p) =~= order1.take(p));
                assert(order1[p] == order@[p]);
            } else {
                assert(order@[p] == i);
                assert(order@.take(p) =~= order1);
            }
        }
        assert forall|j: int| 0 <= j < g.len() implies (#[trigger] done@[j] <==> order@.contains(j as usize)) by {
            if j != i {
                assert(order@.contains(j as usize) <==> order1.contains(j as usize));
            }
        }
    }
    Ok(())
}

/// The Parts in evaluation order, as indices into `parts`: every Part after the Parts it
/// references, the Parts a reference reaches visited in ascending id order. A reference to a
/// missing Part, or a chain of references into a cycle, is refused, naming what was found.
pub fn evaluation_order(parts: &Vec<Dependency>) -> (r: Result<Vec<usize>, String>)
    ensures
        r is Ok <==> !missing(graph(parts@)) && !has_cycle(graph(parts@)),
        r matches Ok(order) ==> ordered(graph(parts@), order@)
            && forall|i: usize| canonical(graph(parts@), i as int) ==> #[trigger] order@.contains(i),
        r matches Err(e) ==> refused(graph(parts@), e@),
{
    let ghost g = graph(parts@);
    let roots = roots_by_id(parts);
    let mut done: Vec<bool> = Vec::new();
    let mut n: usize = 0;
    while n < parts.len()
        invariant
            n <= parts@.len(),
            done@.len() == n,
            forall|j: int| 0 <= j < n ==> !#[trigger] done@[j],
        decreases parts@.len() - n,
    {
        done.push(false);
        n += 1;
    }
    let mut order: Vec<usize> = Vec::new();
    let mut active: Vec<usize> = Vec::new();
    let mut m: usize = 0;
    while m < roots.len()
        invariant
            g == graph(parts@),
            m <= roots@.len(),
            forall|t: int| 0 <= t < roots@.len() ==> canonical(g, #[trigger] roots@[t] as int),
            forall|i: usize| canonical(g, i as int) ==> #[trigger] roots@.contains(i),
            settled(g, done@, order@),
            active@.len() == 0,
            forall|t: int| 0 <= t < m ==> done@[#[trigger] roots@[t] as int],
        decreases roots@.len() - m,
    {
        match visit(parts, roots[m], &mut active, &mut done, &mut order) {
            Ok(()) => {},
            Err(e) => {
                proof {
                    if !missing(g) && !has_cycle(g) {
                        if exists|s: Seq<usize>| #[trigger] lasso(g, s) && e@ == cycle_message(g, s) {
                            let s = choose|s: Seq<usize>| #[trigger] lasso(g, s) && e@ == cycle_message(g, s);
                            lemma_lasso_cycle(g, s);
                        }
                    }
                }
                return Err(e);
            },
        }
        proof {
            assert forall|t: int| 0 <= t <= m implies done@[#[trigger] roots@[t] as int] by {
                if t < m {
                    assert(done@[roots@[t] as int]);
                }
            }
        }
        m += 1;
    }
    proof {
        assert forall|i: usize| canonical(g, i as int) implies #[trigger] order@.contains(i) by {
            assert(roots@.contains(i));
            let t = choose|t: int| 0 <= t < roots@.len() && roots@[t] == i;
            assert(done@[roots@[t] as int]);
        }
        lemma_ordered_acyclic(g, order@);
        if missing(g) {
            let (i, k) = choose|i: int, k: int| canonical(g, i) && 0 <= k < g[i].references.len()
                && #[trigger] resolve_id(g, g[i].references[k]) is None;
            assert(canonical(g, (i as usize) as int));
            assert(order@.contains(i as usize));
            let p = choose|p: int| 0 <= p < order@.len() && order@[p] == i as usize;
            assert(resolve_id(g, g[order@[p] as int].references[k]) is Some);
        }
    }
    Ok(order)
}

/// Whether `a` comes before `b` when both are read from index `i` on: at the first index
/// where they differ, by code point, or else the shorter first.
pub open spec fn ordered_from(a: Seq<char>, b: Seq<char>, i: int) -> bool
    decreases a.len() - i,
{
    if i < 0 || i >= a.len() || i >= b.len() {
        a.len() < b.len()
    } else if a[i] != b[i] {
        (a[i] as u32) < (b[i] as u32)
    } else {
        ordered_from(a, b, i + 1)
    }
}

/// `a` comes before `b` in the order of their characters' code points, which is the order of
/// their UTF-8 bytes.
pub(crate) fn id_less(a: &str, b: &str) -> (r: bool)
    ensures
        r == ordered_from(a@, b@, 0),
{
    let n = a.unicode_len();
    let m = b.unicode_len();
    let mut i: usize = 0;
    while i < n && i < m
        invariant
            n == a@.len(),
            m == b@.len(),
            i <= n,
            i <= m,
            ordered_from(a@, b@, 0) == ordered_from(a@, b@, i as int),
        decreases n - i,
    {
        let x = a.get_char(i);
        let y = b.get_char(i);
        if x != y {
            return (x as u32) < (y as u32);
        }
        i += 1;
    }
    n < m
}

/// The indices of the Parts a reference reaches, in ascending id order.
fn roots_by_id(parts: &Vec<Dependency>) -> (r: Vec<usize>)
    ensures
        forall|t: int| 0 <= t < r@.len() ==> canonical(graph(parts@), #[trigger] r@[t] as int),
        forall|i: usize| canonical(graph(parts@), i as int) ==> #[trigger] r@.contains(i),
{
    let ghost g = graph(parts@);
    let mut roots: Vec<usize> = Vec::new();
    let mut i: usize = 0;
    while i < parts.len()
        invariant
            g == graph(parts@),
            i <= parts@.len(),
            forall|t: int| 0 <= t < roots@.len() ==> canonical(g, #[trigger] roots@[t] as int),
            forall|j: usize| j < i && canonical(g, j as int) ==> #[trigger] roots@.contains(j),
        decreases parts@.len() - i,
    {
        let found = resolve(parts, parts[i].id.as_str());
        proof {
            lemma_resolve(g, g[i as int].id);
        }
        if found == Some(i) {
            let mut at: usize = roots.len();
            loop
                invariant
                    at <= roots@.len(),
                    i < parts@.len(),
                    forall|t: int| 0 <= t < roots@.len() ==> #[trigger] roots@[t] < parts@.len(),
                decreases at,
            {
                if at == 0 {
                    break;
                }
                if !id_less(parts[i].id.as_str(), parts[roots[at - 1]].id.as_str()) {
                    break;
                }
                at -= 1;
            }
            let ghost before = roots@;
            roots.insert(at, i);
            proof {
                assert forall|t: int| 0 <= t < roots@.len() implies canonical(g, #[trigger] roots@[t] as int) by {
                    if t < at {
                        assert(roots@[t] == before[t]);
                    } else if t > at {
                        assert(roots@[t] == before[t - 1]);
                    } else {
                        lemma_canonical_resolves(g, i as int);
                    }
                }
                assert forall|j: usize| j <= i && canonical(g, j as int) implies #[trigger] roots@.contains(j) by {
                    if j < i {
                        assert(before.contains(j));
                        let t = choose|t: int| 0 <= t < before.len() && before[t] == j;
                        if t < at {
                            assert(roots@[t] == before[t]);
                        } else {
                            assert(roots@[t + 1] == before[t]);
                        }
                    } else {
                        assert(roots@[at as int] == i);
                    }
                }
            }
        } else {
            proof {
                assert forall|j: usize| j <= i && canonical(g, j as int) implies #[trigger] roots@.contains(j) by {
                    if j == i {
                        lemma_canonical_resolves(g, i as int);
                    }
                }
            }
        }
        i += 1;
    }
    roots
}

} // verus!
