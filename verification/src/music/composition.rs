//! The checks a composition passes at load: its phrase length and Part count, each Part's
//! id, rhythms, MIDI route and velocities, distinct ids and routes, and an evaluation order.
//! Checks on real-valued settings (tempo, probabilities, groove) are made by whoever holds
//! those values; their outcomes come in as plain results and keep their place in the order.
use vstd::prelude::*;

use super::dependency::{dependency, evaluation_order, graph, has_cycle, missing, refused, Dependency, DependencyV};
use super::rhythm::{references_of, validation, Expression};
use super::{Output, VelocityProfile};
use crate::text::{blank, debug_str, is_blank, quoted};

verus! {

/// A Part as its load checks see it. `unit_ok` says, for `trigger.probability`,
/// `accent.probability` and `accent.amount` in that order, whether the value is finite and
/// within 0..1; `groove` is what the groove's own check reported.
pub struct PartCheck {
    pub id: String,
    pub trigger: Expression,
    pub accent: Expression,
    pub output: Output,
    pub profile: VelocityProfile,
    pub unit_ok: (bool, bool, bool),
    pub groove: Result<(), String>,
}

/// The first Part check that fails, with its message.
pub open spec fn part_check(p: PartCheck) -> Result<(), Seq<char>> {
    if blank(p.id@) {
        Err("part.id cannot be empty"@)
    } else if !p.unit_ok.0 {
        Err("trigger.probability must be finite and within 0..1"@)
    } else if !p.unit_ok.1 {
        Err("accent.probability must be finite and within 0..1"@)
    } else if !p.unit_ok.2 {
        Err("accent.amount must be finite and within 0..1"@)
    } else if validation(p.trigger, 0) is Err {
        Err("trigger.rhythm: "@ + validation(p.trigger, 0)->Err_0)
    } else if validation(p.accent, 0) is Err {
        Err("accent.rhythm: "@ + validation(p.accent, 0)->Err_0)
    } else if p.groove is Err {
        Err(p.groove->Err_0@)
    } else if !(1 <= p.output.channel <= 16) || p.output.note > 127 {
        Err("MIDI channel must be 1..16 and note 0..127"@)
    } else if p.output.gate_ticks == 0 || p.output.gate_ticks >= 240 {
        Err("gate_ticks must be 1..239 for this drum slice"@)
    } else if !(1 <= p.profile.base <= 127) || p.profile.boost > 127 {
        Err("velocity base must be 1..127 and boost 0..127"@)
    } else {
        Ok(())
    }
}

/// The first of the first `n` Parts that fails its own check, or shares an id or a MIDI route
/// with a Part before it.
pub open spec fn parts_check(parts: Seq<PartCheck>, n: int) -> Result<(), Seq<char>>
    decreases n,
{
    if n <= 0 {
        Ok(())
    } else {
        match parts_check(parts, n - 1) {
            Err(e) => Err(e),
            Ok(()) => {
                let p = parts[n - 1];
                match part_check(p) {
                    Err(e) => Err("Part "@ + debug_str(p.id@) + ": "@ + e),
                    Ok(()) => if exists|j: int| 0 <= j < n - 1 && #[trigger] parts[j].id@ == p.id@ {
                        Err("duplicate Part ID "@ + debug_str(p.id@))
                    } else if exists|j: int| 0 <= j < n - 1 && #[trigger] parts[j].output.channel == p.output.channel
                        && parts[j].output.note == p.output.note {
                        Err("Parts must use distinct MIDI channel/note pairs; duplicate route on "@ + debug_str(p.id@))
                    } else {
                        Ok(())
                    },
                }
            },
        }
    }
}

/// The checks before the evaluation order.
pub open spec fn composition_check(tempo_ok: bool, phrase_bars: u32, parts: Seq<PartCheck>) -> Result<(), Seq<char>> {
    if !tempo_ok {
        Err("tempo must be finite and within 20..400 BPM"@)
    } else if !(1 <= phrase_bars <= 1024) {
        Err("phrase_bars must be 1..1024 (4/4)"@)
    } else if parts.len() == 0 || parts.len() > 32 {
        Err("composition requires 1..32 Parts"@)
    } else {
        parts_check(parts, parts.len() as int)
    }
}

/// The dependency graph of the Parts: each id with what its trigger, then its accent, references.
pub open spec fn part_graph(parts: Seq<PartCheck>) -> Seq<DependencyV> {
    Seq::new(parts.len(), |i: int| DependencyV {
        id: parts[i].id@,
        references: references_of(parts[i].trigger) + references_of(parts[i].accent),
    })
}

/// One Part's own checks.
pub fn validate_part(p: &PartCheck) -> (r: Result<(), String>)
    ensures
        match part_check(*p) {
            Ok(()) => r is Ok,
            Err(m) => r matches Err(e) && e@ == m,
        },
{
    proof {
        reveal_strlit("part.id cannot be empty");
        reveal_strlit("trigger.probability must be finite and within 0..1");
        reveal_strlit("accent.probability must be finite and within 0..1");
        reveal_strlit("accent.amount must be finite and within 0..1");
        reveal_strlit("trigger.rhythm: ");
        reveal_strlit("accent.rhythm: ");
        reveal_strlit("MIDI channel must be 1..16 and note 0..127");
        reveal_strlit("gate_ticks must be 1..239 for this drum slice");
        reveal_strlit("velocity base must be 1..127 and boost 0..127");
    }
    if is_blank(p.id.as_str()) {
        return Err(String::from_str("part.id cannot be empty"));
    }
    if !p.unit_ok.0 {
        return Err(String::from_str("trigger.probability must be finite and within 0..1"));
    }
    if !p.unit_ok.1 {
        return Err(String::from_str("accent.probability must be finite and within 0..1"));
    }
    if !p.unit_ok.2 {
        return Err(String::from_str("accent.amount must be finite and within 0..1"));
    }
    match p.trigger.validate(0) {
        Ok(()) => {},
        Err(e) => {
            let mut m = String::from_str("trigger.rhythm: ");
            m.append(e.as_str());
            return Err(m);
        },
    }
    match p.accent.validate(0) {
        Ok(()) => {},
        Err(e) => {
            let mut m = String::from_str("accent.rhythm: ");
            m.append(e.as_str());
            return Err(m);
        },
    }
    match &p.groove {
        Ok(()) => {},
        Err(e) => return Err(e.clone()),
    }
    let o = &p.output;
    if !(1 <= o.channel && o.channel <= 16) || o.note > 127 {
        return Err(String::from_str("MIDI channel must be 1..16 and note 0..127"));
    }
    if o.gate_ticks == 0 || o.gate_ticks >= 240 {
        return Err(String::from_str("gate_ticks must be 1..239 for this drum slice"));
    }
    if !(1 <= p.profile.base && p.profile.base <= 127) || p.profile.boost > 127 {
        return Err(String::from_str("velocity base must be 1..127 and boost 0..127"));
    }
    Ok(())
}

proof fn lemma_parts_refusal_stays(parts: Seq<PartCheck>, n: int, m: int)
    requires
        n <= m,
        parts_check(parts, n) is Err,
    ensures
        parts_check(parts, m) == parts_check(parts, n),
    decreases m - n,
{
    if n < m {
        lemma_parts_refusal_stays(parts, n, m - 1);
    }
}

/// A composition's load checks, in order: tempo, phrase length, Part count, each Part with its
/// id and route against the Parts before it, then the evaluation order, which refuses a
/// reference to a missing Part and a chain of references into a cycle.
pub fn validate_composition(tempo_ok: bool, phrase_bars: u32, parts: &Vec<PartCheck>) -> (r: Result<(), String>)
    ensures
        match composition_check(tempo_ok, phrase_bars, parts@) {
            Err(m) => r matches Err(e) && e@ == m,
            Ok(()) => {
                &&& r is Ok <==> !missing(part_graph(parts@)) && !has_cycle(part_graph(parts@))
                &&& r matches Err(e) ==> refused(part_graph(parts@), e@)
            },
        },
{
    proof {
        reveal_strlit("tempo must be finite and within 20..400 BPM");
        reveal_strlit("phrase_bars must be 1..1024 (4/4)");
        reveal_strlit("composition requires 1..32 Parts");
        reveal_strlit("Part ");
        reveal_strlit(": ");
        reveal_strlit("duplicate Part ID ");
        reveal_strlit("Parts must use distinct MIDI channel/note pairs; duplicate route on ");
    }
    if !tempo_ok {
        return Err(String::from_str("tempo must be finite and within 20..400 BPM"));
    }
    if !(1 <= phrase_bars && phrase_bars <= 1024) {
        return Err(String::from_str("phrase_bars must be 1..1024 (4/4)"));
    }
    if parts.len() == 0 || parts.len() > 32 {
        return Err(String::from_str("composition requires 1..32 Parts"));
    }
    let mut deps: Vec<Dependency> = Vec::new();
    let mut i: usize = 0;
    while i < parts.len()
        invariant
            tempo_ok,
            1 <= phrase_bars <= 1024,
            0 < parts@.len() <= 32,
            i <= parts@.len(),
            parts_check(parts@, i as int) is Ok,
            deps@.len() == i,
            forall|j: int| 0 <= j < i ==> (#[trigger] deps@[j])@ == part_graph(parts@)[j],
        decreases parts@.len() - i,
    {
        let p = &parts[i];
        match validate_part(p) {
            Ok(()) => {},
            Err(e) => {
                let mut m = String::from_str("Part ");
                let q = quoted(p.id.as_str());
                m.append(q.as_str());
                m.append(": ");
                m.append(e.as_str());
                proof {
                    assert(m@ =~= "Part "@ + debug_str(p.id@) + ": "@ + e@);
                    lemma_parts_refusal_stays(parts@, i + 1, parts@.len() as int);
                }
                return Err(m);
            },
        }
        let mut j: usize = 0;
        let mut same_id = false;
        let mut same_route = false;
        while j < i
            invariant
                j <= i < parts@.len(),
                *p == parts@[i as int],
                same_id == exists|x: int| 0 <= x < j && #[trigger] parts@[x].id@ == p.id@,
                same_route == exists|x: int| 0 <= x < j && #[trigger] parts@[x].output.channel == p.output.channel
                    && parts@[x].output.note == p.output.note,
            decreases i - j,
        {
            if crate::text::same_text(parts[j].id.as_str(), p.id.as_str()) {
                same_id = true;
            }
            if parts[j].output.channel == p.output.channel && parts[j].output.note == p.output.note {
                same_route = true;
            }
            j += 1;
        }
        if same_id {
            let mut m = String::from_str("duplicate Part ID ");
            let q = quoted(p.id.as_str());
            m.append(q.as_str());
            proof {
                assert(m@ =~= "duplicate Part ID "@ + debug_str(p.id@));
                lemma_parts_refusal_stays(parts@, i + 1, parts@.len() as int);
            }
            return Err(m);
        }
        if same_route {
            let mut m = String::from_str("Parts must use distinct MIDI channel/note pairs; duplicate route on ");
            let q = quoted(p.id.as_str());
            m.append(q.as_str());
            proof {
                assert(m@ =~= "Parts must use distinct MIDI channel/note pairs; duplicate route on "@ + debug_str(p.id@));
                lemma_parts_refusal_stays(parts@, i + 1, parts@.len() as int);
            }
            return Err(m);
        }
        deps.push(dependency(p.id.as_str(), &p.trigger, &p.accent));
        i += 1;
    }
    proof {
        assert(graph(deps@) =~= part_graph(parts@));
    }
    match evaluation_order(&deps) {
        Ok(_) => Ok(()),
        Err(e) => Err(e),
    }
}

} // verus!
