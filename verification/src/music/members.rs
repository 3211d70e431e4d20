//! Member keys of a return group, resolved to the clocks they name. The shapes this engine can
//! read are `voices.<id>.trigger.cycle`, `voices.<id>.accent.cycle` and
//! `voices.<id>.velocity.cycle` (`parts.` is the same word), and `lanes.<name>.every`, a walk's
//! step clock. A velocity that advances per event is an event clock. `patterns.*` is refused by
//! name: nothing is guessed.
use vstd::prelude::*;

use super::router::{fixed_clocks, keyed, lcm_from, Clock, ReturnGroup};
use crate::text::same_text;

verus! {

/// What a voice's member keys read: its id, its velocity pattern (whether it advances per event,
/// and its cycle in ticks), and the periods of its trigger and accent streams as the cycle rules
/// compute them (none when a period does not fit in `u64` ticks, or the error they report).
pub struct VoiceClocks {
    pub id: String,
    pub velocity: Option<(bool, u64)>,
    pub trigger_period: Result<Option<u64>, String>,
    pub accent_period: Result<Option<u64>, String>,
}

/// A shared lane: a walk steps every `every_ticks`; a target lane has no member clock.
pub enum LaneKind {
    Walk { every_ticks: u64 },
    Target,
}

pub struct LaneClock {
    pub name: String,
    pub kind: LaneKind,
}

/// Everything member keys can name in one composition.
pub struct ClockScope {
    pub voices: Vec<VoiceClocks>,
    pub lanes: Vec<LaneClock>,
}

/// `s` cut at every `.`: at least one segment, empty ones kept.
pub open spec fn dot_segments(s: Seq<char>) -> Seq<Seq<char>>
    decreases s.len(),
{
    if s.len() == 0 {
        seq![Seq::empty()]
    } else {
        let p = dot_segments(s.drop_last());
        if s.last() == '.' {
            p.push(Seq::empty())
        } else {
            p.update(p.len() - 1, p.last().push(s.last()))
        }
    }
}

proof fn lemma_segments_nonempty(s: Seq<char>)
    ensures
        dot_segments(s).len() >= 1,
    decreases s.len(),
{
    if s.len() > 0 {
        lemma_segments_nonempty(s.drop_last());
    }
}

pub open spec fn first_voice(vs: Seq<VoiceClocks>, id: Seq<char>, n: int) -> Option<int>
    decreases n,
{
    if n <= 0 {
        None
    } else {
        match first_voice(vs, id, n - 1) {
            Some(k) => Some(k),
            None => if vs[n - 1].id@ == id { Some(n - 1) } else { None },
        }
    }
}

pub open spec fn first_lane(ls: Seq<LaneClock>, name: Seq<char>, n: int) -> Option<int>
    decreases n,
{
    if n <= 0 {
        None
    } else {
        match first_lane(ls, name, n - 1) {
            Some(k) => Some(k),
            None => if ls[n - 1].name@ == name { Some(n - 1) } else { None },
        }
    }
}

pub open spec fn is_voice_word(w: Seq<char>) -> bool {
    w == "voices"@ || w == "parts"@
}

pub open spec fn voice_words_message() -> Seq<char> {
    ": a voice's clocks are trigger.cycle, accent.cycle and velocity.cycle; velocity per=event has no fixed transport period"@
}

pub open spec fn patterns_message() -> Seq<char> {
    ": patterns are not in this engine yet (M1.5), so the key cannot be resolved; it is not guessed"@
}

pub open spec fn target_message() -> Seq<char> {
    ": target lanes have no member clock in this engine, under this or any other spelling, so the key cannot be resolved; it is not guessed"@
}

pub open spec fn lane_words_message() -> Seq<char> {
    ": not a lane member clock; only a walk lane has one, spelled lanes.<name>.every"@
}

pub open spec fn unknown_message() -> Seq<char> {
    ": not a clock this engine can name; a member is voices.<id>.trigger.cycle, voices.<id>.accent.cycle, patterns.<name>.change.every or lanes.<name>.every"@
}

/// The clock member key `key` names in `s`, or why it names none. A voice the composition does
/// not have is absent.
pub open spec fn member_clock_of(s: ClockScope, key: Seq<char>) -> Result<Clock, Seq<char>> {
    let g = dot_segments(key);
    if g.len() == 4 && is_voice_word(g[0]) && g[2] == "velocity"@ && g[3] == "cycle"@ {
        match first_voice(s.voices@, g[1], s.voices@.len() as int) {
            None => Ok(Clock::Absent),
            Some(k) => match s.voices@[k].velocity {
                None => Err(key + ": no velocity value pattern"@),
                Some((per_event, ticks)) => Ok(if per_event { Clock::Event } else { Clock::Fixed(ticks) }),
            },
        }
    } else if g.len() == 4 && is_voice_word(g[0]) && (g[2] == "trigger"@ || g[2] == "accent"@) && g[3] == "cycle"@ {
        match first_voice(s.voices@, g[1], s.voices@.len() as int) {
            None => Ok(Clock::Absent),
            Some(k) => {
                let period = if g[2] == "trigger"@ { s.voices@[k].trigger_period } else { s.voices@[k].accent_period };
                match period {
                    Err(e) => Err(e@),
                    Ok(Some(p)) => Ok(Clock::Fixed(p)),
                    Ok(None) => Err(key + ": the "@ + g[2] + " period does not fit in u64 ticks"@),
                }
            },
        }
    } else if is_voice_word(g[0]) {
        Err(key + voice_words_message())
    } else if g[0] == "patterns"@ {
        Err(key + patterns_message())
    } else if g.len() == 3 && g[0] == "lanes"@ && g[2] == "every"@ {
        match first_lane(s.lanes@, g[1], s.lanes@.len() as int) {
            None => Err(key + ": unknown shared lane"@),
            Some(k) => match s.lanes@[k].kind {
                LaneKind::Walk { every_ticks } => Ok(Clock::Fixed(every_ticks)),
                LaneKind::Target => Err(key + target_message()),
            },
        }
    } else if g[0] == "lanes"@ {
        Err(key + lane_words_message())
    } else {
        Err(key + unknown_message())
    }
}

/// The text of `key` cut at every `.`.
pub fn split_dots(key: &str) -> (r: Vec<String>)
    ensures
        r@.len() == dot_segments(key@).len(),
        forall|i: int| 0 <= i < r@.len() ==> (#[trigger] r@[i])@ == dot_segments(key@)[i],
{
    let n = key.unicode_len();
    let mut out: Vec<String> = Vec::new();
    let mut start: usize = 0;
    let mut i: usize = 0;
    while i < n
        invariant
            n == key@.len(),
            start <= i <= n,
            out@.len() + 1 == dot_segments(key@.take(i as int)).len(),
            forall|j: int| 0 <= j < out@.len() ==> (#[trigger] out@[j])@ == dot_segments(key@.take(i as int))[j],
            dot_segments(key@.take(i as int)).last() == key@.subrange(start as int, i as int),
        decreases n - i,
    {
        let c = key.get_char(i);
        proof {
            assert(key@.take(i + 1).drop_last() =~= key@.take(i as int));
            assert(key@.take(i + 1).last() == c);
            lemma_segments_nonempty(key@.take(i as int));
        }
        if c == '.' {
            let piece = key.substring_char(start, i);
            out.push(String::from_str(piece));
            start = i + 1;
            proof {
                assert(key@.subrange(start as int, i + 1) =~= Seq::<char>::empty());
            }
        } else {
            proof {
                assert(key@.subrange(start as int, i + 1) =~= key@.subrange(start as int, i as int).push(c));
            }
        }
        i += 1;
    }
    let last = key.substring_char(start, n);
    out.push(String::from_str(last));
    proof {
        assert(key@.take(n as int) =~= key@);
    }
    out
}

fn voice_index(vs: &Vec<VoiceClocks>, id: &str) -> (r: Option<usize>)
    ensures
        r matches Some(k) ==> first_voice(vs@, id@, vs@.len() as int) == Some(k as int) && k < vs@.len(),
        r is None ==> first_voice(vs@, id@, vs@.len() as int) is None,
{
    let mut i: usize = 0;
    while i < vs.len()
        invariant
            i <= vs@.len(),
            first_voice(vs@, id@, i as int) is None,
        decreases vs@.len() - i,
    {
        if same_text(vs[i].id.as_str(), id) {
            proof {
                lemma_voice_stays(vs@, id@, i + 1, vs@.len() as int);
            }
            return Some(i);
        }
        i += 1;
    }
    None
}

proof fn lemma_voice_stays(vs: Seq<VoiceClocks>, id: Seq<char>, n: int, m: int)
    requires
        n <= m,
        first_voice(vs, id, n) is Some,
    ensures
        first_voice(vs, id, m) == first_voice(vs, id, n),
    decreases m - n,
{
    if n < m {
        lemma_voice_stays(vs, id, n, m - 1);
    }
}

fn lane_index(ls: &Vec<LaneClock>, name: &str) -> (r: Option<usize>)
    ensures
        r matches Some(k) ==> first_lane(ls@, name@, ls@.len() as int) == Some(k as int) && k < ls@.len(),
        r is None ==> first_lane(ls@, name@, ls@.len() as int) is None,
{
    let mut i: usize = 0;
    while i < ls.len()
        invariant
            i <= ls@.len(),
            first_lane(ls@, name@, i as int) is None,
        decreases ls@.len() - i,
    {
        if same_text(ls[i].name.as_str(), name) {
            proof {
                lemma_lane_stays(ls@, name@, i + 1, ls@.len() as int);
            }
            return Some(i);
        }
        i += 1;
    }
    None
}

proof fn lemma_lane_stays(ls: Seq<LaneClock>, name: Seq<char>, n: int, m: int)
    requires
        n <= m,
        first_lane(ls, name, n) is Some,
    ensures
        first_lane(ls, name, m) == first_lane(ls, name, n),
    decreases m - n,
{
    if n < m {
        lemma_lane_stays(ls, name, n, m - 1);
    }
}

fn key_message(key: &str, tail: &str) -> (r: String)
    ensures
        r@ == key@ + tail@,
{
    let mut m = String::from_str(key);
    m.append(tail);
    m
}

/// The clock one member key names in `s`.
pub fn member_clock(s: &ClockScope, key: &str) -> (r: Result<Clock, String>)
    ensures
        match member_clock_of(*s, key@) {
            Ok(c) => r == Ok::<Clock, String>(c),
            Err(m) => r matches Err(e) && e@ == m,
        },
{
    proof {
        reveal_strlit("voices");
        reveal_strlit("parts");
        reveal_strlit("velocity");
        reveal_strlit("cycle");
        reveal_strlit("trigger");
        reveal_strlit("accent");
        reveal_strlit("patterns");
        reveal_strlit("lanes");
        reveal_strlit("every");
        reveal_strlit(": no velocity value pattern");
        reveal_strlit(": the ");
        reveal_strlit(" period does not fit in u64 ticks");
        reveal_strlit(": a voice's clocks are trigger.cycle, accent.cycle and velocity.cycle; velocity per=event has no fixed transport period");
        reveal_strlit(": patterns are not in this engine yet (M1.5), so the key cannot be resolved; it is not guessed");
        reveal_strlit(": unknown shared lane");
        reveal_strlit(": target lanes have no member clock in this engine, under this or any other spelling, so the key cannot be resolved; it is not guessed");
        reveal_strlit(": not a lane member clock; only a walk lane has one, spelled lanes.<name>.every");
        reveal_strlit(": not a clock this engine can name; a member is voices.<id>.trigger.cycle, voices.<id>.accent.cycle, patterns.<name>.change.every or lanes.<name>.every");
        lemma_segments_nonempty(key@);
    }
    let g = split_dots(key);
    let voice_word = same_text(g[0].as_str(), "voices") || same_text(g[0].as_str(), "parts");
    if g.len() == 4 && voice_word && same_text(g[3].as_str(), "cycle") {
        let velocity = same_text(g[2].as_str(), "velocity");
        let trigger = same_text(g[2].as_str(), "trigger");
        let accent = same_text(g[2].as_str(), "accent");
        if velocity || trigger || accent {
            let k = match voice_index(&s.voices, g[1].as_str()) {
                None => return Ok(Clock::Absent),
                Some(k) => k,
            };
            let v = &s.voices[k];
            if velocity {
                return match v.velocity {
                    None => Err(key_message(key, ": no velocity value pattern")),
                    Some((per_event, ticks)) => Ok(if per_event { Clock::Event } else { Clock::Fixed(ticks) }),
                };
            }
            let period = if trigger { &v.trigger_period } else { &v.accent_period };
            return match period {
                Err(e) => Err(e.clone()),
                Ok(Some(p)) => Ok(Clock::Fixed(*p)),
                Ok(None) => {
                    let mut m = key_message(key, ": the ");
                    m.append(g[2].as_str());
                    m.append(" period does not fit in u64 ticks");
                    Err(m)
                },
            };
        }
    }
    if voice_word {
        return Err(key_message(key, ": a voice's clocks are trigger.cycle, accent.cycle and velocity.cycle; velocity per=event has no fixed transport period"));
    }
    if same_text(g[0].as_str(), "patterns") {
        return Err(key_message(key, ": patterns are not in this engine yet (M1.5), so the key cannot be resolved; it is not guessed"));
    }
    let lanes_word = same_text(g[0].as_str(), "lanes");
    if g.len() == 3 && lanes_word && same_text(g[2].as_str(), "every") {
        let k = match lane_index(&s.lanes, g[1].as_str()) {
            None => return Err(key_message(key, ": unknown shared lane")),
            Some(k) => k,
        };
        return match s.lanes[k].kind {
            LaneKind::Walk { every_ticks } => Ok(Clock::Fixed(every_ticks)),
            LaneKind::Target => Err(key_message(key, ": target lanes have no member clock in this engine, under this or any other spelling, so the key cannot be resolved; it is not guessed")),
        };
    }
    if lanes_word {
        return Err(key_message(key, ": not a lane member clock; only a walk lane has one, spelled lanes.<name>.every"));
    }
    Err(key_message(key, ": not a clock this engine can name; a member is voices.<id>.trigger.cycle, voices.<id>.accent.cycle, patterns.<name>.change.every or lanes.<name>.every"))
}

/// The clocks of the first `n` members, or the first member's refusal under the group's name.
pub open spec fn resolved_clocks(s: ClockScope, name: Seq<char>, members: Seq<String>, n: int) -> Result<Seq<Clock>, Seq<char>>
    decreases n,
{
    if n <= 0 {
        Ok(Seq::empty())
    } else {
        match resolved_clocks(s, name, members, n - 1) {
            Err(e) => Err(e),
            Ok(prev) => match member_clock_of(s, members[n - 1]@) {
                Err(e) => Err("returns."@ + name + ": "@ + e),
                Ok(c) => Ok(prev.push(c)),
            },
        }
    }
}

/// Resolving gives one clock per member.
pub proof fn lemma_resolved_len(s: ClockScope, name: Seq<char>, members: Seq<String>, n: int)
    requires
        0 <= n,
    ensures
        resolved_clocks(s, name, members, n) matches Ok(cs) ==> cs.len() == n,
    decreases n,
{
    if n > 0 {
        lemma_resolved_len(s, name, members, n - 1);
    }
}

proof fn lemma_clock_refusal_stays(s: ClockScope, name: Seq<char>, members: Seq<String>, n: int, m: int)
    requires
        n <= m,
        resolved_clocks(s, name, members, n) is Err,
    ensures
        resolved_clocks(s, name, members, m) == resolved_clocks(s, name, members, n),
    decreases m - n,
{
    if n < m {
        lemma_clock_refusal_stays(s, name, members, n, m - 1);
    }
}

impl ReturnGroup {
    /// Every member's clock in one composition, in authored order, each with its key.
    pub fn resolve<'a>(&'a self, s: &ClockScope, name: &str) -> (r: Result<Vec<(&'a str, Clock)>, String>)
        ensures
            match resolved_clocks(*s, name@, self.members@, self.members@.len() as int) {
                Ok(cs) => r matches Ok(v) && v@.len() == cs.len()
                    && forall|i: int| 0 <= i < cs.len() ==> (#[trigger] v@[i]).1 == cs[i] && v@[i].0@ == self.members@[i]@,
                Err(m) => r matches Err(e) && e@ == m,
            },
    {
        let mut out: Vec<(&'a str, Clock)> = Vec::new();
        let mut i: usize = 0;
        while i < self.members.len()
            invariant
                i <= self.members@.len(),
                resolved_clocks(*s, name@, self.members@, i as int) matches Ok(cs) && out@.len() == cs.len()
                    && forall|j: int| 0 <= j < cs.len() ==> (#[trigger] out@[j]).1 == cs[j] && out@[j].0@ == self.members@[j]@,
                out@.len() == i,
            decreases self.members@.len() - i,
        {
            let key = self.members[i].as_str();
            match member_clock(s, key) {
                Err(e) => {
                    let mut m = String::from_str("returns.");
                    m.append(name);
                    m.append(": ");
                    m.append(e.as_str());
                    proof {
                        reveal_strlit("returns.");
                        reveal_strlit(": ");
                        assert(m@ =~= "returns."@ + name@ + ": "@ + e@);
                        lemma_clock_refusal_stays(*s, name@, self.members@, i + 1, self.members@.len() as int);
                    }
                    return Err(m);
                },
                Ok(c) => {
                    out.push((key, c));
                },
            }
            i += 1;
        }
        Ok(out)
    }

    /// The group's period against the piece: the checked lcm of every member, all present.
    pub fn period_ticks(&self, s: &ClockScope, name: &str) -> (r: Result<u64, String>)
        ensures
            match resolved_clocks(*s, name@, self.members@, self.members@.len() as int) {
                Err(m) => r matches Err(e) && e@ == m,
                Ok(cs) => match fixed_clocks(name@, member_clocks(self.members@, cs), 0, false, Seq::empty()) {
                    Err(m) => r matches Err(e) && e@ == m,
                    Ok(fixed) => match lcm_from(name@, fixed, 0, 1) {
                        Ok(p) => r == Ok::<u64, String>(p as u64),
                        Err(m) => r matches Err(e) && e@ == m,
                    },
                },
            },
    {
        let clocks = match self.resolve(s, name) {
            Err(e) => return Err(e),
            Ok(c) => c,
        };
        proof {
            let cs = resolved_clocks(*s, name@, self.members@, self.members@.len() as int)->Ok_0;
            assert(keyed(clocks@) =~= member_clocks(self.members@, cs));
        }
        ReturnGroup::period_from(name, clocks.as_slice(), false)
    }
}

/// Each member's key with its clock.
pub open spec fn member_clocks(members: Seq<String>, cs: Seq<Clock>) -> Seq<(Seq<char>, Clock)> {
    Seq::new(cs.len(), |i: int| (members[i]@, cs[i]))
}

} // verus!
