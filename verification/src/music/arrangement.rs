//! The layout of an arrangement: a bounded sequence of sections, each some bars of sixteenth
//! steps, played once or repeated. Locating a transport step names the section, the step
//! inside it, and the step its music reads.
use vstd::prelude::*;

use super::Output;
use crate::text::{blank, debug_str, is_blank, quoted, same_text};

verus! {

#[derive(Clone, Copy, Debug, Default, PartialEq, Eq, Structural)]
pub enum PhasePolicy {
    /// The section's material starts from its own first step.
    #[default]
    Restart,
    /// The material keeps the transport's phase.
    Continue,
}

/// Where the transport is in the arrangement, for display.
#[derive(Clone, Debug)]
pub struct SectionPosition {
    pub phrase: String,
    /// One-based.
    pub index: usize,
    pub count: usize,
    pub cycle: u64,
    /// One-based.
    pub bar: u64,
    pub bars: u32,
    pub phase: PhasePolicy,
}

/// One section of an arrangement, without its music.
#[derive(Clone, Debug)]
pub struct SectionLayout {
    pub phrase: String,
    pub bars: u32,
    pub phase: PhasePolicy,
}

/// The sections of an arrangement, and whether it repeats.
#[derive(Clone, Debug)]
pub struct Layout {
    pub repeat: bool,
    pub sections: Vec<SectionLayout>,
}

/// A located step: the section (zero-based), where it began, and the steps inside it.
#[derive(Clone, Debug)]
pub struct Located {
    pub section: usize,
    pub start_step: u64,
    pub local_step: u64,
    /// The step the section's music reads: its local step when it restarts, else the
    /// transport step.
    pub musical_step: u64,
    pub position: SectionPosition,
}

/// Steps of section `s`: sixteen per bar.
pub open spec fn section_steps(s: SectionLayout) -> nat {
    s.bars as nat * 16
}

/// Steps before section `i`.
pub open spec fn offset(secs: Seq<SectionLayout>, i: int) -> nat
    decreases i,
{
    if i <= 0 || i > secs.len() {
        0
    } else {
        offset(secs, i - 1) + section_steps(secs[i - 1])
    }
}

/// Steps in the whole arrangement.
pub open spec fn total_steps(secs: Seq<SectionLayout>) -> nat {
    offset(secs, secs.len() as int)
}

/// Offsets grow with the section index.
pub proof fn lemma_offset_monotone(secs: Seq<SectionLayout>, i: int, j: int)
    requires
        0 <= i <= j <= secs.len(),
    ensures
        offset(secs, i) <= offset(secs, j),
    decreases j - i,
{
    if i < j {
        lemma_offset_monotone(secs, i, j - 1);
    }
}

impl Layout {
    /// Steps in the whole arrangement.
    pub fn steps(&self) -> (r: u64)
        requires
            total_steps(self.sections@) <= u64::MAX,
        ensures
            r == total_steps(self.sections@),
    {
        let mut total: u64 = 0;
        let mut i: usize = 0;
        while i < self.sections.len()
            invariant
                i <= self.sections@.len(),
                total == offset(self.sections@, i as int),
                total_steps(self.sections@) <= u64::MAX,
            decreases self.sections@.len() - i,
        {
            proof {
                lemma_offset_monotone(self.sections@, i + 1, self.sections@.len() as int);
            }
            total = total + (self.sections[i].bars as u64) * 16;
            i += 1;
        }
        total
    }

    /// Where `step` falls: none past the end of an arrangement that does not repeat.
    pub fn locate(&self, step: u64) -> (r: Option<Located>)
        requires
            total_steps(self.sections@) <= u64::MAX,
            self.repeat ==> total_steps(self.sections@) > 0,
        ensures
            r is None <==> (!self.repeat && step >= total_steps(self.sections@)),
            r matches Some(l) ==> {
                let length = total_steps(self.sections@);
                let local = (step as nat) % length;
                let s = self.sections@[l.section as int];
                &&& l.section < self.sections@.len()
                &&& offset(self.sections@, l.section as int) <= local < offset(self.sections@, l.section + 1)
                &&& l.local_step == local - offset(self.sections@, l.section as int)
                &&& l.start_step == step - l.local_step
                &&& l.musical_step == (if s.phase == PhasePolicy::Restart { l.local_step } else { step })
                &&& l.position.phrase@ == s.phrase@
                &&& l.position.index == l.section + 1
                &&& l.position.count == self.sections@.len()
                &&& l.position.cycle == (step as nat) / length
                &&& l.position.bar == l.local_step / 16 + 1
                &&& l.position.bars == s.bars
                &&& l.position.phase == s.phase
            },
    {
        let length = self.steps();
        if !self.repeat && step >= length {
            return None;
        }
        let cycle = step / length;
        let local = step % length;
        let mut rest = local;
        let mut i: usize = 0;
        while i < self.sections.len()
            invariant
                i <= self.sections@.len(),
                length == total_steps(self.sections@),
                length > 0,
                local == step % length,
                local < length,
                cycle == step / length,
                self.repeat || step < length,
                offset(self.sections@, i as int) <= local,
                rest == local - offset(self.sections@, i as int),
            decreases self.sections@.len() - i,
        {
            let s = &self.sections[i];
            let steps = (s.bars as u64) * 16;
            if rest < steps {
                let position = SectionPosition {
                    phrase: s.phrase.clone(),
                    index: i + 1,
                    count: self.sections.len(),
                    cycle,
                    bar: rest / 16 + 1,
                    bars: s.bars,
                    phase: s.phase,
                };
                proof {
                    vstd::arithmetic::div_mod::lemma_fundamental_div_mod(step as int, length as int);
                    assert(rest <= step);
                }
                let musical_step = match s.phase {
                    PhasePolicy::Restart => rest,
                    PhasePolicy::Continue => step,
                };
                return Some(Located { section: i, start_step: step - rest, local_step: rest, musical_step, position });
            }
            rest = rest - steps;
            i += 1;
        }
        proof {
            assert(offset(self.sections@, self.sections@.len() as int) == length);
        }
        None
    }
}

/// A section as the arrangement's load check sees it: its layout, whether its composition
/// carries an arrangement of its own, whether it plays at the piece's tempo, and what its
/// composition's own check reported.
pub struct SectionCheck {
    pub layout: SectionLayout,
    pub nested: bool,
    pub same_tempo: bool,
    pub composition: Result<(), String>,
}

/// The first failing check of section `s`.
pub open spec fn section_check(s: SectionCheck) -> Result<(), Seq<char>> {
    if blank(s.layout.phrase@) || !(1 <= s.layout.bars <= 65536) {
        Err("section requires a phrase name and bars 1..65536"@)
    } else if s.nested {
        Err("nested arrangements are not supported"@)
    } else if !s.same_tempo {
        Err("all arrangement phrases must use the same tempo"@)
    } else {
        match s.composition {
            Err(e) => Err("phrase "@ + debug_str(s.layout.phrase@) + ": "@ + e@),
            Ok(()) => Ok(()),
        }
    }
}

pub open spec fn sections_check(secs: Seq<SectionCheck>, n: int) -> Result<(), Seq<char>>
    decreases n,
{
    if n <= 0 {
        Ok(())
    } else {
        match sections_check(secs, n - 1) {
            Err(e) => Err(e),
            Ok(()) => section_check(secs[n - 1]),
        }
    }
}

pub open spec fn layouts_of(secs: Seq<SectionCheck>) -> Seq<SectionLayout> {
    Seq::new(secs.len(), |i: int| secs[i].layout)
}

/// An arrangement's load check: 1 to 64 sections, each passing its own check in order, and at
/// most 65536 bars in all.
pub open spec fn arrangement_check(secs: Seq<SectionCheck>) -> Result<(), Seq<char>> {
    if secs.len() == 0 || secs.len() > 64 {
        Err("arrangement requires 1..64 sections"@)
    } else {
        match sections_check(secs, secs.len() as int) {
            Err(e) => Err(e),
            Ok(()) => if total_steps(layouts_of(secs)) > 65536 * 16 {
                Err("arrangement exceeds 65536 bars"@)
            } else {
                Ok(())
            },
        }
    }
}

proof fn lemma_sections_refusal_stays(secs: Seq<SectionCheck>, n: int, m: int)
    requires
        n <= m,
        sections_check(secs, n) is Err,
    ensures
        sections_check(secs, m) == sections_check(secs, n),
    decreases m - n,
{
    if n < m {
        lemma_sections_refusal_stays(secs, n, m - 1);
    }
}

/// Checks an arrangement's sections at load.
pub fn validate_arrangement(sections: &Vec<SectionCheck>) -> (r: Result<(), String>)
    ensures
        match arrangement_check(sections@) {
            Ok(()) => r is Ok,
            Err(m) => r matches Err(e) && e@ == m,
        },
{
    proof {
        reveal_strlit("arrangement requires 1..64 sections");
        reveal_strlit("section requires a phrase name and bars 1..65536");
        reveal_strlit("nested arrangements are not supported");
        reveal_strlit("all arrangement phrases must use the same tempo");
        reveal_strlit("phrase ");
        reveal_strlit(": ");
        reveal_strlit("arrangement exceeds 65536 bars");
    }
    if sections.len() == 0 || sections.len() > 64 {
        return Err(String::from_str("arrangement requires 1..64 sections"));
    }
    let ghost ls = layouts_of(sections@);
    let mut total: u64 = 0;
    let mut i: usize = 0;
    while i < sections.len()
        invariant
            0 < sections@.len() <= 64,
            ls == layouts_of(sections@),
            i <= sections@.len(),
            sections_check(sections@, i as int) is Ok,
            total == offset(ls, i as int),
            total <= i * 1048576,
        decreases sections@.len() - i,
    {
        let s = &sections[i];
        proof {
            assert(ls[i as int] == s.layout);
        }
        if is_blank(s.layout.phrase.as_str()) || !(1 <= s.layout.bars && s.layout.bars <= 65536) {
            proof {
                lemma_sections_refusal_stays(sections@, i + 1, sections@.len() as int);
            }
            return Err(String::from_str("section requires a phrase name and bars 1..65536"));
        }
        if s.nested {
            proof {
                lemma_sections_refusal_stays(sections@, i + 1, sections@.len() as int);
            }
            return Err(String::from_str("nested arrangements are not supported"));
        }
        if !s.same_tempo {
            proof {
                lemma_sections_refusal_stays(sections@, i + 1, sections@.len() as int);
            }
            return Err(String::from_str("all arrangement phrases must use the same tempo"));
        }
        match &s.composition {
            Err(e) => {
                let mut m = String::from_str("phrase ");
                let q = quoted(s.layout.phrase.as_str());
                m.append(q.as_str());
                m.append(": ");
                m.append(e.as_str());
                proof {
                    assert(m@ =~= "phrase "@ + debug_str(s.layout.phrase@) + ": "@ + e@);
                    lemma_sections_refusal_stays(sections@, i + 1, sections@.len() as int);
                }
                return Err(m);
            },
            Ok(()) => {},
        }
        proof {
            assert(total + s.layout.bars * 16 <= (i + 1) * 1048576) by (nonlinear_arith)
                requires
                    total <= i * 1048576,
                    s.layout.bars <= 65536;
            assert((i + 1) * 1048576 <= 64 * 1048576) by (nonlinear_arith)
                requires
                    i < 64;
        }
        total = total + (s.layout.bars as u64) * 16;
        i += 1;
    }
    if total > 65536 * 16 {
        return Err(String::from_str("arrangement exceeds 65536 bars"));
    }
    Ok(())
}

impl Layout {
    /// The step at which a run of this arrangement ends: none when it repeats.
    pub fn end_step(&self) -> (r: Option<u64>)
        requires
            total_steps(self.sections@) <= u64::MAX,
        ensures
            r == (if self.repeat { None } else { Some(total_steps(self.sections@) as u64) }),
    {
        if self.repeat {
            None
        } else {
            Some(self.steps())
        }
    }
}

/// What a section fixes for a whole run: its layout, its composition's phrase length, and the
/// id and output of each of its Parts, in order.
#[derive(Clone, Debug)]
pub struct SectionShape {
    pub layout: SectionLayout,
    pub phrase_bars: u32,
    pub parts: Vec<(String, Output)>,
}

/// What an arrangement fixes for a whole run.
#[derive(Clone, Debug)]
pub struct Shape {
    pub repeat: bool,
    pub sections: Vec<SectionShape>,
}

pub open spec fn same_parts(a: Seq<(String, Output)>, b: Seq<(String, Output)>) -> bool {
    &&& a.len() == b.len()
    &&& forall|i: int| 0 <= i < a.len() ==> (#[trigger] a[i]).0@ == b[i].0@ && a[i].1 == b[i].1
}

pub open spec fn same_section(a: SectionShape, b: SectionShape) -> bool {
    &&& a.layout.phrase@ == b.layout.phrase@
    &&& a.layout.bars == b.layout.bars
    &&& a.layout.phase == b.layout.phase
    &&& a.phrase_bars == b.phrase_bars
    &&& same_parts(a.parts@, b.parts@)
}

/// Two arrangements share a layout when they repeat alike and their sections agree one for
/// one in phrase, bars, phase policy, phrase length, and Part ids and outputs.
pub open spec fn same_shape(a: Shape, b: Shape) -> bool {
    &&& a.repeat == b.repeat
    &&& a.sections@.len() == b.sections@.len()
    &&& forall|i: int| 0 <= i < a.sections@.len() ==> same_section(#[trigger] a.sections@[i], b.sections@[i])
}

fn same_parts_exec(a: &Vec<(String, Output)>, b: &Vec<(String, Output)>) -> (r: bool)
    ensures
        r == same_parts(a@, b@),
{
    if a.len() != b.len() {
        return false;
    }
    let mut i: usize = 0;
    while i < a.len()
        invariant
            i <= a@.len(),
            a@.len() == b@.len(),
            forall|j: int| 0 <= j < i ==> (#[trigger] a@[j]).0@ == b@[j].0@ && a@[j].1 == b@[j].1,
        decreases a@.len() - i,
    {
        if !same_text(a[i].0.as_str(), b[i].0.as_str()) || a[i].1 != b[i].1 {
            return false;
        }
        i += 1;
    }
    true
}

impl Shape {
    /// Whether a reload may keep the running arrangement's layout: structural and routing
    /// edits need a restart, musical ones do not.
    pub fn same_layout(&self, other: &Shape) -> (r: bool)
        ensures
            r == same_shape(*self, *other),
    {
        if self.repeat != other.repeat || self.sections.len() != other.sections.len() {
            return false;
        }
        let mut i: usize = 0;
        while i < self.sections.len()
            invariant
                i <= self.sections@.len(),
                self.repeat == other.repeat,
                self.sections@.len() == other.sections@.len(),
                forall|j: int| 0 <= j < i ==> same_section(#[trigger] self.sections@[j], other.sections@[j]),
            decreases self.sections@.len() - i,
        {
            let a = &self.sections[i];
            let b = &other.sections[i];
            if !same_text(a.layout.phrase.as_str(), b.layout.phrase.as_str()) || a.layout.bars != b.layout.bars
                || a.layout.phase != b.layout.phase || a.phrase_bars != b.phrase_bars || !same_parts_exec(&a.parts, &b.parts) {
                return false;
            }
            i += 1;
        }
        true
    }
}

/// Whether two compositions share an arrangement layout: both without one, or both with the
/// same one.
pub open spec fn same_arrangement(a: Option<Shape>, b: Option<Shape>) -> bool {
    match (a, b) {
        (None, None) => true,
        (Some(x), Some(y)) => same_shape(x, y),
        _ => false,
    }
}

pub fn same_arrangement_layout(a: &Option<Shape>, b: &Option<Shape>) -> (r: bool)
    ensures
        r == same_arrangement(*a, *b),
{
    match (a, b) {
        (None, None) => true,
        (Some(x), Some(y)) => x.same_layout(y),
        _ => false,
    }
}

/// Sharing a layout is an equivalence: every arrangement shares its own, and the relation
/// holds both ways and carries over.
pub proof fn lemma_same_layout_equivalence(a: Shape, b: Shape, c: Shape)
    ensures
        same_shape(a, a),
        same_shape(a, b) ==> same_shape(b, a),
        same_shape(a, b) && same_shape(b, c) ==> same_shape(a, c),
{
    if same_shape(a, b) {
        assert forall|i: int| 0 <= i < b.sections@.len() implies same_section(#[trigger] b.sections@[i], a.sections@[i]) by {
            assert(same_section(a.sections@[i], b.sections@[i]));
            let (x, y) = (a.sections@[i].parts@, b.sections@[i].parts@);
            assert forall|k: int| 0 <= k < y.len() implies (#[trigger] y[k]).0@ == x[k].0@ && y[k].1 == x[k].1 by {
                assert(x[k].0@ == y[k].0@);
            }
        }
        if same_shape(b, c) {
            assert forall|i: int| 0 <= i < a.sections@.len() implies same_section(#[trigger] a.sections@[i], c.sections@[i]) by {
                assert(same_section(a.sections@[i], b.sections@[i]));
                assert(same_section(b.sections@[i], c.sections@[i]));
                let (x, y, z) = (a.sections@[i].parts@, b.sections@[i].parts@, c.sections@[i].parts@);
                assert forall|k: int| 0 <= k < x.len() implies (#[trigger] x[k]).0@ == z[k].0@ && x[k].1 == z[k].1 by {
                    assert(x[k].0@ == y[k].0@);
                    assert(y[k].0@ == z[k].0@);
                }
            }
        }
    }
}

} // verus!
