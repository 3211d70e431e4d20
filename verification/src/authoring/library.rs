//! Gaps a kit leaves open, and the refusal every playback door gives while one exists.
use vstd::prelude::*;

use crate::text::{debug_str, decimal, push_decimal, quoted};

verus! {

/// A voice whose instrument declared nothing, listed so the draft can still be inspected.
///
/// An instrument may declare an output with no controls table at all. That instrument has
/// declared nothing about what it can hear, so a Part bound to it that still carries parameter
/// lanes or profile controls lands them nowhere. That is a gap, not an error: validation lists
/// it and goes on without those controls; every playback door refuses the piece while one
/// exists.
#[derive(Clone, Debug, PartialEq, Eq, PartialOrd, Ord)]
pub struct Gap {
    pub part: String,
    pub instrument: String,
    pub controls: Vec<String>,
}

/// The texts of `items`, joined by `sep`.
pub open spec fn joined(items: Seq<Seq<char>>, sep: Seq<char>) -> Seq<char>
    decreases items.len(),
{
    if items.len() == 0 {
        Seq::empty()
    } else if items.len() == 1 {
        items[0]
    } else {
        joined(items.drop_last(), sep) + sep + items.last()
    }
}

pub open spec fn strings_view(v: Seq<String>) -> Seq<Seq<char>> {
    Seq::new(v.len(), |i: int| v[i]@)
}

/// What a gap says.
pub open spec fn gap_text(g: Gap) -> Seq<char> {
    "Part "@ + debug_str(g.part@) + ": instrument "@ + debug_str(g.instrument@) + " declares no controls, so "@
        + joined(strings_view(g.controls@), ", "@) + " lands nowhere"@
}

/// The refusal for a non-empty list of gaps.
pub open spec fn refusal(gaps: Seq<Gap>) -> Seq<char> {
    decimal(gaps.len()) + " unbound control"@ + (if gaps.len() == 1 { ""@ } else { "s"@ })
        + "; inspect or validate the draft, or declare the controls in the kit before playing: "@
        + joined(Seq::new(gaps.len(), |i: int| gap_text(gaps[i])), "; "@)
}

/// Appends the pieces of `items` with `sep` between them.
pub(crate) fn push_joined(out: &mut String, items: &Vec<String>, sep: &str)
    ensures
        final(out)@ == old(out)@ + joined(strings_view(items@), sep@),
{
    let ghost start = out@;
    let ghost all = strings_view(items@);
    let mut i: usize = 0;
    proof {
        assert(all.subrange(0, 0) =~= Seq::<Seq<char>>::empty());
    }
    while i < items.len()
        invariant
            i <= items@.len(),
            all == strings_view(items@),
            out@ == start + joined(all.subrange(0, i as int), sep@),
        decreases items@.len() - i,
    {
        let ghost before = all.subrange(0, i as int);
        let ghost after = all.subrange(0, i + 1);
        proof {
            assert(after.drop_last() =~= before);
            assert(after.last() == items@[i as int]@);
        }
        if i > 0 {
            out.append(sep);
        }
        out.append(items[i].as_str());
        proof {
            if i == 0 {
                assert(after.len() == 1);
                assert(out@ =~= start + joined(after, sep@));
            } else {
                assert(out@ =~= start + joined(after, sep@));
            }
        }
        i += 1;
    }
    proof {
        assert(all.subrange(0, items@.len() as int) =~= all);
    }
}

impl Gap {
    /// What this gap says; the text a list of gaps is refused with.
    pub fn describe(&self) -> (r: String)
        ensures
            r@ == gap_text(*self),
    {
        let mut m = String::from_str("Part ");
        let part = quoted(self.part.as_str());
        m.append(part.as_str());
        m.append(": instrument ");
        let instrument = quoted(self.instrument.as_str());
        m.append(instrument.as_str());
        m.append(" declares no controls, so ");
        push_joined(&mut m, &self.controls, ", ");
        m.append(" lands nowhere");
        proof {
            reveal_strlit("Part ");
            reveal_strlit(": instrument ");
            reveal_strlit(" declares no controls, so ");
            reveal_strlit(", ");
            reveal_strlit(" lands nowhere");
            assert(m@ =~= gap_text(*self));
        }
        m
    }
}

/// A gap never authorises playback: the draft can be read, not sounded.
pub fn refuse(gaps: &[Gap]) -> (r: Result<(), String>)
    ensures
        gaps@.len() == 0 ==> r is Ok,
        gaps@.len() > 0 ==> (r matches Err(e) && e@ == refusal(gaps@)),
{
    if gaps.len() == 0 {
        return Ok(());
    }
    let mut m = String::new();
    push_decimal(&mut m, gaps.len() as u128);
    m.append(" unbound control");
    if gaps.len() != 1 {
        m.append("s");
    }
    m.append("; inspect or validate the draft, or declare the controls in the kit before playing: ");
    let ghost start = m@;
    let ghost texts = Seq::new(gaps@.len(), |i: int| gap_text(gaps@[i]));
    let mut i: usize = 0;
    proof {
        assert(texts.subrange(0, 0) =~= Seq::<Seq<char>>::empty());
        assert(m@ =~= start + joined(texts.subrange(0, 0), "; "@));
    }
    while i < gaps.len()
        invariant
            i <= gaps@.len(),
            texts == Seq::new(gaps@.len(), |i: int| gap_text(gaps@[i])),
            m@ == start + joined(texts.subrange(0, i as int), "; "@),
        decreases gaps@.len() - i,
    {
        let ghost before = texts.subrange(0, i as int);
        let ghost after = texts.subrange(0, i + 1);
        proof {
            assert(after.drop_last() =~= before);
            assert(after.last() == gap_text(gaps@[i as int]));
            reveal_strlit("; ");
        }
        if i > 0 {
            m.append("; ");
        }
        let text = gaps[i].describe();
        m.append(text.as_str());
        proof {
            assert(m@ =~= start + joined(after, "; "@));
        }
        i += 1;
    }
    proof {
        reveal_strlit(" unbound control");
        reveal_strlit("s");
        reveal_strlit("");
        reveal_strlit("; inspect or validate the draft, or declare the controls in the kit before playing: ");
        assert(texts.subrange(0, gaps@.len() as int) =~= texts);
        assert(m@ =~= refusal(gaps@));
    }
    Err(m)
}

} // verus!
