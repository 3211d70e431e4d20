//! Step notation: the literal rhythm/value leaf. The grammar is closed — a construct it does
//! not list is a parse error, not a feature. Positions are exact rationals over one cycle;
//! ticks are taken only at the very end, by floor.
use vstd::prelude::*;

pub mod bounds;
pub mod decimal;
pub mod grammar;
pub mod marks;
pub mod parser;
pub mod pattern;
pub mod period;
pub mod render;
pub mod size;

pub use pattern::Pattern;


use super::ratio::Ratio;

verus! {

/// What a step says. Rests never reach an `Event`. A number keeps the exact decimal text it
/// was written with.
#[derive(Clone, Debug, PartialEq)]
pub enum Token {
    Hit,
    Number(String),
    Note { name: String, midi: u8 },
    Name(String),
}

/// A token with its text as characters.
pub enum TokenV {
    Hit,
    Number(Seq<char>),
    Note { name: Seq<char>, midi: u8 },
    Name(Seq<char>),
}

impl View for Token {
    type V = TokenV;

    open spec fn view(&self) -> TokenV {
        match self {
            Token::Hit => TokenV::Hit,
            Token::Number(t) => TokenV::Number(t@),
            Token::Note { name, midi } => TokenV::Note { name: name@, midi: *midi },
            Token::Name(n) => TokenV::Name(n@),
        }
    }
}

impl Token {
    pub fn copy(&self) -> (t: Token)
        ensures
            t@ == self@,
    {
        match self {
            Token::Hit => Token::Hit,
            Token::Number(s) => Token::Number(s.clone()),
            Token::Note { name, midi } => Token::Note { name: name.clone(), midi: *midi },
            Token::Name(n) => Token::Name(n.clone()),
        }
    }
}

/// Where a `?` puts its draw: on the hit itself, or on a ratchet's tail.
#[derive(Clone, Copy, Debug, Eq, PartialEq, Structural)]
pub enum Draw {
    /// No `?` reaches this event.
    NoDraw,
    Hit,
    Tail,
}

/// One sounding position in a cycle, in exact cycle fractions.
#[derive(Clone, Debug, PartialEq)]
pub struct Event {
    pub onset: Ratio,
    pub span: Ratio,
    pub token: Token,
    /// Ratchet count over `span`; 1 means no ratchet.
    pub ratchet: u8,
    pub draw: Draw,
}

/// The same event placed on the tick grid, tails resolved.
#[derive(Clone, Debug, PartialEq)]
pub struct TickEvent {
    pub tick: u64,
    pub span_ticks: u64,
    pub token: Token,
    pub ratchet: u8,
    pub draw: Draw,
    pub tails: Vec<u64>,
}

/// Which token kinds a pattern contains, so a consumer can refuse a mismatch at load.
#[derive(Clone, Copy, Debug, Default, Eq, PartialEq, Structural)]
pub struct TokenKinds {
    pub hits: bool,
    pub numbers: bool,
    pub notes: bool,
    pub names: bool,
}

/// What a pattern is made of, for a consumer deciding at load whether it can walk it.
#[derive(Clone, Debug, Default, PartialEq)]
pub struct Shape {
    pub tokens: Vec<Token>,
    /// Any `,` anywhere: simultaneous values.
    pub stacked: bool,
    /// Any `*n` anywhere.
    pub ratchet: bool,
    /// Any `?` anywhere.
    pub draw: bool,
}

/// A Euclidean modifier `(pulses, steps, rotate)` on a step.
#[derive(Clone, Copy, Debug, PartialEq, Eq, Structural)]
pub struct Euclid {
    pub pulses: u64,
    pub steps: u64,
    pub rotate: i64,
}

/// The material of one step.
#[derive(Debug)]
pub enum Atom {
    Rest,
    Token(Token),
    /// `[ ]` — one or more sequences over the same span.
    Stack(Vec<Vec<Step>>),
    /// `< >` — element `k mod n` takes the whole span.
    Alt(Vec<Step>),
    /// `{ }%n` — `per_cycle` elements per span, element `(k*n + j) mod m`.
    Poly { steps: Vec<Step>, per_cycle: u64 },
}

/// One step: its material and the modifiers written after it.
#[derive(Debug)]
pub struct Step {
    pub atom: Atom,
    pub weight: Option<Ratio>,
    pub ratchet: Option<u8>,
    pub draw: bool,
    pub euclid: Option<Euclid>,
}

/// The material of one step, as a value.
pub enum AtomV {
    Rest,
    Token(TokenV),
    Stack(Seq<Seq<StepV>>),
    Alt(Seq<StepV>),
    Poly { steps: Seq<StepV>, per_cycle: u64 },
}

/// One step, as a value.
pub struct StepV {
    pub atom: AtomV,
    pub weight: Option<Ratio>,
    pub ratchet: Option<u8>,
    pub draw: bool,
    pub euclid: Option<Euclid>,
}

pub open spec fn default_step_v() -> StepV {
    StepV { atom: AtomV::Rest, weight: None, ratchet: None, draw: false, euclid: None }
}

pub open spec fn atom_view(a: Atom) -> AtomV
    decreases a,
{
    match a {
        Atom::Rest => AtomV::Rest,
        Atom::Token(t) => AtomV::Token(t@),
        Atom::Stack(seqs) => AtomV::Stack(
            Seq::new(
                seqs@.len(),
                |i: int|
                    if 0 <= i < seqs@.len() {
                        Seq::new(
                            seqs@[i]@.len(),
                            |j: int|
                                if 0 <= j < seqs@[i]@.len() {
                                    step_view(seqs@[i]@[j])
                                } else {
                                    default_step_v()
                                },
                        )
                    } else {
                        Seq::empty()
                    },
            ),
        ),
        Atom::Alt(elems) => AtomV::Alt(
            Seq::new(
                elems@.len(),
                |i: int| if 0 <= i < elems@.len() { step_view(elems@[i]) } else { default_step_v() },
            ),
        ),
        Atom::Poly { steps, per_cycle } => AtomV::Poly {
            steps: Seq::new(
                steps@.len(),
                |i: int| if 0 <= i < steps@.len() { step_view(steps@[i]) } else { default_step_v() },
            ),
            per_cycle,
        },
    }
}

pub open spec fn step_view(s: Step) -> StepV
    decreases s,
{
    StepV {
        atom: atom_view(s.atom),
        weight: s.weight,
        ratchet: s.ratchet,
        draw: s.draw,
        euclid: s.euclid,
    }
}

/// A sequence of steps, as values.
pub open spec fn seq_view(v: Seq<Step>) -> Seq<StepV> {
    Seq::new(v.len(), |i: int| step_view(v[i]))
}

/// A stack of sequences, as values.
pub open spec fn stack_view(v: Seq<Vec<Step>>) -> Seq<Seq<StepV>> {
    Seq::new(v.len(), |i: int| seq_view(v[i]@))
}

pub proof fn lemma_stack_view(seqs: Vec<Vec<Step>>)
    ensures
        atom_view(Atom::Stack(seqs)) == AtomV::Stack(stack_view(seqs@)),
{
    let a = atom_view(Atom::Stack(seqs));
    if let AtomV::Stack(x) = a {
        assert forall|i: int| 0 <= i < seqs@.len() implies #[trigger] x[i] =~= stack_view(seqs@)[i] by {
            assert forall|j: int| 0 <= j < x[i].len() implies x[i][j] == stack_view(seqs@)[i][j] by {}
        }
        assert(x =~= stack_view(seqs@));
    }
}

pub proof fn lemma_alt_view(elems: Vec<Step>)
    ensures
        atom_view(Atom::Alt(elems)) == AtomV::Alt(seq_view(elems@)),
{
    let a = atom_view(Atom::Alt(elems));
    if let AtomV::Alt(x) = a {
        assert(x =~= seq_view(elems@));
    }
}

pub proof fn lemma_poly_view(steps: Vec<Step>, per_cycle: u64)
    ensures
        atom_view(Atom::Poly { steps, per_cycle }) == (AtomV::Poly { steps: seq_view(steps@), per_cycle }),
{
    let a = atom_view(Atom::Poly { steps, per_cycle });
    if let AtomV::Poly { steps: x, .. } = a {
        assert(x =~= seq_view(steps@));
    }
}

} // verus!
