//! Turning authored pins into the addresses their draws hash. A pin names its dice in the
//! author's words (a roll, an owner, a 1-based bar and slot); resolving it checks each word
//! against the piece and yields the exact address, or says which word is wrong.
use vstd::prelude::*;

use super::{Address, PinAt};
use crate::music::ProbabilityMode;
use crate::text::{debug_str, decimal, push_decimal, quoted, same_text};

verus! {

/// The most pins one composition may carry.
pub const MAX_PINS: usize = 256;
/// The latest bar a pin may name.
pub const MAX_PIN_BAR: u64 = 10000000;

/// A voice as a pin sees it: its id, its grid cell in ticks, and the probability mode each of
/// its dice hashes under; none where the voice has no such dice (no ratchet, no flam, a default
/// groove that draws no ghost). `draws_velocity` says whether its groove draws the velocity
/// humanisation at all.
#[derive(Clone, Debug, PartialEq)]
pub struct PinVoice {
    pub id: String,
    pub cell: u64,
    pub trigger_mode: ProbabilityMode,
    pub accent_mode: ProbabilityMode,
    pub ratchet_mode: Option<ProbabilityMode>,
    pub flam_mode: Option<ProbabilityMode>,
    pub ghost_mode: Option<ProbabilityMode>,
    pub touch_mode: ProbabilityMode,
    pub draws_velocity: bool,
}

/// A shared accent lane's name and mode.
#[derive(Clone, Debug, PartialEq)]
pub struct SharedAccent {
    pub name: String,
    pub mode: ProbabilityMode,
}

/// What pins resolve against: the voices, the shared accent lanes, and the phrase length.
#[derive(Clone, Debug, PartialEq)]
pub struct PinScope {
    pub voices: Vec<PinVoice>,
    pub accents: Vec<SharedAccent>,
    pub phrase_bars: u32,
}

/// An authored pin: where it lands, and whether its forced value `u` is a finite number in
/// `0 <= u < 1`.
#[derive(Clone, Debug, PartialEq)]
pub struct AuthoredPin {
    pub at: PinAt,
    pub u_in_range: bool,
}

pub struct AddressV {
    pub part: Seq<char>,
    pub lane: Seq<char>,
    pub event: u64,
    pub decision: Seq<char>,
}

impl View for Address {
    type V = AddressV;

    open spec fn view(&self) -> AddressV {
        AddressV { part: self.part@, lane: self.lane@, event: self.event, decision: self.decision@ }
    }
}

pub open spec fn addresses_view(v: Seq<Address>) -> Seq<AddressV> {
    Seq::new(v.len(), |i: int| v[i]@)
}

/// The pin as its errors name it.
pub open spec fn shape_of(at: PinAt) -> Seq<char> {
    let owner = match (at.voice, at.accent) {
        (Some(v), _) => "voice "@ + debug_str(v@),
        (None, Some(a)) => "accent "@ + debug_str(a@),
        (None, None) => "no owner"@,
    };
    "pin { roll = "@ + debug_str(at.roll@) + ", "@ + owner + ", bar = "@ + decimal(at.bar as nat) + ", slot = "@
        + decimal(at.slot as nat) + " }"@
}

pub open spec fn ceil_div(a: nat, b: nat) -> nat {
    ((a + b - 1) / (b as int)) as nat
}

/// The event identity a draw at `step` of a grid of `cell` ticks hashes: the step itself when
/// continuous; phrase-locked, its place in the phrase, in steps on the sixteenth grid and in
/// ticks on any other.
pub open spec fn identity_of(phrase_steps: nat, cell: u64, step: nat, mode: ProbabilityMode) -> nat {
    match mode {
        ProbabilityMode::Continuous => step,
        ProbabilityMode::PhraseLocked => if cell == 240 {
            step % phrase_steps
        } else {
            ((step * cell) as nat) % ((phrase_steps * 240) as nat)
        },
    }
}

/// Phrase-locked draws a whole number of phrases apart hash the same identity, so their
/// rolls repeat, on the sixteenth grid and on any other; continuous draws at different steps
/// never hash the same one.
pub proof fn lemma_phrase_locked_repeats(phrase_steps: nat, cell: u64, step: nat, later: nat)
    requires
        phrase_steps > 0,
        cell > 0,
    ensures
        ((later * cell) as nat) % ((phrase_steps * 240) as nat) == 0 ==>
            identity_of(phrase_steps, cell, step + later, ProbabilityMode::PhraseLocked)
                == identity_of(phrase_steps, cell, step, ProbabilityMode::PhraseLocked),
        later > 0 ==> identity_of(phrase_steps, cell, step + later, ProbabilityMode::Continuous)
            != identity_of(phrase_steps, cell, step, ProbabilityMode::Continuous),
{
    let m: int = (phrase_steps * 240) as int;
    if ((later * cell) as nat) % ((phrase_steps * 240) as nat) == 0 {
        let q: int = (later * cell) / m;
        assert(later * cell == m * q) by {
            vstd::arithmetic::div_mod::lemma_fundamental_div_mod(later * cell, m);
        }
        if cell == 240 {
            assert(later == phrase_steps * q) by (nonlinear_arith)
                requires
                    later * 240 == (phrase_steps * 240) * q,
            {}
            vstd::arithmetic::div_mod::lemma_mod_multiples_vanish(q, step as int, phrase_steps as int);
            assert((phrase_steps * q + step) == step + later);
        } else {
            assert((step + later) * cell == m * q + step * cell) by (nonlinear_arith)
                requires
                    later * cell == m * q,
            {}
            vstd::arithmetic::div_mod::lemma_mod_multiples_vanish(q, step * cell, m);
        }
    }
}

/// Why a voice has no dice under a roll name.
pub enum DiceRefusal {
    NoRatchet,
    NoFlam,
    NoGhost,
    NoVelocity,
    Unknown,
}

/// The lane, decision and mode a roll name draws under in voice `v`.
pub open spec fn dice_of(v: PinVoice, roll: Seq<char>) -> Result<(Seq<char>, Seq<char>, ProbabilityMode), DiceRefusal> {
    if roll == "fire"@ {
        Ok(("trigger"@, "admission"@, v.trigger_mode))
    } else if roll == "accent"@ {
        Ok(("accent"@, "admission"@, v.accent_mode))
    } else if roll == "burst"@ {
        match v.ratchet_mode {
            Some(m) => Ok(("ratchet"@, "admission"@, m)),
            None => Err(DiceRefusal::NoRatchet),
        }
    } else if roll == "flam"@ {
        match v.flam_mode {
            Some(m) => Ok(("flam"@, "admission"@, m)),
            None => Err(DiceRefusal::NoFlam),
        }
    } else if roll == "ghost"@ {
        match v.ghost_mode {
            Some(m) => Ok(("groove"@, "ghost"@, m)),
            None => Err(DiceRefusal::NoGhost),
        }
    } else if roll == "timing"@ {
        Ok(("groove"@, "humanize_timing"@, v.touch_mode))
    } else if roll == "velocity"@ {
        if v.draws_velocity {
            Ok(("groove"@, "humanize_velocity"@, v.touch_mode))
        } else {
            Err(DiceRefusal::NoVelocity)
        }
    } else {
        Err(DiceRefusal::Unknown)
    }
}

/// Each roll a voice can pin draws its own dice: two different roll names that both resolve
/// draw under different lanes or decisions. An ornament's roll draws under that ornament's
/// lane and only when the voice has the ornament: `burst` the ratchet's, `flam` the flam's;
/// `fire` draws the trigger and `accent` the accent.
pub proof fn lemma_rolls_draw_their_own_dice(v: PinVoice, r1: Seq<char>, r2: Seq<char>)
    ensures
        r1 != r2 && dice_of(v, r1) is Ok && dice_of(v, r2) is Ok ==> (dice_of(v, r1)->Ok_0.0, dice_of(v, r1)->Ok_0.1)
            != (dice_of(v, r2)->Ok_0.0, dice_of(v, r2)->Ok_0.1),
        dice_of(v, "burst"@) is Ok <==> v.ratchet_mode is Some,
        dice_of(v, "burst"@) matches Ok(x) ==> x.0 == "ratchet"@ && v.ratchet_mode == Some(x.2),
        dice_of(v, "flam"@) is Ok <==> v.flam_mode is Some,
        dice_of(v, "flam"@) matches Ok(x) ==> x.0 == "flam"@ && v.flam_mode == Some(x.2),
        dice_of(v, "fire"@) == Ok::<(Seq<char>, Seq<char>, ProbabilityMode), DiceRefusal>(("trigger"@, "admission"@, v.trigger_mode)),
        dice_of(v, "accent"@) == Ok::<(Seq<char>, Seq<char>, ProbabilityMode), DiceRefusal>(("accent"@, "admission"@, v.accent_mode)),
{
    reveal_strlit("fire");
    reveal_strlit("accent");
    reveal_strlit("burst");
    reveal_strlit("flam");
    reveal_strlit("ghost");
    reveal_strlit("timing");
    reveal_strlit("velocity");
    reveal_strlit("trigger");
    reveal_strlit("ratchet");
    reveal_strlit("groove");
    reveal_strlit("admission");
    reveal_strlit("humanize_timing");
    reveal_strlit("humanize_velocity");
    assert("trigger"@ != "accent"@) by { assert("trigger"@.len() != "accent"@.len()); }
    assert("trigger"@ != "ratchet"@) by { assert("trigger"@[0] != "ratchet"@[0]); }
    assert("trigger"@ != "flam"@) by { assert("trigger"@.len() != "flam"@.len()); }
    assert("trigger"@ != "groove"@) by { assert("trigger"@.len() != "groove"@.len()); }
    assert("accent"@ != "ratchet"@) by { assert("accent"@.len() != "ratchet"@.len()); }
    assert("accent"@ != "flam"@) by { assert("accent"@.len() != "flam"@.len()); }
    assert("accent"@ != "groove"@) by { assert("accent"@[0] != "groove"@[0]); }
    assert("ratchet"@ != "flam"@) by { assert("ratchet"@.len() != "flam"@.len()); }
    assert("ratchet"@ != "groove"@) by { assert("ratchet"@.len() != "groove"@.len()); }
    assert("flam"@ != "groove"@) by { assert("flam"@.len() != "groove"@.len()); }
    assert("ghost"@ != "humanize_timing"@) by { assert("ghost"@.len() != "humanize_timing"@.len()); }
    assert("ghost"@ != "humanize_velocity"@) by { assert("ghost"@.len() != "humanize_velocity"@.len()); }
    assert("humanize_timing"@ != "humanize_velocity"@) by { assert("humanize_timing"@.len() != "humanize_velocity"@.len()); }
    assert("fire"@ != "accent"@) by { assert("fire"@.len() != "accent"@.len()); }
    assert("fire"@ != "burst"@) by { assert("fire"@.len() != "burst"@.len()); }
    assert("fire"@ != "flam"@) by { assert("fire"@[1] != "flam"@[1]); }
    assert("accent"@ != "burst"@) by { assert("accent"@.len() != "burst"@.len()); }
    assert("accent"@ != "flam"@) by { assert("accent"@.len() != "flam"@.len()); }
    assert("burst"@ != "flam"@) by { assert("burst"@.len() != "flam"@.len()); }
}

/// Pins of one voice at one slot with different rolls force different draws.
pub proof fn lemma_pins_force_distinct_draws(s: PinScope, a1: PinAt, a2: PinAt, voice: Seq<char>)
    requires
        a1.bar == a2.bar,
        a1.slot == a2.slot,
        a1.roll@ != a2.roll@,
        voice_address(s, a1, voice) is Ok,
        voice_address(s, a2, voice) is Ok,
    ensures
        (voice_address(s, a1, voice)->Ok_0.lane, voice_address(s, a1, voice)->Ok_0.decision)
            != (voice_address(s, a2, voice)->Ok_0.lane, voice_address(s, a2, voice)->Ok_0.decision),
{
    let k = first_voice(s.voices@, voice, s.voices@.len() as int)->Some_0;
    lemma_rolls_draw_their_own_dice(s.voices@[k], a1.roll@, a2.roll@);
}

pub open spec fn velocity_refusal() -> Seq<char> {
    " has no groove that draws \"velocity\"; one of                              groove.offbeat_gain, groove.after_gap or groove.humanize is what                              draws it"@
}

pub open spec fn dice_message(why: DiceRefusal, voice: Seq<char>, roll: Seq<char>) -> Seq<char> {
    match why {
        DiceRefusal::NoRatchet => ": "@ + debug_str(voice) + " has no ratchet to draw for"@,
        DiceRefusal::NoFlam => ": "@ + debug_str(voice) + " has no flam to draw for"@,
        DiceRefusal::NoGhost => ": "@ + debug_str(voice) + " has no groove that draws \"ghost\""@,
        DiceRefusal::NoVelocity => ": "@ + debug_str(voice) + velocity_refusal(),
        DiceRefusal::Unknown => ": unknown dice "@ + debug_str(roll)
            + "; a voice rolls one of fire, accent, burst, flam, ghost, timing, velocity"@,
    }
}

pub open spec fn first_voice(vs: Seq<PinVoice>, id: Seq<char>, n: int) -> Option<int>
    decreases n,
{
    if n <= 0 {
        None
    } else {
        match first_voice(vs, id, n - 1) {
            Some(k) => Some(k),
            None => if vs[n - 1].id@ == id { Some(n - 1) } else { None },
        }
    }
}

pub open spec fn first_accent(acs: Seq<SharedAccent>, name: Seq<char>, n: int) -> Option<int>
    decreases n,
{
    if n <= 0 {
        None
    } else {
        match first_accent(acs, name, n - 1) {
            Some(k) => Some(k),
            None => if acs[n - 1].name@ == name { Some(n - 1) } else { None },
        }
    }
}

/// A voice's pin: its slot counted inside the bar's own tick interval on the voice's grid.
pub open spec fn voice_address(s: PinScope, at: PinAt, voice: Seq<char>) -> Result<AddressV, Seq<char>> {
    match first_voice(s.voices@, voice, s.voices@.len() as int) {
        None => Err(shape_of(at) + ": no Part "@ + debug_str(voice)),
        Some(k) => {
            let v = s.voices@[k];
            let bar_start = ((at.bar - 1) * 3840) as nat;
            let first = ceil_div(bar_start, v.cell as nat);
            let slots = ceil_div(bar_start + 3840, v.cell as nat) - first;
            if slots == 0 {
                Err(shape_of(at) + ": "@ + debug_str(voice) + " has no onset in bar "@ + decimal(at.bar as nat)
                    + "; its subdivision is longer than a bar and steps over that one entirely"@)
            } else if at.slot == 0 || at.slot > slots {
                Err(shape_of(at) + ": slot is 1-based and "@ + debug_str(voice) + " has "@ + decimal(slots as nat)
                    + " slots in bar "@ + decimal(at.bar as nat))
            } else {
                let step = (first + at.slot - 1) as nat;
                match dice_of(v, at.roll@) {
                    Err(why) => Err(shape_of(at) + dice_message(why, voice, at.roll@)),
                    Ok((lane, decision, mode)) => Ok(AddressV {
                        part: voice,
                        lane,
                        event: identity_of(s.phrase_bars as nat * 16, v.cell, step, mode) as u64,
                        decision,
                    }),
                }
            }
        },
    }
}

/// A shared accent's pin: one of sixteen slots per bar.
pub open spec fn accent_address(s: PinScope, at: PinAt, accent: Seq<char>) -> Result<AddressV, Seq<char>> {
    if at.roll@ != "accent"@ {
        Err(shape_of(at) + ": a shared accent lane rolls only \"accent\""@)
    } else {
        match first_accent(s.accents@, accent, s.accents@.len() as int) {
            None => Err(shape_of(at) + ": no shared accent "@ + debug_str(accent)),
            Some(k) => if at.slot == 0 || at.slot > 16 {
                Err(shape_of(at) + ": slot is 1-based and a shared accent has 16 slots per bar"@)
            } else {
                let sixteenth = ((at.bar - 1) * 16 + (at.slot - 1)) as nat;
                Ok(AddressV {
                    part: accent,
                    lane: "shared_accent"@,
                    event: (match s.accents@[k].mode {
                        ProbabilityMode::PhraseLocked => sixteenth % (s.phrase_bars as nat * 16),
                        ProbabilityMode::Continuous => sixteenth,
                    }) as u64,
                    decision: "shared_admission"@,
                })
            },
        }
    }
}

/// One pin's address, or why it has none.
pub open spec fn pin_address(s: PinScope, p: AuthoredPin) -> Result<AddressV, Seq<char>> {
    let at = p.at;
    if !p.u_in_range {
        Err(shape_of(at) + ": u must be finite and within 0 <= u < 1"@)
    } else if at.bar == 0 || at.bar > 10000000 {
        Err(shape_of(at) + ": bar is 1-based and at most 10000000"@)
    } else {
        match (at.voice, at.accent) {
            (Some(v), None) => voice_address(s, at, v@),
            (None, Some(a)) => accent_address(s, at, a@),
            _ => Err(shape_of(at) + ": name exactly one owner, voice = \"<part>\" or accent = \"<shared lane>\""@),
        }
    }
}

pub open spec fn first_same(addrs: Seq<AddressV>, a: AddressV, n: int) -> Option<int>
    decreases n,
{
    if n <= 0 {
        None
    } else {
        match first_same(addrs, a, n - 1) {
            Some(k) => Some(k),
            None => if addrs[n - 1] == a { Some(n - 1) } else { None },
        }
    }
}

pub open spec fn twin_message(at: PinAt, twin: PinAt) -> Seq<char> {
    shape_of(at) + " names the same dice as pin { roll = "@ + debug_str(twin.roll@) + ", bar = "@
        + decimal(twin.bar as nat) + ", slot = "@ + decimal(twin.slot as nat) + " }; one pin per draw"@
}

/// The addresses of the first `n` pins, in order, or the first refusal: a pin whose words do not
/// fit the piece, or one that names the same dice as an earlier pin.
pub open spec fn resolved(s: PinScope, pins: Seq<AuthoredPin>, n: int) -> Result<Seq<AddressV>, Seq<char>>
    decreases n,
{
    if n <= 0 {
        Ok(Seq::empty())
    } else {
        match resolved(s, pins, n - 1) {
            Err(e) => Err(e),
            Ok(prev) => match pin_address(s, pins[n - 1]) {
                Err(e) => Err(e),
                Ok(a) => match first_same(prev, a, prev.len() as int) {
                    Some(k) => Err(twin_message(pins[n - 1].at, pins[k].at)),
                    None => Ok(prev.push(a)),
                },
            },
        }
    }
}

pub open spec fn scope_ok(s: PinScope) -> bool {
    &&& s.phrase_bars > 0
    &&& forall|k: int| 0 <= k < s.voices@.len() ==> #[trigger] s.voices@[k].cell > 0
}

fn shape(at: &PinAt) -> (r: String)
    ensures
        r@ == shape_of(*at),
{
    proof {
        reveal_strlit("voice ");
        reveal_strlit("accent ");
        reveal_strlit("no owner");
        reveal_strlit("pin { roll = ");
        reveal_strlit(", ");
        reveal_strlit(", bar = ");
        reveal_strlit(", slot = ");
        reveal_strlit(" }");
    }
    let owner = match (&at.voice, &at.accent) {
        (Some(v), _) => {
            let mut o = String::from_str("voice ");
            let q = quoted(v.as_str());
            o.append(q.as_str());
            o
        },
        (None, Some(a)) => {
            let mut o = String::from_str("accent ");
            let q = quoted(a.as_str());
            o.append(q.as_str());
            o
        },
        (None, None) => String::from_str("no owner"),
    };
    let mut m = String::from_str("pin { roll = ");
    let q = quoted(at.roll.as_str());
    m.append(q.as_str());
    m.append(", ");
    m.append(owner.as_str());
    m.append(", bar = ");
    push_decimal(&mut m, at.bar as u128);
    m.append(", slot = ");
    push_decimal(&mut m, at.slot as u128);
    m.append(" }");
    proof {
        assert(m@ =~= shape_of(*at));
    }
    m
}

/// `shape` followed by `tail`.
fn refusal(at: &PinAt, tail: &str) -> (r: String)
    ensures
        r@ == shape_of(*at) + tail@,
{
    let mut m = shape(at);
    m.append(tail);
    m
}

fn find_voice(vs: &Vec<PinVoice>, id: &str) -> (r: Option<usize>)
    ensures
        r matches Some(k) ==> first_voice(vs@, id@, vs@.len() as int) == Some(k as int) && k < vs@.len(),
        r is None ==> first_voice(vs@, id@, vs@.len() as int) is None,
{
    let mut i: usize = 0;
    while i < vs.len()
        invariant
            i <= vs@.len(),
            first_voice(vs@, id@, i as int) is None,
        decreases vs@.len() - i,
    {
        if same_text(vs[i].id.as_str(), id) {
            proof {
                lemma_first_voice_stays(vs@, id@, i + 1, vs@.len() as int);
            }
            return Some(i);
        }
        i += 1;
    }
    None
}

proof fn lemma_first_voice_stays(vs: Seq<PinVoice>, id: Seq<char>, n: int, m: int)
    requires
        n <= m,
        first_voice(vs, id, n) is Some,
    ensures
        first_voice(vs, id, m) == first_voice(vs, id, n),
    decreases m - n,
{
    if n < m {
        lemma_first_voice_stays(vs, id, n, m - 1);
    }
}

fn find_accent(acs: &Vec<SharedAccent>, name: &str) -> (r: Option<usize>)
    ensures
        r matches Some(k) ==> first_accent(acs@, name@, acs@.len() as int) == Some(k as int) && k < acs@.len(),
        r is None ==> first_accent(acs@, name@, acs@.len() as int) is None,
{
    let mut i: usize = 0;
    while i < acs.len()
        invariant
            i <= acs@.len(),
            first_accent(acs@, name@, i as int) is None,
        decreases acs@.len() - i,
    {
        if same_text(acs[i].name.as_str(), name) {
            proof {
                lemma_first_accent_stays(acs@, name@, i + 1, acs@.len() as int);
            }
            return Some(i);
        }
        i += 1;
    }
    None
}

proof fn lemma_first_accent_stays(acs: Seq<SharedAccent>, name: Seq<char>, n: int, m: int)
    requires
        n <= m,
        first_accent(acs, name, n) is Some,
    ensures
        first_accent(acs, name, m) == first_accent(acs, name, n),
    decreases m - n,
{
    if n < m {
        lemma_first_accent_stays(acs, name, n, m - 1);
    }
}

fn dice(v: &PinVoice, roll: &str) -> (r: Result<(&'static str, &'static str, ProbabilityMode), DiceRefusal>)
    ensures
        match dice_of(*v, roll@) {
            Ok((lane, decision, mode)) => r matches Ok((l, d, m)) && l@ == lane && d@ == decision && m == mode,
            Err(why) => r matches Err(w) && w == why,
        },
{
    proof {
        reveal_strlit("fire");
        reveal_strlit("accent");
        reveal_strlit("burst");
        reveal_strlit("flam");
        reveal_strlit("ghost");
        reveal_strlit("timing");
        reveal_strlit("velocity");
        reveal_strlit("trigger");
        reveal_strlit("admission");
        reveal_strlit("ratchet");
        reveal_strlit("groove");
        reveal_strlit("humanize_timing");
        reveal_strlit("humanize_velocity");
    }
    if same_text(roll, "fire") {
        Ok(("trigger", "admission", v.trigger_mode))
    } else if same_text(roll, "accent") {
        Ok(("accent", "admission", v.accent_mode))
    } else if same_text(roll, "burst") {
        match v.ratchet_mode {
            Some(m) => Ok(("ratchet", "admission", m)),
            None => Err(DiceRefusal::NoRatchet),
        }
    } else if same_text(roll, "flam") {
        match v.flam_mode {
            Some(m) => Ok(("flam", "admission", m)),
            None => Err(DiceRefusal::NoFlam),
        }
    } else if same_text(roll, "ghost") {
        match v.ghost_mode {
            Some(m) => Ok(("groove", "ghost", m)),
            None => Err(DiceRefusal::NoGhost),
        }
    } else if same_text(roll, "timing") {
        Ok(("groove", "humanize_timing", v.touch_mode))
    } else if same_text(roll, "velocity") {
        if v.draws_velocity {
            Ok(("groove", "humanize_velocity", v.touch_mode))
        } else {
            Err(DiceRefusal::NoVelocity)
        }
    } else {
        Err(DiceRefusal::Unknown)
    }
}

fn dice_text(why: &DiceRefusal, voice: &str, roll: &str) -> (r: String)
    ensures
        r@ == dice_message(*why, voice@, roll@),
{
    proof {
        reveal_strlit(": ");
        reveal_strlit(" has no ratchet to draw for");
        reveal_strlit(" has no flam to draw for");
        reveal_strlit(" has no groove that draws \"ghost\"");
        reveal_strlit(" has no groove that draws \"velocity\"; one of                              groove.offbeat_gain, groove.after_gap or groove.humanize is what                              draws it");
        reveal_strlit(": unknown dice ");
        reveal_strlit("; a voice rolls one of fire, accent, burst, flam, ghost, timing, velocity");
    }
    match why {
        DiceRefusal::Unknown => {
            let mut m = String::from_str(": unknown dice ");
            let q = quoted(roll);
            m.append(q.as_str());
            m.append("; a voice rolls one of fire, accent, burst, flam, ghost, timing, velocity");
            proof {
                assert(m@ =~= dice_message(*why, voice@, roll@));
            }
            m
        },
        _ => {
            let mut m = String::from_str(": ");
            let q = quoted(voice);
            m.append(q.as_str());
            let tail = match why {
                DiceRefusal::NoRatchet => " has no ratchet to draw for",
                DiceRefusal::NoFlam => " has no flam to draw for",
                DiceRefusal::NoGhost => " has no groove that draws \"ghost\"",
                _ => " has no groove that draws \"velocity\"; one of                              groove.offbeat_gain, groove.after_gap or groove.humanize is what                              draws it",
            };
            m.append(tail);
            proof {
                assert(m@ =~= dice_message(*why, voice@, roll@));
            }
            m
        },
    }
}

fn ceil_div_u128(a: u128, b: u128) -> (r: u128)
    requires
        b > 0,
        a + b <= u128::MAX,
    ensures
        r == ceil_div(a as nat, b as nat),
{
    (a + b - 1) / b
}

fn identity(phrase_bars: u32, cell: u64, step: u64, mode: ProbabilityMode) -> (r: u64)
    requires
        phrase_bars > 0,
        step * cell <= u64::MAX,
    ensures
        r == identity_of(phrase_bars as nat * 16, cell, step as nat, mode),
{
    let phrase_steps = (phrase_bars as u64) * 16;
    match mode {
        ProbabilityMode::Continuous => step,
        ProbabilityMode::PhraseLocked => if cell == 240 {
            step % phrase_steps
        } else {
            (step * cell) % (phrase_steps * 240)
        },
    }
}

fn voice_pin(s: &PinScope, at: &PinAt, voice: &str) -> (r: Result<Address, String>)
    requires
        scope_ok(*s),
        1 <= at.bar <= 10000000,
    ensures
        match voice_address(*s, *at, voice@) {
            Ok(a) => r matches Ok(x) && x@ == a,
            Err(e) => r matches Err(m) && m@ == e,
        },
{
    proof {
        reveal_strlit(": no Part ");
        reveal_strlit(": ");
        reveal_strlit(" has no onset in bar ");
        reveal_strlit("; its subdivision is longer than a bar and steps over that one entirely");
        reveal_strlit(": slot is 1-based and ");
        reveal_strlit(" has ");
        reveal_strlit(" slots in bar ");
    }
    let k = match find_voice(&s.voices, voice) {
        None => {
            let mut m = refusal(at, ": no Part ");
            let q = quoted(voice);
            m.append(q.as_str());
            proof {
                assert(m@ =~= shape_of(*at) + ": no Part "@ + debug_str(voice@));
            }
            return Err(m);
        },
        Some(k) => k,
    };
    let v = &s.voices[k];
    let cell = v.cell as u128;
    let bar_start = ((at.bar - 1) as u128) * 3840;
    let first = ceil_div_u128(bar_start, cell);
    let end = ceil_div_u128(bar_start + 3840, cell);
    proof {
        assert(first <= end) by (nonlinear_arith)
            requires
                first == ceil_div(bar_start as nat, cell as nat),
                end == ceil_div((bar_start + 3840) as nat, cell as nat),
                cell > 0;
    }
    let slots = end - first;
    if slots == 0 {
        let mut m = refusal(at, ": ");
        let q = quoted(voice);
        m.append(q.as_str());
        m.append(" has no onset in bar ");
        push_decimal(&mut m, at.bar as u128);
        m.append("; its subdivision is longer than a bar and steps over that one entirely");
        proof {
            assert(m@ =~= shape_of(*at) + ": "@ + debug_str(voice@) + " has no onset in bar "@ + decimal(at.bar as nat)
                + "; its subdivision is longer than a bar and steps over that one entirely"@);
        }
        return Err(m);
    }
    if at.slot == 0 || (at.slot as u128) > slots {
        let mut m = refusal(at, ": slot is 1-based and ");
        let q = quoted(voice);
        m.append(q.as_str());
        m.append(" has ");
        push_decimal(&mut m, slots);
        m.append(" slots in bar ");
        push_decimal(&mut m, at.bar as u128);
        proof {
            assert(m@ =~= shape_of(*at) + ": slot is 1-based and "@ + debug_str(voice@) + " has "@ + decimal(slots as nat)
                + " slots in bar "@ + decimal(at.bar as nat));
        }
        return Err(m);
    }
    let step128 = first + (at.slot as u128) - 1;
    proof {
        // a step past zero lies inside the bar's ticks, so the step and its tick are small
        assert(step128 < end);
        assert(step128 * cell <= 2 * (bar_start + 3840)) by (nonlinear_arith)
            requires
                step128 < end,
                end == ceil_div((bar_start + 3840) as nat, cell as nat),
                cell > 0,
                step128 >= 1 ==> end >= 2;
        assert(step128 * cell <= u64::MAX);
        assert(step128 <= u64::MAX) by (nonlinear_arith)
            requires
                step128 * cell <= u64::MAX,
                cell >= 1;
    }
    let step = step128 as u64;
    match dice(v, at.roll.as_str()) {
        Err(why) => {
            let mut m = shape(at);
            let t = dice_text(&why, voice, at.roll.as_str());
            m.append(t.as_str());
            Err(m)
        },
        Ok((lane, decision, mode)) => {
            let event = identity(s.phrase_bars, v.cell, step, mode);
            Ok(Address {
                part: String::from_str(voice),
                lane: String::from_str(lane),
                event,
                decision: String::from_str(decision),
            })
        },
    }
}

fn accent_pin(s: &PinScope, at: &PinAt, accent: &str) -> (r: Result<Address, String>)
    requires
        scope_ok(*s),
        1 <= at.bar <= 10000000,
    ensures
        match accent_address(*s, *at, accent@) {
            Ok(a) => r matches Ok(x) && x@ == a,
            Err(e) => r matches Err(m) && m@ == e,
        },
{
    proof {
        reveal_strlit("accent");
        reveal_strlit(": a shared accent lane rolls only \"accent\"");
        reveal_strlit(": no shared accent ");
        reveal_strlit(": slot is 1-based and a shared accent has 16 slots per bar");
        reveal_strlit("shared_accent");
        reveal_strlit("shared_admission");
    }
    if !same_text(at.roll.as_str(), "accent") {
        return Err(refusal(at, ": a shared accent lane rolls only \"accent\""));
    }
    let k = match find_accent(&s.accents, accent) {
        None => {
            let mut m = refusal(at, ": no shared accent ");
            let q = quoted(accent);
            m.append(q.as_str());
            proof {
                assert(m@ =~= shape_of(*at) + ": no shared accent "@ + debug_str(accent@));
            }
            return Err(m);
        },
        Some(k) => k,
    };
    if at.slot == 0 || at.slot > 16 {
        return Err(refusal(at, ": slot is 1-based and a shared accent has 16 slots per bar"));
    }
    let sixteenth = (at.bar - 1) * 16 + (at.slot - 1);
    let phrase_steps = (s.phrase_bars as u64) * 16;
    let event = match s.accents[k].mode {
        ProbabilityMode::PhraseLocked => sixteenth % phrase_steps,
        ProbabilityMode::Continuous => sixteenth,
    };
    Ok(Address {
        part: String::from_str(accent),
        lane: String::from_str("shared_accent"),
        event,
        decision: String::from_str("shared_admission"),
    })
}

fn pin(s: &PinScope, p: &AuthoredPin) -> (r: Result<Address, String>)
    requires
        scope_ok(*s),
    ensures
        match pin_address(*s, *p) {
            Ok(a) => r matches Ok(x) && x@ == a,
            Err(e) => r matches Err(m) && m@ == e,
        },
{
    proof {
        reveal_strlit(": u must be finite and within 0 <= u < 1");
        reveal_strlit(": bar is 1-based and at most 10000000");
        reveal_strlit(": name exactly one owner, voice = \"<part>\" or accent = \"<shared lane>\"");
    }
    let at = &p.at;
    if !p.u_in_range {
        return Err(refusal(at, ": u must be finite and within 0 <= u < 1"));
    }
    if at.bar == 0 || at.bar > MAX_PIN_BAR {
        return Err(refusal(at, ": bar is 1-based and at most 10000000"));
    }
    match (&at.voice, &at.accent) {
        (Some(v), None) => voice_pin(s, at, v.as_str()),
        (None, Some(a)) => accent_pin(s, at, a.as_str()),
        _ => Err(refusal(at, ": name exactly one owner, voice = \"<part>\" or accent = \"<shared lane>\"")),
    }
}

fn same_address(a: &Address, b: &Address) -> (r: bool)
    ensures
        r == (a@ == b@),
{
    a.event == b.event && same_text(a.part.as_str(), b.part.as_str()) && same_text(a.lane.as_str(), b.lane.as_str())
        && same_text(a.decision.as_str(), b.decision.as_str())
}

/// Every authored pin turned into the address its draw hashes, in order. More than 256 pins,
/// a pin whose words do not fit the piece, or two pins on one draw are refused, naming the
/// first pin at fault by its shape.
pub fn resolve_pins(s: &PinScope, pins: &Vec<AuthoredPin>) -> (r: Result<Vec<Address>, String>)
    requires
        scope_ok(*s),
    ensures
        pins@.len() > 256 ==> (r matches Err(e) && e@ == "at most 256 pins are supported"@),
        pins@.len() <= 256 ==> match resolved(*s, pins@, pins@.len() as int) {
            Ok(v) => r matches Ok(x) && addresses_view(x@) == v,
            Err(e) => r matches Err(m) && m@ == e,
        },
{
    proof {
        reveal_strlit("at most 256 pins are supported");
        reveal_strlit(" names the same dice as pin { roll = ");
        reveal_strlit(", bar = ");
        reveal_strlit(", slot = ");
        reveal_strlit(" }; one pin per draw");
    }
    if pins.len() > MAX_PINS {
        return Err(String::from_str("at most 256 pins are supported"));
    }
    let mut out: Vec<Address> = Vec::new();
    proof {
        assert(addresses_view(out@) =~= Seq::<AddressV>::empty());
    }
    let mut i: usize = 0;
    while i < pins.len()
        invariant
            scope_ok(*s),
            i <= pins@.len(),
            pins@.len() <= 256,
            out@.len() == i,
            resolved(*s, pins@, i as int) == Ok::<Seq<AddressV>, Seq<char>>(addresses_view(out@)),
        decreases pins@.len() - i,
    {
        let a = match pin(s, &pins[i]) {
            Err(e) => {
                proof {
                    assert(resolved(*s, pins@, i + 1) == Err::<Seq<AddressV>, Seq<char>>(e@));
                    lemma_refusal_stays(*s, pins@, i + 1, pins@.len() as int);
                }
                return Err(e);
            },
            Ok(a) => a,
        };
        let ghost prev = addresses_view(out@);
        let mut j: usize = 0;
        while j < out.len()
            invariant
                j <= out@.len(),
                i < pins@.len(),
                out@.len() == i,
                pins@.len() <= 256,
                prev == addresses_view(out@),
                resolved(*s, pins@, i as int) == Ok::<Seq<AddressV>, Seq<char>>(prev),
                pin_address(*s, pins@[i as int]) == Ok::<AddressV, Seq<char>>(a@),
                first_same(prev, a@, j as int) is None,
            decreases out@.len() - j,
        {
            if same_address(&out[j], &a) {
                let twin = &pins[j].at;
                let mut m = shape(&pins[i].at);
                m.append(" names the same dice as pin { roll = ");
                let q = quoted(twin.roll.as_str());
                m.append(q.as_str());
                m.append(", bar = ");
                push_decimal(&mut m, twin.bar as u128);
                m.append(", slot = ");
                push_decimal(&mut m, twin.slot as u128);
                m.append(" }; one pin per draw");
                proof {
                    assert(first_same(prev, a@, j + 1) == Some(j as int));
                    lemma_first_same_stays(prev, a@, j + 1, prev.len() as int);
                    assert(m@ =~= twin_message(pins@[i as int].at, pins@[j as int].at));
                    assert(resolved(*s, pins@, i + 1) == Err::<Seq<AddressV>, Seq<char>>(m@));
                    lemma_refusal_stays(*s, pins@, i + 1, pins@.len() as int);
                }
                return Err(m);
            }
            j += 1;
        }
        out.push(a);
        proof {
            assert(addresses_view(out@) =~= prev.push(a@));
        }
        i += 1;
    }
    Ok(out)
}

proof fn lemma_refusal_stays(s: PinScope, pins: Seq<AuthoredPin>, n: int, m: int)
    requires
        n <= m,
        resolved(s, pins, n) is Err,
    ensures
        resolved(s, pins, m) == resolved(s, pins, n),
    decreases m - n,
{
    if n < m {
        lemma_refusal_stays(s, pins, n, m - 1);
    }
}

proof fn lemma_first_same_stays(addrs: Seq<AddressV>, a: AddressV, n: int, m: int)
    requires
        n <= m,
        first_same(addrs, a, n) is Some,
    ensures
        first_same(addrs, a, m) == first_same(addrs, a, n),
    decreases m - n,
{
    if n < m {
        lemma_first_same_stays(addrs, a, n, m - 1);
    }
}

} // verus!
