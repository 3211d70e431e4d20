//! Live control edits on a Part's Euclidean rhythms, independent of MIDI.
use vstd::prelude::*;

use crate::music::notation::render::euclid_mod;
use crate::music::rhythm::{BooleanOp, Expression};

verus! {

/// The controls a Part exposes, in registry order.
#[derive(Clone, Copy, Debug, PartialEq, Eq, Structural)]
pub enum Parameter {
    Level,
    Cutoff,
    TriggerProbability,
    AccentAmount,
    ASteps,
    APulses,
    ARotation,
    Operator,
    BSteps,
    BPulses,
    BRotation,
    AccentProbability,
    CSteps,
    CPulses,
    CRotation,
    Decay,
}

/// The rhythm a control slot starts from: sixteen steps and no pulses.
pub fn euclid() -> (e: Expression)
    ensures
        e == (Expression::Euclidean { steps: 16, pulses: 0, rotation: 0, reset_on_phrase: false }),
{
    Expression::Euclidean { steps: 16, pulses: 0, rotation: 0, reset_on_phrase: false }
}

/// The modulus a rotation wraps at: the step count read as a signed 32-bit number, without
/// its sign. It is the step count itself for every count a valid rhythm has (1 to 65536).
pub open spec fn cycle_modulus(steps: u32) -> int {
    if steps <= 0x7fff_ffff { steps as int } else { 0x1_0000_0000 - steps }
}

/// A Euclidean rhythm after turning control `k` by `delta`: `0` changes the step count within
/// `1..=65536`, keeping pulses within the steps and the rotation within one cycle; `1`
/// changes the pulses within `0..=steps`; any other control turns the rotation by the low
/// sixteen bits of `delta`, wrapped to the cycle.
pub open spec fn adjusted(steps: u32, pulses: u32, rotation: i32, k: usize, delta: i32) -> (u32, u32, i32) {
    if k == 0 {
        let s = steps as int + delta as int;
        let s2: int = if s < 1 { 1 } else if s > 65536 { 65536 } else { s };
        let p2: int = if pulses as int <= s2 { pulses as int } else { s2 };
        (s2 as u32, p2 as u32, (rotation as int % s2) as i32)
    } else if k == 1 {
        let p = pulses as int + delta as int;
        let p2: int = if p < 0 { 0 } else if p > steps as int { steps as int } else { p };
        (steps, p2 as u32, rotation)
    } else {
        (steps, pulses, ((rotation as int + (delta as i16) as int) % cycle_modulus(steps)) as i32)
    }
}

/// Turns control `k` of a Euclidean rhythm by `delta`; any other rhythm is left as it is.
pub fn adjust(e: &mut Expression, k: usize, delta: i32)
    requires
        *old(e) matches Expression::Euclidean { steps, rotation, .. } ==> (k > 1 ==> {
            &&& steps != 0
            &&& i32::MIN <= rotation as int + (delta as i16) as int <= i32::MAX
            &&& !(steps == u32::MAX && rotation as int + (delta as i16) as int == i32::MIN)
        }),
    ensures
        match *old(e) {
            Expression::Euclidean { steps, pulses, rotation, reset_on_phrase } => {
                let (s, p, r) = adjusted(steps, pulses, rotation, k, delta);
                *final(e) == (Expression::Euclidean { steps: s, pulses: p, rotation: r, reset_on_phrase })
            },
            _ => *final(e) == *old(e),
        },
{
    let next = match &*e {
        Expression::Euclidean { steps, pulses, rotation, reset_on_phrase } => {
            let (s, p, r): (u32, u32, i32) = if k == 0 {
                let t = (*steps as i64) + (delta as i64);
                let s2: i64 = if t < 1 { 1 } else if t > 65536 { 65536 } else { t };
                let p2: u32 = if (*pulses as i64) <= s2 { *pulses } else { s2 as u32 };
                let r2 = euclid_mod(*rotation as i128, s2 as u64) as i32;
                (s2 as u32, p2, r2)
            } else if k == 1 {
                let t = (*pulses as i64) + (delta as i64);
                let p2: i64 = if t < 0 { 0 } else if t > (*steps as i64) { *steps as i64 } else { t };
                (*steps, p2 as u32, *rotation)
            } else {
                let turned = *rotation + ((delta as i16) as i32);
                let m: u64 = if *steps <= 0x7fff_ffff { *steps as u64 } else { 0x1_0000_0000 - (*steps as u64) };
                (*steps, *pulses, euclid_mod(turned as i128, m) as i32)
            };
            Expression::Euclidean { steps: s, pulses: p, rotation: r, reset_on_phrase: *reset_on_phrase }
        },
        _ => return,
    };
    *e = next;
}


/// The Operator control's code for a Boolean operator; 0 stands for rhythm A alone.
pub open spec fn op_code(op: BooleanOp) -> u8 {
    match op {
        BooleanOp::Or => 1,
        BooleanOp::And => 2,
        BooleanOp::Xor => 3,
        BooleanOp::ANotB => 4,
        BooleanOp::BNotA => 5,
    }
}

/// The operator an Operator code from 1 up selects; codes past 5 select B-not-A.
pub open spec fn op_of_code(c: u8) -> BooleanOp {
    if c == 1 {
        BooleanOp::Or
    } else if c == 2 {
        BooleanOp::And
    } else if c == 3 {
        BooleanOp::Xor
    } else if c == 4 {
        BooleanOp::ANotB
    } else {
        BooleanOp::BNotA
    }
}

pub open spec fn default_euclid() -> Expression {
    Expression::Euclidean { steps: 16, pulses: 0, rotation: 0, reset_on_phrase: false }
}

/// The controller's view of a trigger rhythm: rhythm A, rhythm B and the operator code. A lone
/// Euclidean rhythm is A with the default B and code 0; two Euclidean rhythms joined by an
/// operator are A and B; anything else has no controls.
pub open spec fn components_of(e: Expression) -> Option<(Expression, Expression, u8)> {
    match e {
        Expression::Euclidean { .. } => Some((e, default_euclid(), 0u8)),
        Expression::Binary { op, a, b } => if (*a is Euclidean && *b is Euclidean) {
            Some((*a, *b, op_code(op)))
        } else {
            None
        },
        _ => None,
    }
}

/// Rhythms A and B joined by operator code `op`; code 0 is A alone.
pub open spec fn combined(a: Expression, b: Expression, op: u8) -> Expression {
    if op == 0 {
        a
    } else {
        Expression::Binary { op: op_of_code(op), a: Box::new(a), b: Box::new(b) }
    }
}

/// A rhythm after `adjust`.
pub open spec fn adjusted_expr(e: Expression, k: usize, delta: i32) -> Expression {
    match e {
        Expression::Euclidean { steps, pulses, rotation, reset_on_phrase } => {
            let (s, p, r) = adjusted(steps, pulses, rotation, k, delta);
            Expression::Euclidean { steps: s, pulses: p, rotation: r, reset_on_phrase }
        },
        _ => e,
    }
}

/// `adjust` can turn control `k` of `e` by `delta`.
pub open spec fn adjustable(e: Expression, k: usize, delta: i32) -> bool {
    e matches Expression::Euclidean { steps, rotation, .. } ==> (k > 1 ==> {
        &&& steps != 0
        &&& i32::MIN <= rotation as int + (delta as i16) as int <= i32::MAX
        &&& !(steps == u32::MAX && rotation as int + (delta as i16) as int == i32::MIN)
    })
}

/// The trigger rhythm after turning control `slot`: 4 to 6 turn A's steps, pulses and
/// rotation; 7 moves the operator code within 0..=5; 8 to 10 turn B's, and a turned B joins A
/// by OR when A stood alone.
pub open spec fn turned(e: Expression, slot: usize, delta: i32) -> Option<Expression> {
    match components_of(e) {
        None => None,
        Some((a, b, op)) => Some(
            if slot <= 6 {
                combined(adjusted_expr(a, (slot - 4) as usize, delta), b, op)
            } else if slot == 7 {
                let c = op as int + delta as int;
                combined(a, b, (if c < 0 { 0 } else if c > 5 { 5 } else { c }) as u8)
            } else {
                combined(a, adjusted_expr(b, (slot - 8) as usize, delta), if op == 0 { 1u8 } else { op })
            }
        ),
    }
}

fn copy_euclid(e: &Expression) -> (r: Expression)
    requires
        *e is Euclidean,
    ensures
        r == *e,
{
    match e {
        Expression::Euclidean { steps, pulses, rotation, reset_on_phrase } =>
            Expression::Euclidean { steps: *steps, pulses: *pulses, rotation: *rotation, reset_on_phrase: *reset_on_phrase },
        _ => euclid(),
    }
}

/// Rhythm A, rhythm B and the operator code of a trigger rhythm the controller can edit.
pub fn components(e: &Expression) -> (r: Option<(Expression, Expression, u8)>)
    ensures
        r == components_of(*e),
{
    match e {
        Expression::Euclidean { .. } => Some((copy_euclid(e), euclid(), 0)),
        Expression::Binary { op, a, b } => {
            let a_ok = match &**a {
                Expression::Euclidean { .. } => true,
                _ => false,
            };
            let b_ok = match &**b {
                Expression::Euclidean { .. } => true,
                _ => false,
            };
            if a_ok && b_ok {
                let code: u8 = match op {
                    BooleanOp::Or => 1,
                    BooleanOp::And => 2,
                    BooleanOp::Xor => 3,
                    BooleanOp::ANotB => 4,
                    BooleanOp::BNotA => 5,
                };
                Some((copy_euclid(&**a), copy_euclid(&**b), code))
            } else {
                None
            }
        },
        _ => None,
    }
}

/// Joins rhythms A and B by operator code `op`.
pub fn combine(a: Expression, b: Expression, op: u8) -> (r: Expression)
    ensures
        r == combined(a, b, op),
{
    if op == 0 {
        a
    } else {
        let o = if op == 1 {
            BooleanOp::Or
        } else if op == 2 {
            BooleanOp::And
        } else if op == 3 {
            BooleanOp::Xor
        } else if op == 4 {
            BooleanOp::ANotB
        } else {
            BooleanOp::BNotA
        };
        Expression::Binary { op: o, a: Box::new(a), b: Box::new(b) }
    }
}

/// Turns trigger control `slot` (4 to 10) by `delta`; a rhythm the controller cannot edit is
/// refused.
pub fn turn_trigger(e: &Expression, slot: usize, delta: i32) -> (r: Result<Expression, String>)
    requires
        4 <= slot <= 10,
        components_of(*e) matches Some((a, b, _)) ==> (slot <= 6 ==> adjustable(a, (slot - 4) as usize, delta))
            && (slot >= 8 ==> adjustable(b, (slot - 8) as usize, delta)),
    ensures
        match turned(*e, slot, delta) {
            Some(t) => r == Ok::<Expression, String>(t),
            None => r matches Err(m) && m@ == "unsupported expression"@,
        },
{
    match components(e) {
        None => {
            proof {
                reveal_strlit("unsupported expression");
            }
            Err(String::from_str("unsupported expression"))
        },
        Some((a0, b0, op0)) => {
            let mut a = a0;
            let mut b = b0;
            let mut op = op0;
            if slot <= 6 {
                adjust(&mut a, slot - 4, delta);
            } else if slot == 7 {
                let c = (op as i64) + (delta as i64);
                op = if c < 0 { 0 } else if c > 5 { 5 } else { c as u8 };
            } else {
                adjust(&mut b, slot - 8, delta);
                if op == 0 {
                    op = 1;
                }
            }
            Ok(combine(a, b, op))
        },
    }
}

/// The value a rhythm control shows and its largest value: the steps of at most 65536, the
/// pulses of at most the steps, or the rotation within the cycle.
pub fn number(e: &Expression, k: usize) -> (r: Option<(i64, i64)>)
    requires
        *e matches Expression::Euclidean { steps, rotation, .. } ==> (k >= 2 ==> steps != 0
            && !(steps == u32::MAX && rotation == i32::MIN)),
    ensures
        match *e {
            Expression::Euclidean { steps, pulses, rotation, .. } => r == Some(
                if k == 0 {
                    (steps as i64, 65536i64)
                } else if k == 1 {
                    (pulses as i64, steps as i64)
                } else {
                    ((rotation as int % cycle_modulus(steps)) as i64, (steps - 1) as i64)
                }
            ),
            _ => r is None,
        },
{
    match e {
        Expression::Euclidean { steps, pulses, rotation, .. } => {
            if k == 0 {
                Some((*steps as i64, 65536))
            } else if k == 1 {
                Some((*pulses as i64, *steps as i64))
            } else {
                let d: u64 = if *steps <= 0x7fff_ffff { *steps as u64 } else { 0x1_0000_0000 - (*steps as u64) };
                let m = euclid_mod(*rotation as i128, d);
                Some((m as i64, (*steps - 1) as i64))
            }
        },
        _ => None,
    }
}

} // verus!
