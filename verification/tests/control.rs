use phasecraft::control::{combine, components, number, turn_trigger};
use phasecraft::music::rhythm::{BooleanOp, Expression, ReferenceMode};

fn e(steps: u32, pulses: u32, rotation: i32) -> Expression {
    Expression::Euclidean { steps, pulses, rotation, reset_on_phrase: false }
}

fn parts(x: &Expression) -> (u32, u32, i32) {
    match x {
        Expression::Euclidean { steps, pulses, rotation, .. } => (*steps, *pulses, *rotation),
        other => panic!("expected a Euclidean rhythm, got {other:?}"),
    }
}

#[test]
fn a_lone_rhythm_is_a_with_an_empty_b() {
    let (a, b, op) = components(&e(8, 3, 1)).unwrap();
    assert_eq!(parts(&a), (8, 3, 1));
    assert_eq!(parts(&b), (16, 0, 0));
    assert_eq!(op, 0);
}

#[test]
fn only_two_euclidean_rhythms_joined_by_an_operator_are_editable() {
    let joined = Expression::Binary { op: BooleanOp::Xor, a: Box::new(e(8, 3, 0)), b: Box::new(e(5, 2, 0)) };
    let (_, b, op) = components(&joined).unwrap();
    assert_eq!(parts(&b), (5, 2, 0));
    assert_eq!(op, 3);
    let with_part = Expression::Binary {
        op: BooleanOp::Or,
        a: Box::new(e(8, 3, 0)),
        b: Box::new(Expression::Part { id: "kick".into(), mode: ReferenceMode::Hits }),
    };
    assert!(components(&with_part).is_none());
    assert_eq!(turn_trigger(&with_part, 4, 1).unwrap_err(), "unsupported expression");
}

#[test]
fn turning_b_joins_a_lone_rhythm_by_or() {
    let t = turn_trigger(&e(8, 3, 0), 9, 2).unwrap();
    match t {
        Expression::Binary { op: BooleanOp::Or, a, b } => {
            assert_eq!(parts(&a), (8, 3, 0));
            assert_eq!(parts(&b), (16, 2, 0));
        }
        other => panic!("expected an OR, got {other:?}"),
    }
}

#[test]
fn the_operator_stays_within_its_six_codes() {
    let joined = Expression::Binary { op: BooleanOp::And, a: Box::new(e(8, 3, 0)), b: Box::new(e(5, 2, 0)) };
    match turn_trigger(&joined, 7, 64).unwrap() {
        Expression::Binary { op, .. } => assert_eq!(op, BooleanOp::BNotA),
        other => panic!("expected a joined rhythm, got {other:?}"),
    }
    assert_eq!(parts(&turn_trigger(&joined, 7, -64).unwrap()), (8, 3, 0));
}

#[test]
fn turning_a_edits_only_a() {
    let joined = Expression::Binary { op: BooleanOp::ANotB, a: Box::new(e(8, 3, 0)), b: Box::new(e(5, 2, 0)) };
    match turn_trigger(&joined, 6, -3).unwrap() {
        Expression::Binary { op: BooleanOp::ANotB, a, b } => {
            assert_eq!(parts(&a), (8, 3, 5));
            assert_eq!(parts(&b), (5, 2, 0));
        }
        other => panic!("expected A-not-B, got {other:?}"),
    }
}

#[test]
fn combine_code_zero_is_a_alone() {
    assert_eq!(parts(&combine(e(3, 1, 0), e(4, 1, 0), 0)), (3, 1, 0));
    match combine(e(3, 1, 0), e(4, 1, 0), 4) {
        Expression::Binary { op, .. } => assert_eq!(op, BooleanOp::ANotB),
        other => panic!("expected a joined rhythm, got {other:?}"),
    }
}

#[test]
fn numbers_show_value_and_range() {
    assert_eq!(number(&e(12, 5, -1), 0), Some((12, 65536)));
    assert_eq!(number(&e(12, 5, -1), 1), Some((5, 12)));
    assert_eq!(number(&e(12, 5, -1), 2), Some((11, 11)));
    assert_eq!(number(&Expression::Part { id: "x".into(), mode: ReferenceMode::Hits }, 0), None);
}
