use phasecraft::music::dependency::{dependency, evaluation_order, Dependency};
use phasecraft::music::rhythm::{BooleanOp, Expression, ReferenceMode};

fn dep(id: &str, refs: &[&str]) -> Dependency {
    Dependency { id: id.into(), references: refs.iter().map(|r| r.to_string()).collect() }
}

fn euclid() -> Expression {
    Expression::Euclidean { steps: 16, pulses: 4, rotation: 0, reset_on_phrase: false }
}

fn part(id: &str) -> Expression {
    Expression::Part { id: id.into(), mode: ReferenceMode::Hits }
}

#[test]
fn references_come_before_the_parts_that_use_them() {
    let parts = vec![dep("snare", &["kick"]), dep("kick", &[]), dep("hat", &["snare", "kick"])];
    assert_eq!(evaluation_order(&parts).unwrap(), vec![1, 0, 2]);
}

#[test]
fn independent_parts_come_in_id_order() {
    let parts = vec![dep("snare", &[]), dep("hat", &[]), dep("kick", &[])];
    assert_eq!(evaluation_order(&parts).unwrap(), vec![1, 2, 0]);
}

#[test]
fn a_cycle_names_the_chain_that_closes_it() {
    let parts = vec![dep("a", &["b"]), dep("b", &["c"]), dep("c", &["b"])];
    assert_eq!(evaluation_order(&parts).unwrap_err(), "Part dependency cycle: a -> b -> c -> b");
}

#[test]
fn a_part_that_references_itself_is_a_cycle() {
    let parts = vec![dep("a", &["a"])];
    assert_eq!(evaluation_order(&parts).unwrap_err(), "Part dependency cycle: a -> a");
}

#[test]
fn a_missing_part_is_named_with_its_referrer() {
    let parts = vec![dep("hat", &["kick"])];
    assert_eq!(evaluation_order(&parts).unwrap_err(), "Part \"hat\" references missing Part \"kick\"");
}

#[test]
fn the_later_of_two_parts_with_one_id_is_the_one_a_reference_reaches() {
    let parts = vec![dep("a", &["zzz"]), dep("b", &["a"]), dep("a", &[])];
    assert_eq!(evaluation_order(&parts).unwrap(), vec![2, 1]);
}

#[test]
fn a_dependency_lists_trigger_references_then_accent_references() {
    let trigger = Expression::Binary { op: BooleanOp::And, a: Box::new(part("kick")), b: Box::new(part("snare")) };
    let accent = Expression::Binary { op: BooleanOp::Or, a: Box::new(euclid()), b: Box::new(part("kick")) };
    let d = dependency("hat", &trigger, &accent);
    assert_eq!(d.id, "hat");
    assert_eq!(d.references, vec!["kick".to_string(), "snare".to_string(), "kick".to_string()]);
    let none = dependency("kick", &euclid(), &euclid());
    assert!(none.references.is_empty());
    assert_eq!(evaluation_order(&vec![d, none, dep("snare", &[])]).unwrap(), vec![1, 2, 0]);
}

#[test]
fn no_parts_have_an_empty_order() {
    assert_eq!(evaluation_order(&Vec::new()).unwrap(), Vec::<usize>::new());
}
