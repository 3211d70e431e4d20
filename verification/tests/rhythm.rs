use phasecraft::music::rhythm::literal::{Attack, Prepared, Schedule};
use phasecraft::music::rhythm::{BooleanOp, Expression, ReferenceMode, RhythmTrace};
use phasecraft::music::notation::Draw;
use phasecraft::music::time::NoteValue;

fn euclid(steps: u32, pulses: u32, rotation: i32) -> Expression {
    Expression::Euclidean { steps, pulses, rotation, reset_on_phrase: false }
}

#[test]
fn boolean_operators_follow_their_truth_tables() {
    let table = [(false, false), (false, true), (true, false), (true, true)];
    let expect = |op: BooleanOp| table.map(|(a, b)| op.apply(a, b));
    assert_eq!(expect(BooleanOp::Or), [false, true, true, true]);
    assert_eq!(expect(BooleanOp::And), [false, false, false, true]);
    assert_eq!(expect(BooleanOp::Xor), [false, true, true, false]);
    assert_eq!(expect(BooleanOp::ANotB), [false, false, true, false]);
    assert_eq!(expect(BooleanOp::BNotA), [false, true, false, false]);
}

#[test]
fn euclidean_five_of_eight_and_its_rotation() {
    let hits = |e: &Expression| (0..8).filter(|&i| e.evaluate(i, 16, &|_, _| false).active()).collect::<Vec<u64>>();
    assert_eq!(hits(&euclid(8, 5, 0)), vec![0, 2, 4, 5, 7]);
    // a positive rotation delays
    assert_eq!(hits(&euclid(8, 5, 1)), vec![0, 1, 3, 5, 6]);
    match euclid(8, 5, 0).evaluate(13, 16, &|_, _| false) {
        RhythmTrace::Euclidean { phase, active, .. } => {
            assert_eq!(phase, 5);
            assert!(active);
        }
        other => panic!("{other:?}"),
    }
}

#[test]
fn a_phrase_reset_reads_the_phrase_position() {
    let e = Expression::Euclidean { steps: 3, pulses: 1, rotation: 0, reset_on_phrase: true };
    // step 16 of a 16-step phrase is its position 0
    assert!(e.evaluate(16, 16, &|_, _| false).active());
    assert!(!euclid(3, 1, 0).evaluate(16, 16, &|_, _| false).active());
}

#[test]
fn a_part_reference_asks_the_caller() {
    let e = Expression::Binary {
        op: BooleanOp::ANotB,
        a: Box::new(euclid(4, 4, 0)),
        b: Box::new(Expression::Part { id: "kick".into(), mode: ReferenceMode::Hits }),
    };
    let kick_fires = |id: &str, mode: ReferenceMode| id == "kick" && mode == ReferenceMode::Hits;
    assert!(!e.evaluate(0, 16, &kick_fires).active());
    assert!(e.evaluate(0, 16, &|_, _| false).active());
    assert_eq!(e.references(), vec!["kick"]);
}

#[test]
fn validation_names_the_first_broken_rule() {
    assert!(euclid(16, 5, 0).validate(0).is_ok());
    assert_eq!(euclid(0, 0, 0).validate(0).unwrap_err(), "Euclidean requires 1 <= steps <= 65536 and pulses <= steps");
    assert!(euclid(4, 5, 0).validate(0).is_err());
    let blank = Expression::Part { id: " ".into(), mode: ReferenceMode::Structure };
    assert_eq!(blank.validate(0).unwrap_err(), "Part reference id cannot be empty");
    assert_eq!(euclid(4, 1, 0).validate(33).unwrap_err(), "rhythm expression nesting exceeds 32");
    let literal = Expression::Literal { pattern: "x ~".into(), cycle_bars: 1, rotate: 0, prepared: None };
    assert_eq!(
        literal.validate(0).unwrap_err(),
        "literal material must be prepared as the trigger root for this pattern before playback"
    );
}

#[test]
fn a_literal_is_prepared_at_load_and_read_by_step() {
    let mut e = Expression::Literal { pattern: "x ~ x x".into(), cycle_bars: 1, rotate: 0, prepared: None };
    e.prepare(NoteValue(240)).unwrap();
    assert!(e.validate(0).is_ok());
    assert!(e.contains_literal());
    assert!(e.literal_schedule().is_some());
    let active: Vec<u64> = (0..16).filter(|&s| e.evaluate(s, 16, &|_, _| false).active()).collect();
    assert_eq!(active, vec![0, 8, 12]);
    // a literal inside a combination is refused
    let mut combo = Expression::Binary {
        op: BooleanOp::Or,
        a: Box::new(Expression::Literal { pattern: "x".into(), cycle_bars: 1, rotate: 0, prepared: None }),
        b: Box::new(euclid(4, 1, 0)),
    };
    assert!(combo.prepare(NoteValue(240)).unwrap_err().starts_with("literal material must be the trigger root"));
    // a prepared literal nested below the root does not validate
    assert!(e.validate(1).is_err());
}

#[test]
fn schedules_refuse_what_they_cannot_place() {
    let err = |text: &str, bars: u32, cell: u64| Schedule::prepare(text, bars, NoteValue(cell), 0).unwrap_err();
    assert_eq!(err("x", 0, 240), "literal pattern \"x\": cycle_bars must be positive");
    assert_eq!(err("x", 1, 7), "literal pattern \"x\": subdivision must be a supported note value");
    assert_eq!(err("x 1", 1, 240), "literal pattern \"x 1\": a trigger schedule accepts only hits (x) and rests (~)");
    assert!(err("x x x", 1, 240).contains("is off subdivision 1/16"));
    assert!(err("[x, x]", 1, 240).contains("duplicate trigger onset at tick 0 (cycle 0)"));
    let dense = format!("x*8{}", " ~".repeat(255));
    assert_eq!(
        err(&dense, 1, 40),
        format!("literal pattern {dense:?}: onset at tick 0 has span 15 with ratchet 8; at least two ticks per attack are required")
    );
    assert!(err("x [", 1, 240).starts_with("literal pattern \"x [\": at byte"));
}

#[test]
fn a_schedule_repeats_and_rotates_by_cells() {
    let s = Schedule::prepare("<x ~> ~ x ~", 1, NoteValue(960), 0).unwrap();
    assert_eq!(s.period_ticks(), 7680);
    let at = |t: u64| s.at(t).map(|a| a.span_ticks);
    assert_eq!(at(0), Some(960));
    assert_eq!(at(1920), Some(960));
    assert_eq!(at(3840), None);
    assert_eq!(at(3840 + 1920), Some(960));
    assert_eq!(at(7680), Some(960));
    assert_eq!(at(1), None);
    // one cell of delay
    let r = Schedule::prepare("x ~ ~ ~", 1, NoteValue(960), 1).unwrap();
    assert_eq!(r.at(0), None);
    assert!(r.at(960).is_some());
    let back = Schedule::prepare("x ~ ~ ~", 1, NoteValue(960), -1).unwrap();
    assert!(back.at(2880).is_some());
}

#[test]
fn ratchet_children_split_the_attack_span() {
    let a = Attack { span_ticks: 480, ratchet: 3, draw: Draw::NoDraw };
    assert_eq!(a.child_offset(0), Some(0));
    assert_eq!(a.child_offset(1), Some(160));
    assert_eq!(a.child_offset(2), Some(320));
    assert_eq!(a.child_offset(3), None);
    let odd = Attack { span_ticks: 7, ratchet: 2, draw: Draw::Tail };
    assert_eq!(odd.child_offset(1), Some(3));
}

#[test]
fn a_preparation_remembers_what_it_was_made_from() {
    let p = Prepared::new("x ~", 2, NoteValue(240), 3).unwrap();
    assert!(p.matches("x ~", 2, 3));
    assert!(!p.matches("x ~ ", 2, 3));
    assert!(!p.matches("x ~", 1, 3));
    assert_eq!(p.schedule().period_ticks(), 7680);
    // step s reads tick s * 240, delayed by three cells
    assert!(p.at_step(3).is_some());
    assert!(p.at_step(0).is_none());
}

#[test]
fn three_of_eight_is_x_dot_dot_x_dot_dot_x_dot() {
    let e = euclid(8, 3, 0);
    let text: String = (0..8).map(|i| if e.evaluate(i, 16, &|_, _| false).active() { 'x' } else { '.' }).collect();
    assert_eq!(text, "x..x..x.");
}

#[test]
fn every_euclidean_cycle_holds_its_pulse_count() {
    for steps in 1..=16u32 {
        for pulses in 0..=steps {
            let e = euclid(steps, pulses, 0);
            let count = (0..steps as u64).filter(|&i| e.evaluate(i, 64, &|_, _| false).active()).count();
            assert_eq!(count, pulses as usize, "E({pulses},{steps})");
        }
    }
}
