use phasecraft::authoring::expansion::expand_draft;
use phasecraft::music::cycle::expression;
use phasecraft::music::notation::{Draw, Pattern};
use phasecraft::music::process::{Apply, RetainedSwap};
use phasecraft::music::ratio::Ratio;
use phasecraft::music::rhythm::{BooleanOp, Expression, ReferenceMode};
use phasecraft::music::time::NoteValue;

#[test]
fn note_value_labels_read_back() {
    for ticks in [3840u64, 1920, 960, 480, 240, 120, 60, 720, 160, 2560, 5760] {
        let v = NoteValue(ticks);
        assert!(v.valid());
        let label = v.label();
        assert_eq!(NoteValue::parse(&label).unwrap().0, ticks, "{label}");
    }
    assert_eq!(NoteValue(240).label(), "1/16");
    assert_eq!(NoteValue(720).label(), "1/8.");
    assert_eq!(NoteValue(160).label(), "1/16T");
}

#[test]
fn reduced_fractions_are_in_lowest_terms() {
    assert_eq!(Ratio::reduce(2, 8), Ratio { num: 1, den: 4 });
    assert_eq!(Ratio::reduce(0, 7), Ratio { num: 0, den: 1 });
    assert_eq!(Ratio::reduce(3360, 3840), Ratio { num: 7, den: 8 });
}

fn euclid(steps: u32, pulses: u32, rotation: i32) -> Expression {
    Expression::Euclidean { steps, pulses, rotation, reset_on_phrase: false }
}

fn never(_: &str, _: ReferenceMode) -> bool {
    false
}

#[test]
fn a_rotation_delays_a_euclidean_rhythm_by_its_steps() {
    for rotation in [-3i32, -1, 0, 2, 5, 9] {
        let rotated = euclid(8, 5, rotation);
        let plain = euclid(8, 5, 0);
        for s in 0..32u64 {
            let shifted = (s as i64 - rotation as i64).rem_euclid(8) as u64;
            assert_eq!(
                rotated.evaluate(s, 16, &never).active(),
                plain.evaluate(shifted, 16, &never).active(),
                "rotation {rotation} step {s}"
            );
        }
    }
}

#[test]
fn rhythms_of_sixteen_five_and_seven_steps_realign_after_560_steps() {
    let e = Expression::Binary {
        op: BooleanOp::Or,
        a: Box::new(euclid(16, 7, 0)),
        b: Box::new(Expression::Binary {
            op: BooleanOp::Xor,
            a: Box::new(euclid(5, 2, 0)),
            b: Box::new(euclid(7, 3, 1)),
        }),
    };
    assert_eq!(expression(&e, 16, 240, &[]), Ok(560 * 240));
    for s in 0..700u64 {
        assert_eq!(e.evaluate(s, 16, &never).active(), e.evaluate(s + 560, 16, &never).active(), "step {s}");
    }
    // one period is not less than 560 steps
    assert!((0..560u64).any(|s| e.evaluate(s, 16, &never).active() != e.evaluate(s + 280, 16, &never).active()));
}

#[test]
fn a_pattern_repeats_after_its_period() {
    let p = Pattern::parse("[<x ~ x> x] {1 2 3 4 5 6 7}%16").unwrap();
    assert_eq!(p.period_cycles(), Some(21));
    for k in 0..30u64 {
        assert_eq!(p.cycle(k), p.cycle(k + 21), "cycle {k}");
        assert_eq!(p.cycle(k), p.cycle(k + 42), "cycle {k}");
    }
    assert_ne!(p.cycle(0), p.cycle(7));
}

#[test]
fn swaps_keep_the_number_of_hits() {
    let initial = [true, false, false, true, false, false, true, false];
    let mut s = RetainedSwap::new(&initial, 2, Apply::Cycle).unwrap();
    for n in 0..40usize {
        let (rests, hits) = s.counts();
        let swap = if n % 3 == 0 { None } else { Some((n % rests, (n / 2) % hits)) };
        s.advance_slot(swap).unwrap();
        assert_eq!(s.material().len(), 8);
        assert_eq!(s.material().iter().filter(|&&b| b).count(), 3);
        if let Some(p) = s.pending() {
            assert_eq!(p.len(), 8);
            assert_eq!(p.iter().filter(|&&b| b).count(), 3);
        }
    }
    assert_eq!(s.next_slot(), 40);
}

#[test]
fn gaps_are_listed_in_order_and_once() {
    let library = vec![("lib.toml".to_string(), "[library.kit.box]\nnote = 36\n".to_string())];
    let text = "tempo = 120\nparts = [\n  { id = 'zeta', kit = 'box', parameters = { cutoff = { value = 0.5 } } },\n  { id = 'alpha', kit = 'box', parameters = { res = { value = 0.1 } } },\n]\n";
    let draft = expand_draft(text, &library).unwrap();
    let parts: Vec<&str> = draft.gaps.iter().map(|g| g.part.as_str()).collect();
    assert_eq!(parts, vec!["alpha", "zeta"]);
}

#[test]
fn a_phrase_reset_rhythm_realigns_with_its_phrase() {
    let e = Expression::Binary {
        op: BooleanOp::Xor,
        a: Box::new(euclid(8, 3, 0)),
        b: Box::new(Expression::Euclidean { steps: 3, pulses: 1, rotation: 0, reset_on_phrase: true }),
    };
    assert_eq!(expression(&e, 16 * 240, 240, &[]), Ok(16 * 240));
    for s in 0..100u64 {
        assert_eq!(e.evaluate(s, 16, &never).active(), e.evaluate(s + 16, 16, &never).active(), "step {s}");
    }
}

#[test]
fn a_drawn_hit_strikes_once_and_a_drawn_ratchet_draws_its_tails() {
    let p = Pattern::parse("x? x*3? [x x?]*2 <x@2 x>").unwrap();
    for k in 0..4u64 {
        for e in p.cycle(k) {
            assert!(e.span.num > 0);
            match e.draw {
                Draw::Hit => assert_eq!(e.ratchet, 1),
                Draw::Tail => assert!(e.ratchet >= 2),
                Draw::NoDraw => {}
            }
        }
    }
    let c = p.cycle(0);
    assert_eq!((c[0].draw, c[0].ratchet), (Draw::Hit, 1));
    assert_eq!((c[1].draw, c[1].ratchet), (Draw::Tail, 3));
}

#[test]
fn a_cycle_renders_no_more_events_than_its_proved_cost() {
    for text in ["x(5,8)*2", "[x x x x]*4 <x [x x]>", "{x x? x*3}%16 [1,3,5]", "x(3,8,2) x(7,16,5)"] {
        let p = Pattern::parse(text).unwrap();
        let (_, events) = p.render_bounds();
        for k in 0..8u64 {
            let n = p.cycle(k).len() as u64;
            assert!(n <= events && n <= 4096, "{text} cycle {k}: {n} events, bound {events}");
        }
    }
    assert_eq!(Pattern::parse("x(5,8)").unwrap().cycle(0).len(), 5);
}

#[test]
fn literal_material_repeats_after_its_schedule_period() {
    let mut e = Expression::Literal { pattern: "<x ~> x ~ [x x]".into(), cycle_bars: 1, rotate: 1, prepared: None };
    e.prepare(NoteValue(240)).unwrap();
    let period = expression(&e, 16 * 240, 240, &[]).unwrap();
    assert_eq!(period % 240, 0);
    let steps = period / 240;
    assert_eq!(steps, 32);
    for s in 0..80u64 {
        assert_eq!(e.evaluate(s, 16, &never).active(), e.evaluate(s + steps, 16, &never).active(), "step {s}");
    }
}
