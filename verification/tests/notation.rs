use phasecraft::music::notation::bounds::MAX_EVENTS;
use phasecraft::music::notation::{Draw, Pattern, Token, TokenKinds};
use phasecraft::music::ratio::Ratio;
use phasecraft::music::rhythm::Expression;

fn r(num: u64, den: u64) -> Ratio {
    Ratio::new(num, den)
}
fn parse(text: &str) -> Pattern {
    Pattern::parse(text).unwrap_or_else(|e| panic!("{text}: {e}"))
}
fn onsets(text: &str, k: u64) -> Vec<Ratio> {
    parse(text).cycle(k).into_iter().map(|e| e.onset).collect()
}
/// Onset, span, ratchet, draw for each event of one cycle.
fn shape(text: &str, k: u64) -> Vec<(Ratio, Ratio, u8, Draw)> {
    parse(text)
        .cycle(k)
        .into_iter()
        .map(|e| (e.onset, e.span, e.ratchet, e.draw))
        .collect()
}
fn sixteenths(slots: &[u64]) -> Vec<Ratio> {
    slots.iter().map(|&j| r(j, 16)).collect()
}
fn number(t: &Token) -> f64 {
    match t {
        Token::Number(text) => text.parse::<f64>().unwrap(),
        _ => panic!("expected a number"),
    }
}

#[test]
fn ratio_reduces_orders_and_floors() {
    assert_eq!(r(2, 8), r(1, 4));
    assert_eq!(r(0, 7), Ratio::zero());
    assert!(r(1, 3) < r(1, 2) && r(7, 8) > r(3, 4));
    assert_eq!(r(3, 4) + r(1, 8), r(7, 8));
    assert_eq!(r(1, 2) * r(1, 4), r(1, 8));
    assert_eq!(r(1, 16).mul_int(3), r(3, 16));
    assert_eq!(r(7, 8).ticks(3840), 3360);
    // floor, and no overflow on the way there
    assert_eq!(r(1, 7).ticks(3840), 548);
    assert_eq!(r(1, 3).ticks(u64::MAX), u64::MAX / 3);
}

#[test]
fn worked_example_hits_with_a_subdivided_last_step() {
    assert_eq!(
        shape("x x x [x x?]", 0),
        vec![
            (Ratio::zero(), r(1, 4), 1, Draw::NoDraw),
            (r(1, 4), r(1, 4), 1, Draw::NoDraw),
            (r(1, 2), r(1, 4), 1, Draw::NoDraw),
            (r(3, 4), r(1, 8), 1, Draw::NoDraw),
            (r(7, 8), r(1, 8), 1, Draw::Hit),
        ]
    );
}

#[test]
fn worked_example_rests_inside_subdivisions() {
    assert_eq!(
        shape("x ~ [~ x] [~ x?]", 0),
        vec![
            (Ratio::zero(), r(1, 4), 1, Draw::NoDraw),
            (r(5, 8), r(1, 8), 1, Draw::NoDraw),
            (r(7, 8), r(1, 8), 1, Draw::Hit),
        ]
    );
}

#[test]
fn worked_example_alternation_changes_the_last_step() {
    assert_eq!(
        shape("~ x ~ <x [x x*2]>", 0),
        vec![(r(1, 4), r(1, 4), 1, Draw::NoDraw), (r(3, 4), r(1, 4), 1, Draw::NoDraw)]
    );
    assert_eq!(
        shape("~ x ~ <x [x x*2]>", 1),
        vec![
            (r(1, 4), r(1, 4), 1, Draw::NoDraw),
            (r(3, 4), r(1, 8), 1, Draw::NoDraw),
            (r(7, 8), r(1, 8), 2, Draw::NoDraw),
        ]
    );
    // the tail of that ratchet lands at 15/16
    let tail = r(7, 8) + r(1, 8) * r(1, 2);
    assert_eq!(tail, r(15, 16));
    assert_eq!(shape("~ x ~ <x [x x*2]>", 2), shape("~ x ~ <x [x x*2]>", 0));
}

#[test]
fn worked_example_draw_gates_a_ratchet_tail() {
    assert_eq!(
        shape("~ x ~ [x x*3?]", 0),
        vec![
            (r(1, 4), r(1, 4), 1, Draw::NoDraw),
            (r(3, 4), r(1, 8), 1, Draw::NoDraw),
            (r(7, 8), r(1, 8), 3, Draw::Tail),
        ]
    );
}

#[test]
fn worked_example_weight() {
    assert_eq!(
        shape("x@3 [~ x]", 0),
        vec![(Ratio::zero(), r(3, 4), 1, Draw::NoDraw), (r(7, 8), r(1, 8), 1, Draw::NoDraw)]
    );
    // a fractional weight is exact: 1.5 : 1 : 1 shares of the cycle
    assert_eq!(onsets("x@1.5 x x", 0), vec![Ratio::zero(), r(3, 7), r(5, 7)]);
}

#[test]
fn worked_example_polymeter_walks_across_the_cycle_line() {
    let p = "{x ~ x x ~ x ~}%16";
    assert_eq!(onsets(p, 0), sixteenths(&[0, 2, 3, 5, 7, 9, 10, 12, 14]));
    assert_eq!(onsets(p, 1), sixteenths(&[0, 1, 3, 5, 7, 8, 10, 12, 14, 15]));
    assert_eq!(onsets(p, 6), sixteenths(&[0, 2, 4, 5, 7, 9, 11, 12, 14]));
    assert!(parse(p).cycle(0).iter().all(|e| e.span == r(1, 16)));
    assert_eq!(parse(p).period_cycles(), Some(7));
    assert_eq!(onsets(p, 7), onsets(p, 0));
}

#[test]
fn worked_example_euclid() {
    assert_eq!(
        shape("x(5,8)", 0),
        vec![
            (Ratio::zero(), r(1, 8), 1, Draw::NoDraw),
            (r(1, 4), r(1, 8), 1, Draw::NoDraw),
            (r(1, 2), r(1, 8), 1, Draw::NoDraw),
            (r(5, 8), r(1, 8), 1, Draw::NoDraw),
            (r(7, 8), r(1, 8), 1, Draw::NoDraw),
        ]
    );
}

#[test]
fn euclid_matches_the_euclidean_leaf() {
    for (pulses, steps, rotation) in [(5, 8, 0), (3, 8, 0), (3, 8, 2), (7, 16, 3), (1, 4, 1)] {
        let leaf = Expression::Euclidean { steps, pulses, rotation, reset_on_phrase: false };
        let expected: Vec<Ratio> = (0..u64::from(steps))
            .filter(|&i| leaf.evaluate_position(i, i, &|_, _| false).active())
            .map(|i| r(i, u64::from(steps)))
            .collect();
        let text = format!("x({pulses},{steps},{rotation})");
        assert_eq!(onsets(&text, 0), expected, "{text}");
    }
}

#[test]
fn worked_example_chord_is_five_simultaneous_values() {
    let events = parse("[1,3,5,7,9]").cycle(0);
    assert_eq!(events.len(), 5);
    assert!(events.iter().all(|e| e.onset == Ratio::zero() && e.span == Ratio::one()));
    // stacked events keep source order at equal onsets
    let values: Vec<f64> = events.iter().map(|e| number(&e.token)).collect();
    assert_eq!(values, vec![1.0, 3.0, 5.0, 7.0, 9.0]);
    assert_eq!(parse("[1,3,5,7,9]").kinds(), TokenKinds { numbers: true, ..TokenKinds::default() });
}

#[test]
fn worked_example_note_alternation() {
    let p = parse("<c1 c1 eb1 bb0>");
    let midi: Vec<u8> = (0..5)
        .map(|k| match &p.cycle(k)[0].token {
            Token::Note { midi, .. } => *midi,
            other => panic!("expected a note, got {other:?}"),
        })
        .collect();
    assert_eq!(midi, vec![36, 36, 39, 34, 36]);
    assert_eq!(p.period_cycles(), Some(4));
    match &p.cycle(2)[0].token {
        Token::Note { name, .. } => assert_eq!(name, "eb1"),
        other => panic!("expected a note, got {other:?}"),
    }
}

#[test]
fn note_names_span_accidentals_and_negative_octaves() {
    let cases = [("c1", 36u8), ("eb1", 39), ("bb0", 34), ("f#-1", 18), ("c0", 24)];
    for (text, expect) in cases {
        match &parse(text).cycle(0)[0].token {
            Token::Note { midi, name } => {
                assert_eq!((*midi, name.as_str()), (expect, text), "{text}");
            }
            other => panic!("{text}: expected a note, got {other:?}"),
        }
    }
    // a word that is not note-shaped is a name
    assert!(matches!(parse("rifle").cycle(0)[0].token, Token::Name(_)));
    // out of MIDI range is an error, not a silent name
    assert!(Pattern::parse("c9").is_err());
}

#[test]
fn worked_example_slice_row_leaves_the_rests_out() {
    let p = "1 2 3 ~ 5 ~ 7 8 1 ~ 3 4 ~ 6 7 ~";
    let got: Vec<u64> = parse(p).cycle(0).iter().map(|e| e.onset.num * 16 / e.onset.den).collect();
    // rests at 3, 5, 9, 12, 15
    assert_eq!(got, vec![0, 1, 2, 4, 6, 7, 8, 10, 11, 13, 14]);
    assert_eq!(parse(p).cycle(0).len(), 11);
}

#[test]
fn worked_example_lone_ratchet() {
    let events = parse("~ 12*6").cycle(0);
    assert_eq!(events.len(), 1);
    assert_eq!(events[0].onset, r(1, 2));
    assert_eq!(events[0].span, r(1, 2));
    assert_eq!(events[0].ratchet, 6);
    assert_eq!(events[0].draw, Draw::NoDraw);
    assert_eq!(number(&events[0].token), 12.0);
}

#[test]
fn ticks_place_plain_hits_and_a_draw() {
    let got: Vec<(u64, Draw)> =
        parse("x x x [x x?]").ticks(0, 3840).unwrap().into_iter().map(|e| (e.tick, e.draw)).collect();
    assert_eq!(
        got,
        vec![(0, Draw::NoDraw), (960, Draw::NoDraw), (1920, Draw::NoDraw), (2880, Draw::NoDraw), (3360, Draw::Hit)]
    );
}

#[test]
fn ticks_place_ratchet_tails() {
    let got = parse("~ x ~ [x x*3?]").ticks(0, 3840).unwrap();
    assert_eq!(got.iter().map(|e| e.tick).collect::<Vec<_>>(), vec![960, 2880, 3360]);
    assert_eq!(got[2].span_ticks, 480);
    assert_eq!(got[2].tails, vec![3520, 3680]);
    assert_eq!(got[2].draw, Draw::Tail);
    assert!(got[0].tails.is_empty() && got[1].tails.is_empty());
}

#[test]
fn ticks_place_a_six_way_ratchet() {
    let got = parse("~ 12*6").ticks(0, 3840).unwrap();
    assert_eq!(got.len(), 1);
    assert_eq!((got[0].tick, got[0].span_ticks), (1920, 1920));
    let expected: Vec<u64> = (1..6).map(|i| 1920 + 1920 * i / 6).collect();
    assert_eq!(got[0].tails, expected);
    assert_eq!(got[0].tails, vec![2240, 2560, 2880, 3200, 3520]);
}

#[test]
fn ticks_offset_by_the_cycle_index() {
    let got = parse("x x x [x x?]").ticks(2, 3840).unwrap();
    assert_eq!(got.iter().map(|e| e.tick).collect::<Vec<_>>(), vec![7680, 8640, 9600, 10560, 11040]);
}

#[test]
fn ticks_floor_a_seven_tuplet() {
    let got = parse("x x x x x x x").ticks(0, 3840).unwrap();
    assert_eq!(got.iter().map(|e| e.tick).collect::<Vec<_>>(), vec![0, 548, 1097, 1645, 2194, 2742, 3291]);
    // spans tile the cycle exactly despite the floor
    assert_eq!(got.iter().map(|e| e.span_ticks).sum::<u64>(), 3840);
}

#[test]
fn period_cycles_is_the_lcm_of_every_alternation_and_polymeter() {
    assert_eq!(parse("x ~ x").period_cycles(), Some(1));
    assert_eq!(parse("<x ~ x>").period_cycles(), Some(3));
    assert_eq!(parse("<x ~>").period_cycles(), Some(2));
    assert_eq!(parse("{1 2 3 4 5 6 7}%16").period_cycles(), Some(7));
    assert_eq!(parse("<x ~ x> <x ~>").period_cycles(), Some(6));
    assert_eq!(parse("[<x ~ x> x] {1 2 3 4 5 6 7}%16").period_cycles(), Some(21));
    assert_eq!(parse("<x <x ~ x>>").period_cycles(), Some(6));
}

#[test]
fn an_expensive_leaf_can_outlive_any_u64_period() {
    let alt = |len: usize| format!(" <x{}>", " ~".repeat(len - 1));
    let primes = [2usize, 3, 5, 7, 11, 13, 17, 19, 23, 29, 31, 37, 41, 43, 47, 53];
    let tail = |n: usize| primes[..n].iter().map(|&l| alt(l)).collect::<String>();

    let p = parse(&format!("[~(1024,1024)](340,340){}", tail(9)));
    assert_eq!(p.period_cycles(), Some(223_092_870));

    let p = parse(&format!("[~(1024,1024)](340,340){}", tail(16)));
    assert_eq!(p.period_cycles(), None);
    assert_eq!(p.cycle(999_999_999_999).len(), 5);

    assert!(Pattern::parse(&format!("[~(1024,1024)](341,341){}", tail(9))).is_err());
}

#[test]
fn nested_alternation_uses_the_cycle_index_directly() {
    let p = parse("<x <a b c>>");
    assert_eq!(p.cycle(0)[0].token, Token::Hit);
    assert!(matches!(&p.cycle(1)[0].token, Token::Name(n) if n == "b"));
    assert!(matches!(&p.cycle(3)[0].token, Token::Name(n) if n == "a"));
    assert!(matches!(&p.cycle(5)[0].token, Token::Name(n) if n == "c"));
}

#[test]
fn kinds_report_every_token_family() {
    assert_eq!(parse("x ~ x").kinds(), TokenKinds { hits: true, ..TokenKinds::default() });
    assert_eq!(parse("rifle ~ pistol pistol").kinds(), TokenKinds { names: true, ..TokenKinds::default() });
    assert_eq!(parse("<c1 eb1>").kinds(), TokenKinds { notes: true, ..TokenKinds::default() });
    assert_eq!(
        parse("x 1 c1 rifle").kinds(),
        TokenKinds { hits: true, numbers: true, notes: true, names: true }
    );
    assert_eq!(parse("~ ~").kinds(), TokenKinds::default());
}

#[test]
fn rejects_everything_the_spec_leaves_out() {
    let rejected =
        ["x/2", "x / 2", "x!", "x!2", "x ! x", "x . x", "x.every(2)", "x _", "_", "x | ~", "x?0.3", "{x ~ x}", "{x ~ x}%"];
    for text in rejected {
        assert!(Pattern::parse(text).is_err(), "{text} should not have parsed");
    }
}

#[test]
fn refuses_a_pattern_whose_expansion_is_unbounded() {
    let bomb = "[[x(1024,1024)](1024,1024)](1024,1024)";
    let err = Pattern::parse(bomb).expect_err("expansion bomb should not have parsed");
    assert!(err.contains("more than 4096 events"), "{err}");
    assert!(Pattern::parse("[x(1024,1024),x(1024,1024),x(1024,1024),x(1024,1024),x(1024,1024)]").is_err());
    assert_eq!(parse("x(1024,1024)").cycle(0).len(), 1024);
    assert_eq!(parse("{x ~ x x ~ x ~}%16").cycle(0).len(), 9);
}

#[test]
fn refuses_expansion_that_is_silent_and_still_enormous() {
    let silent = "[[~(1024,1024)](1024,1024)](1024,1024)";
    let err = Pattern::parse(silent).expect_err("a silent bomb should not have parsed");
    assert!(err.contains("render steps"), "{err}");
    let one_pulse = "[[x(1,1024)](64,64)](64,64)";
    let err = Pattern::parse(one_pulse).expect_err("a sparse bomb should not have parsed");
    assert!(err.contains("render steps"), "{err}");
    assert_eq!(parse("[[x(1,1)](64,64)](64,64)").cycle(0).len() as u64, MAX_EVENTS);
    assert!(Pattern::parse("x(0,1024)").is_err());
    assert!(Pattern::parse("x(0,8)").is_err());
    assert_eq!(parse("~(1024,1024)").cycle(0).len(), 0);
    assert_eq!(parse("[~(64,64)](64,64)").cycle(0).len(), 0);
    assert_eq!(parse("[x(64,64)](64,64)").cycle(0).len(), 4096);
}

#[test]
fn every_accepted_pattern_terminates() {
    let worst = [
        "[x(64,64)](64,64)",
        "[~(1024,1024)](256,256)",
        "[~(1024,1024)](341,341)",
        "x(1024,1024)",
        "<[x(32,32)](32,32) [~(512,512)](2,512)>",
        "{[x(16,16)](16,16)}%16",
    ];
    let start = std::time::Instant::now();
    for text in worst {
        let p = Pattern::parse(text).unwrap_or_else(|e| panic!("{text}: {e}"));
        for k in 0..4 {
            assert!(p.cycle(k).len() as u64 <= MAX_EVENTS);
        }
    }
    assert!(start.elapsed() < std::time::Duration::from_secs(2), "accepted patterns took {:?}", start.elapsed());
}

#[test]
fn refuses_a_number_that_overflows_to_infinity() {
    let text = "9".repeat(400);
    let err = Pattern::parse(&text).expect_err("an infinite literal should not have parsed");
    assert!(err.contains("not a finite number"), "{err}");
    assert!(Pattern::parse(&format!("x {} x", "9".repeat(400))).is_err());
    assert!(Pattern::parse("179769313486231570000000000000000000000").is_ok());
}

#[test]
fn refuses_a_cycle_past_the_end_of_the_tick_grid() {
    let p = parse("x*2");
    assert!(p.ticks(u64::MAX, 3840).is_err());
    assert!(p.ticks(u64::MAX / 3840, 3840).is_err());
    let last = u64::MAX / 3840 - 1;
    let got = p.ticks(last, 3840).expect("the last whole cycle is representable");
    assert_eq!(got[0].tick, last * 3840);
    assert_eq!(got[0].tails, vec![last * 3840 + 1920]);
}

#[test]
fn rejects_malformed_patterns() {
    let rejected = [
        "", "   ", ",", "x ,", "[]", "[x", "<>", "<x", "x]", "x**2", "x*2*3", "x*1", "x*9", "x@", "x@0", "x@-2", "x??",
        "x@2@3", "x(5)", "x(9,8)", "x(5,0)", "x(5,8", "x(5,8)(3,4)", "{x x}%0", "$", "X", "c9", "1.", ".5", "-",
        "x 2.3.4",
    ];
    for text in rejected {
        assert!(Pattern::parse(text).is_err(), "{text:?} should not have parsed");
    }
}

#[test]
fn errors_name_the_offset_and_what_was_expected() {
    let err = Pattern::parse("x x | x").unwrap_err();
    assert!(err.starts_with("at byte 4:"), "{err}");
    assert!(err.contains("unexpected"), "{err}");
    let err = Pattern::parse("x*9").unwrap_err();
    assert!(err.contains("at byte 3") && err.contains("2..=8"), "{err}");
}

#[test]
fn nesting_is_capped_at_eight() {
    let ok = format!("{}x{}", "[".repeat(8), "]".repeat(8));
    assert!(Pattern::parse(&ok).is_ok());
    let deep = format!("{}x{}", "[".repeat(9), "]".repeat(9));
    assert!(Pattern::parse(&deep).is_err());
}

#[test]
fn a_one_element_alternation_is_that_element() {
    assert_eq!(shape("<x>", 0), shape("x", 0));
    assert_eq!(shape("<x>", 5), shape("x", 5));
}

#[test]
fn a_stack_sorts_by_onset_and_keeps_source_order() {
    let events = parse("x@3 x, x x").cycle(0);
    assert_eq!(
        events.iter().map(|e| (e.onset, e.span)).collect::<Vec<_>>(),
        vec![(Ratio::zero(), r(3, 4)), (Ratio::zero(), r(1, 2)), (r(1, 2), r(1, 2)), (r(3, 4), r(1, 4))]
    );
}

#[test]
fn modifiers_reach_the_leaves_of_a_composite_step() {
    let events = parse("[x x*4]*2").cycle(0);
    assert_eq!(events.iter().map(|e| (e.onset, e.ratchet)).collect::<Vec<_>>(), vec![(Ratio::zero(), 2), (r(1, 2), 4)]);
}

#[test]
fn shape_lists_every_token_and_the_constructs_used() {
    let s = parse("x <1 2> [x?, c1*2]").shape();
    assert_eq!(s.tokens.len(), 5);
    assert!(s.stacked && s.ratchet && s.draw);
    let plain = parse("x ~ x").shape();
    assert!(!plain.stacked && !plain.ratchet && !plain.draw);
    assert_eq!(plain.tokens, vec![Token::Hit, Token::Hit]);
}

#[test]
fn render_bounds_report_the_cost_proved_at_parse() {
    let (work, events) = parse("x(5,8)").render_bounds();
    assert!(events >= 5 && work >= events);
}
