use phasecraft::music::process::{Apply, MutationDecision, RetainedSwap};

#[test]
fn a_swap_needs_hits_rests_and_a_period() {
    assert_eq!(RetainedSwap::new(&[], 4, Apply::Bar).unwrap_err(), "retained swap requires 1..4096 initial slots");
    assert_eq!(
        RetainedSwap::new(&[true, true], 4, Apply::Bar).unwrap_err(),
        "retained swap requires at least one hit and one rest"
    );
    assert_eq!(
        RetainedSwap::new(&[true, false], 0, Apply::Bar).unwrap_err(),
        "retained swap every must be 1..65536 slots"
    );
    let s = RetainedSwap::new(&[true, false, false, true], 2, Apply::Cycle).unwrap();
    assert_eq!(s.material(), &[true, false, false, true]);
    assert!(s.pending().is_none());
    assert_eq!(s.next_slot(), 0);
}

#[test]
fn an_edit_waits_for_the_next_boundary_and_keeps_the_hit_count() {
    let mut s = RetainedSwap::new(&[true, false, false, true], 2, Apply::Cycle).unwrap();
    // slot 0: a boundary with nothing pending, and an opportunity: swap rest 1 and hit 0
    let step = s.advance_slot(Some((1, 0))).unwrap();
    assert_eq!(step.occurrence, Some(0));
    assert!(!step.committed);
    assert_eq!(step.swapped, Some((2, 0)));
    assert_eq!(s.material(), &[true, false, false, true]);
    assert_eq!(s.pending(), Some(&[false, false, true, true][..]));
    // slot 1: no opportunity
    let step = s.advance_slot(Some((0, 0))).unwrap();
    assert_eq!(step.occurrence, None);
    assert_eq!(step.swapped, None);
    s.advance_slot(None).unwrap();
    s.advance_slot(None).unwrap();
    // slot 4: the cycle boundary publishes the edit
    let step = s.advance_slot(None).unwrap();
    assert!(step.committed);
    assert_eq!(s.material(), &[false, false, true, true]);
    assert!(s.pending().is_none());
    assert_eq!(s.counts(), (2, 2));
    assert_eq!(s.next_slot(), 5);
}

#[test]
fn decision_keys_name_the_draws() {
    assert_eq!(MutationDecision::Admit.key(), "admit");
    assert_eq!(MutationDecision::RestIndex.key(), "rest_index");
    assert_eq!(MutationDecision::HitIndex.key(), "hit_index");
}
