use phasecraft::control::Parameter;
use phasecraft::playback::controller::Message;
use phasecraft::playback::surface::{parameter, plan, Action, LAYOUT};

fn ids(n: usize) -> Vec<String> {
    (0..n).map(|i| format!("part_{i}")).collect()
}

#[test]
fn hello_switches_mode_and_asks_for_feedback_again() {
    let p = plan(&Message::KitHello(2), 1, false, 5, &ids(2), "kick");
    assert_eq!((p.page, p.kit, p.action.clone(), p.page_after, p.resend), (2, true, Action::Nothing, 2, true));
    let p = plan(&Message::Hello(3), 1, true, 5, &ids(2), "kick");
    assert_eq!((p.page, p.kit, p.action, p.page_after, p.resend), (3, false, Action::Nothing, 3, true));
}

#[test]
fn kit_select_reaches_the_second_bank() {
    let parts = ids(32);
    let p = plan(&Message::Select { generation: 7, page: 1, slot: 1 }, 1, true, 7, &parts, "part_0");
    assert_eq!(p.action, Action::Select("part_1".to_string()));
    assert_eq!((p.page, p.page_after), (1, 1));
    let p = plan(&Message::Select { generation: 7, page: 3, slot: 15 }, 1, true, 7, &parts, "part_0");
    assert_eq!(p.action, Action::Select("part_31".to_string()));
    assert_eq!((p.page, p.page_after), (1, 3));
}

#[test]
fn select_outside_kit_or_past_the_parts_does_nothing() {
    let parts = ids(3);
    let p = plan(&Message::Select { generation: 7, page: 1, slot: 1 }, 2, false, 7, &parts, "kick");
    assert_eq!((p.page, p.action.clone(), p.page_after), (2, Action::Nothing, 2));
    let p = plan(&Message::Select { generation: 7, page: 1, slot: 3 }, 2, true, 7, &parts, "kick");
    assert_eq!((p.page, p.action, p.page_after), (2, Action::Nothing, 2));
}

#[test]
fn stale_generation_is_ignored() {
    let parts = ids(4);
    for m in [
        Message::Select { generation: 6, page: 1, slot: 0 },
        Message::Turn { generation: 6, page: 2, slot: 3, delta: 1 },
        Message::Reset { generation: 6 },
    ] {
        let p = plan(&m, 2, true, 7, &parts, "part_0");
        assert_eq!((p.page, p.kit, p.action, p.page_after, p.resend), (2, true, Action::Nothing, 2, false));
    }
    let p = plan(&Message::Reset { generation: 7 }, 2, true, 7, &parts, "part_0");
    assert_eq!(p.action, Action::Reset);
}

#[test]
fn edit_page_turns_follow_the_layout() {
    let p = plan(&Message::Turn { generation: 1, page: 2, slot: 3, delta: -20 }, 1, true, 1, &ids(2), "part_1");
    assert_eq!(
        p.action,
        Action::Change { part: "part_1".to_string(), parameter: Parameter::TriggerProbability, delta: -20 }
    );
    assert_eq!((p.page, p.page_after), (2, 2));
    let p = plan(&Message::Turn { generation: 1, page: 2, slot: 0, delta: 4 }, 1, false, 1, &ids(2), "part_1");
    assert_eq!(p.action, Action::Change { part: "kick".to_string(), parameter: Parameter::ASteps, delta: 4 });
    for (slot, index) in LAYOUT.iter().enumerate() {
        let p = plan(&Message::Turn { generation: 0, page: 2, slot, delta: 1 }, 2, false, 0, &ids(0), "");
        assert_eq!(p.action, Action::Change { part: "kick".to_string(), parameter: parameter(*index), delta: 1 });
    }
}

#[test]
fn level_page_turns_a_part_level_or_only_the_kick() {
    let parts = ids(20);
    let p = plan(&Message::Turn { generation: 0, page: 3, slot: 2, delta: 2 }, 1, true, 0, &parts, "part_0");
    assert_eq!(p.action, Action::Change { part: "part_18".to_string(), parameter: Parameter::Level, delta: 2 });
    assert_eq!((p.page, p.page_after), (3, 3));
    let p = plan(&Message::Turn { generation: 0, page: 3, slot: 5, delta: 2 }, 1, true, 0, &parts, "part_0");
    assert_eq!((p.page, p.action.clone()), (3, Action::Nothing));
    let p = plan(&Message::Turn { generation: 0, page: 1, slot: 0, delta: -1 }, 2, false, 0, &parts, "part_0");
    assert_eq!(p.action, Action::Change { part: "kick".to_string(), parameter: Parameter::Level, delta: -1 });
    let p = plan(&Message::Turn { generation: 0, page: 1, slot: 1, delta: -1 }, 2, false, 0, &parts, "part_0");
    assert_eq!((p.page, p.action, p.page_after), (2, Action::Nothing, 2));
}

#[test]
fn registry_order() {
    assert_eq!(parameter(0), Parameter::Level);
    assert_eq!(parameter(7), Parameter::Operator);
    assert_eq!(parameter(15), Parameter::Decay);
}
