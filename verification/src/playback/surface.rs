//! What one controller message asks of the engine. The controller shows a page; in kit mode
//! it can select any Part and turn its level, otherwise it edits the kick. A message from a
//! stale generation is ignored. The engine performs the action; the page the message names is
//! shown once the action succeeds (a turn shows it at once).
use vstd::prelude::*;

use super::controller::Message;
use crate::control::Parameter;

verus! {

/// The controller's slot order of the sixteen parameters on its edit page.
pub const LAYOUT: [usize; 16] = [4, 5, 6, 2, 8, 9, 10, 7, 12, 13, 14, 11, 0, 1, 3, 15];

pub open spec fn layout_at(slot: int) -> int {
    if slot == 0 { 4 } else if slot == 1 { 5 } else if slot == 2 { 6 } else if slot == 3 { 2 }
    else if slot == 4 { 8 } else if slot == 5 { 9 } else if slot == 6 { 10 } else if slot == 7 { 7 }
    else if slot == 8 { 12 } else if slot == 9 { 13 } else if slot == 10 { 14 } else if slot == 11 { 11 }
    else if slot == 12 { 0 } else if slot == 13 { 1 } else if slot == 14 { 3 } else { 15 }
}

/// The parameter registry, in order.
pub open spec fn parameter_at(i: int) -> Parameter {
    if i == 0 { Parameter::Level } else if i == 1 { Parameter::Cutoff } else if i == 2 { Parameter::TriggerProbability }
    else if i == 3 { Parameter::AccentAmount } else if i == 4 { Parameter::ASteps } else if i == 5 { Parameter::APulses }
    else if i == 6 { Parameter::ARotation } else if i == 7 { Parameter::Operator } else if i == 8 { Parameter::BSteps }
    else if i == 9 { Parameter::BPulses } else if i == 10 { Parameter::BRotation } else if i == 11 { Parameter::AccentProbability }
    else if i == 12 { Parameter::CSteps } else if i == 13 { Parameter::CPulses } else if i == 14 { Parameter::CRotation }
    else { Parameter::Decay }
}

/// The parameter at index `i` of the registry.
pub fn parameter(i: usize) -> (r: Parameter)
    requires
        i < 16,
    ensures
        r == parameter_at(i as int),
{
    match i {
        0 => Parameter::Level,
        1 => Parameter::Cutoff,
        2 => Parameter::TriggerProbability,
        3 => Parameter::AccentAmount,
        4 => Parameter::ASteps,
        5 => Parameter::APulses,
        6 => Parameter::ARotation,
        7 => Parameter::Operator,
        8 => Parameter::BSteps,
        9 => Parameter::BPulses,
        10 => Parameter::BRotation,
        11 => Parameter::AccentProbability,
        12 => Parameter::CSteps,
        13 => Parameter::CPulses,
        14 => Parameter::CRotation,
        _ => Parameter::Decay,
    }
}

/// What the engine is asked to do.
#[derive(Clone, Debug, PartialEq, Eq)]
pub enum Action {
    Nothing,
    /// Select the Part with this id for editing.
    Select(String),
    /// Turn one parameter of the Part with this id.
    Change { part: String, parameter: Parameter, delta: i32 },
    /// Drop the temporary edits.
    Reset,
}

pub enum ActionV {
    Nothing,
    Select(Seq<char>),
    Change { part: Seq<char>, parameter: Parameter, delta: i32 },
    Reset,
}

impl View for Action {
    type V = ActionV;

    open spec fn view(&self) -> ActionV {
        match self {
            Action::Nothing => ActionV::Nothing,
            Action::Select(id) => ActionV::Select(id@),
            Action::Change { part, parameter, delta } => ActionV::Change { part: part@, parameter: *parameter, delta: *delta },
            Action::Reset => ActionV::Reset,
        }
    }
}

/// One message's plan: the page and mode to show at once, the action, the page to show once the
/// action succeeded, and whether the last feedback must be sent again.
#[derive(Clone, Debug, PartialEq, Eq)]
pub struct Plan {
    pub page: u8,
    pub kit: bool,
    pub action: Action,
    pub page_after: u8,
    pub resend: bool,
}

/// The Part a slot of kit page `page` shows: the second kit page shows Parts 17 to 32.
pub open spec fn kit_part(ids: Seq<Seq<char>>, page: u8, slot: usize) -> Option<Seq<char>> {
    let i = slot + if page == 3 { 16int } else { 0int };
    if i < ids.len() { Some(ids[i]) } else { None }
}

/// A message can be planned without running past the registry or the index range.
pub open spec fn plannable(m: Message, kit: bool, generation: u16) -> bool {
    match m {
        Message::Select { generation: g, page: p, slot } => kit && g == generation && p == 3 ==> slot <= usize::MAX - 16,
        Message::Turn { generation: g, page: p, slot, .. } => g == generation ==> {
            &&& p == 2 ==> slot < 16
            &&& kit && p == 3 ==> slot <= usize::MAX - 16
        },
        _ => true,
    }
}

/// The plan for message `m` on page `page`, in kit mode or not, at the engine's `generation`,
/// with Part ids `ids` and the selected Part `selected`.
pub open spec fn planned(m: Message, page: u8, kit: bool, generation: u16, ids: Seq<Seq<char>>, selected: Seq<char>) -> (u8, bool, ActionV, u8, bool) {
    match m {
        Message::KitHello(p) => (p, true, ActionV::Nothing, p, true),
        Message::Hello(p) => (p, false, ActionV::Nothing, p, true),
        Message::Select { generation: g, page: p, slot } => if kit && g == generation && kit_part(ids, p, slot) is Some {
            (page, kit, ActionV::Select(kit_part(ids, p, slot)->Some_0), p, false)
        } else {
            (page, kit, ActionV::Nothing, page, false)
        },
        Message::Turn { generation: g, page: p, slot, delta } => if g == generation && (kit || p == 2 || (p == 1 && slot == 0)) {
            let part = if !kit { Some("kick"@) } else if p == 2 { Some(selected) } else { kit_part(ids, p, slot) };
            let param = parameter_at(if p != 2 { 0 } else { layout_at(slot as int) });
            match part {
                Some(id) => (p, kit, ActionV::Change { part: id, parameter: param, delta }, p, false),
                None => (p, kit, ActionV::Nothing, p, false),
            }
        } else {
            (page, kit, ActionV::Nothing, page, false)
        },
        Message::Reset { generation: g } => (page, kit, if g == generation { ActionV::Reset } else { ActionV::Nothing }, page, false),
    }
}

pub open spec fn plan_view(p: Plan) -> (u8, bool, ActionV, u8, bool) {
    (p.page, p.kit, p.action@, p.page_after, p.resend)
}

fn part_in_kit(ids: &Vec<String>, page: u8, slot: usize) -> (r: Option<String>)
    requires
        page == 3 ==> slot <= usize::MAX - 16,
    ensures
        match kit_part(ids_view(ids@), page, slot) {
            Some(id) => r matches Some(s) && s@ == id,
            None => r is None,
        },
{
    let i = if page == 3 { slot + 16 } else { slot };
    if i < ids.len() {
        Some(ids[i].clone())
    } else {
        None
    }
}

pub open spec fn ids_view(v: Seq<String>) -> Seq<Seq<char>> {
    Seq::new(v.len(), |i: int| v[i]@)
}

/// Plans one controller message.
pub fn plan(m: &Message, page: u8, kit: bool, generation: u16, ids: &Vec<String>, selected: &str) -> (r: Plan)
    requires
        plannable(*m, kit, generation),
    ensures
        plan_view(r) == planned(*m, page, kit, generation, ids_view(ids@), selected@),
{
    match *m {
        Message::KitHello(p) => Plan { page: p, kit: true, action: Action::Nothing, page_after: p, resend: true },
        Message::Hello(p) => Plan { page: p, kit: false, action: Action::Nothing, page_after: p, resend: true },
        Message::Select { generation: g, page: p, slot } => {
            if kit && g == generation {
                match part_in_kit(ids, p, slot) {
                    Some(id) => {
                        return Plan { page, kit, action: Action::Select(id), page_after: p, resend: false };
                    },
                    None => {},
                }
            }
            Plan { page, kit, action: Action::Nothing, page_after: page, resend: false }
        },
        Message::Turn { generation: g, page: p, slot, delta } => {
            if g == generation && (kit || p == 2 || (p == 1 && slot == 0)) {
                proof {
                    reveal_strlit("kick");
                }
                let part = if !kit {
                    Some(String::from_str("kick"))
                } else if p == 2 {
                    Some(String::from_str(selected))
                } else {
                    part_in_kit(ids, p, slot)
                };
                let index = if p != 2 { 0 } else { LAYOUT[slot] };
                proof {
                    if p == 2 {
                        assert(LAYOUT@[slot as int] == layout_at(slot as int));
                    }
                }
                let parameter = parameter(index);
                match part {
                    Some(id) => Plan { page: p, kit, action: Action::Change { part: id, parameter, delta }, page_after: p, resend: false },
                    None => Plan { page: p, kit, action: Action::Nothing, page_after: p, resend: false },
                }
            } else {
                Plan { page, kit, action: Action::Nothing, page_after: page, resend: false }
            }
        },
        Message::Reset { generation: g } => {
            let action = if g == generation { Action::Reset } else { Action::Nothing };
            Plan { page, kit, action, page_after: page, resend: false }
        },
    }
}

} // verus!
