use bevy_mod_picking::backend::HitData;
use bevy_mod_picking::events::{Click, Down, Pointer};
use bevy_mod_picking::map::VecMap;
use bevy_mod_picking::pointer::{
    Entity, InputPress, Location, PointerButton, PointerId, PointerLocation, RenderTarget, Vec2Bits,
};
use bevy_mod_picking::selection::{
    multiselect_events, send_selection_events, update_state_from_events, NoDeselect, PickSelection,
    PointerMultiselect, SelectionSettings,
};

fn e(n: u64) -> Entity {
    Entity::from_bits(n)
}

fn loc() -> Location {
    Location { target: RenderTarget::Window(e(1)), position: Vec2Bits { x: 0, y: 0 } }
}

fn hit() -> HitData {
    HitData::new(e(100), 0, None, None)
}

fn click(target: u64) -> Pointer<Click> {
    Pointer::new(PointerId::Mouse, loc(), e(target), Click { button: PointerButton::Primary, hit: hit() })
}

fn down(target: u64) -> Pointer<Down> {
    Pointer::new(PointerId::Mouse, loc(), e(target), Down { button: PointerButton::Primary, hit: hit() })
}

fn pointers(multiselect: bool) -> Vec<(PointerId, PointerMultiselect, PointerLocation)> {
    vec![(PointerId::Mouse, PointerMultiselect { is_pressed: multiselect }, PointerLocation { location: Some(loc()) })]
}

fn selectables(states: &[(u64, bool)]) -> VecMap<Entity, PickSelection> {
    let mut m = VecMap::new();
    for (n, s) in states {
        m.insert(e(*n), PickSelection { is_selected: *s });
    }
    m
}

fn is_selected(m: &VecMap<Entity, PickSelection>, n: u64) -> bool {
    m.get(&e(n)).unwrap().is_selected
}

#[test]
fn click_selects_and_down_deselects_others() {
    let settings = SelectionSettings::default();
    let mut sel = selectables(&[(1, false), (2, true), (3, false)]);
    let out = send_selection_events(
        &settings,
        &vec![down(1)],
        &vec![InputPress::new_down(PointerId::Mouse, PointerButton::Primary)],
        &vec![click(1)],
        &pointers(false),
        &VecMap::new(),
        &sel,
    );
    let selected: Vec<Entity> = out.selections.iter().map(|p| p.target).collect();
    let deselected: Vec<Entity> = out.deselections.iter().map(|p| p.target).collect();
    assert_eq!(selected, vec![e(1)]);
    assert_eq!(deselected, vec![e(2)]);
    update_state_from_events(&mut sel, &out.selections, &out.deselections);
    assert!(is_selected(&sel, 1));
    assert!(!is_selected(&sel, 2));
    assert!(!is_selected(&sel, 3));
}

#[test]
fn multiselect_click_toggles_and_keeps_others() {
    let settings = SelectionSettings::default();
    let mut sel = selectables(&[(1, true), (2, true)]);
    let out = send_selection_events(
        &settings,
        &vec![down(1)],
        &vec![InputPress::new_down(PointerId::Mouse, PointerButton::Primary)],
        &vec![click(1)],
        &pointers(true),
        &VecMap::new(),
        &sel,
    );
    assert!(out.selections.is_empty());
    let deselected: Vec<Entity> = out.deselections.iter().map(|p| p.target).collect();
    assert_eq!(deselected, vec![e(1)]);
    update_state_from_events(&mut sel, &out.selections, &out.deselections);
    assert!(!is_selected(&sel, 1));
    assert!(is_selected(&sel, 2));
}

#[test]
fn no_deselect_target_keeps_selection() {
    let settings = SelectionSettings::default();
    let sel = selectables(&[(2, true)]);
    let mut no_deselect = VecMap::new();
    no_deselect.insert(e(9), NoDeselect);
    let out = send_selection_events(
        &settings,
        &vec![down(9)],
        &vec![InputPress::new_down(PointerId::Mouse, PointerButton::Primary)],
        &vec![],
        &pointers(false),
        &no_deselect,
        &sel,
    );
    assert!(out.deselections.is_empty());
}

#[test]
fn press_on_nothing_deselects_all_when_enabled() {
    let sel = selectables(&[(1, true), (2, false), (3, true)]);
    let presses = vec![InputPress::new_down(PointerId::Mouse, PointerButton::Primary)];
    let on = send_selection_events(&SelectionSettings::default(), &vec![], &presses, &vec![], &pointers(false), &VecMap::new(), &sel);
    let deselected: Vec<Entity> = on.deselections.iter().map(|p| p.target).collect();
    assert_eq!(deselected, vec![e(1), e(3)]);
    let off_settings = SelectionSettings { click_nothing_deselect_all: false, use_multiselect_default_inputs: true };
    let off = send_selection_events(&off_settings, &vec![], &presses, &vec![], &pointers(false), &VecMap::new(), &sel);
    assert!(off.deselections.is_empty());
    let multi = send_selection_events(&SelectionSettings::default(), &vec![], &presses, &vec![], &pointers(true), &VecMap::new(), &sel);
    assert!(multi.deselections.is_empty());
}

#[test]
fn multiselect_state_follows_keys() {
    let mut ps = vec![PointerMultiselect { is_pressed: false }, PointerMultiselect { is_pressed: true }];
    multiselect_events(true, &mut ps);
    assert!(ps.iter().all(|p| p.is_pressed));
    multiselect_events(false, &mut ps);
    assert!(ps.iter().all(|p| !p.is_pressed));
}

#[test]
fn deselect_wins_over_select() {
    let mut sel = selectables(&[(1, false)]);
    let s = vec![Pointer::new(PointerId::Mouse, loc(), e(1), bevy_mod_picking::selection::Select)];
    let d = vec![Pointer::new(PointerId::Mouse, loc(), e(1), bevy_mod_picking::selection::Deselect)];
    update_state_from_events(&mut sel, &s, &d);
    assert!(!is_selected(&sel, 1));
}
