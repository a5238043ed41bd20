use bevy_mod_picking::backend::HitData;
use bevy_mod_picking::events::{
    pointer_events, send_click_and_drag_events, send_drag_over_events, ButtonKey, Down, DownMap,
    DragEntry, DragMap, DragEnd, Move, Out, Over, Pointer, Up,
};
use bevy_mod_picking::focus::{HoverMap, PreviousHoverMap};
use bevy_mod_picking::map::VecMap;
use bevy_mod_picking::pointer::{
    update_pointer_map, Entity, InputMove, InputPress, Location, PointerButton, PointerId,
    PointerLocation, PointerMap, RenderTarget, Vec2Bits,
};

fn e(n: u64) -> Entity {
    Entity::from_bits(n)
}

fn hit() -> HitData {
    HitData::new(e(100), 1.0f32.to_bits(), None, None)
}

fn pos(x: f32, y: f32) -> Vec2Bits {
    Vec2Bits { x: x.to_bits(), y: y.to_bits() }
}

fn loc(x: f32, y: f32) -> Location {
    Location { target: RenderTarget::Window(e(1)), position: pos(x, y) }
}

/// The mouse pointer is entity 50, located at (x, y).
fn mouse_world(x: f32, y: f32) -> (PointerMap, VecMap<Entity, PointerLocation>) {
    let mut map = PointerMap::new();
    update_pointer_map(&vec![(e(50), PointerId::Mouse)], &mut map);
    let mut locations = VecMap::new();
    locations.insert(e(50), PointerLocation { location: Some(loc(x, y)) });
    (map, locations)
}

fn hover_of(entities: &[u64]) -> VecMap<PointerId, VecMap<Entity, HitData>> {
    let mut set = VecMap::new();
    for n in entities {
        set.insert(e(*n), hit());
    }
    let mut m = VecMap::new();
    m.insert(PointerId::Mouse, set);
    m
}

#[test]
fn over_and_out_follow_hover_changes() {
    let (map, locations) = mouse_world(1.0, 2.0);
    let hover = HoverMap(hover_of(&[2, 3]));
    let previous = PreviousHoverMap(hover_of(&[3, 4]));
    let out = pointer_events(&vec![], &vec![], &map, &locations, &hover, &previous);
    let overs: Vec<Entity> = out.overs.iter().map(|p| p.target).collect();
    let outs: Vec<Entity> = out.outs.iter().map(|p| p.target).collect();
    assert_eq!(overs, vec![e(2)]);
    assert_eq!(outs, vec![e(4)]);
    assert_eq!(out.overs[0].pointer_location, loc(1.0, 2.0));
    assert!(out.moves.is_empty() && out.ups.is_empty() && out.downs.is_empty());
}

#[test]
fn steady_hover_sends_no_over_or_out() {
    let (map, locations) = mouse_world(1.0, 2.0);
    let hover = HoverMap(hover_of(&[2, 3]));
    let previous = PreviousHoverMap(hover_of(&[2, 3]));
    let out = pointer_events(&vec![], &vec![], &map, &locations, &hover, &previous);
    assert!(out.overs.is_empty());
    assert!(out.outs.is_empty());
}

#[test]
fn presses_and_moves_reach_hovered_entities() {
    let (map, locations) = mouse_world(1.0, 2.0);
    let hover = HoverMap(hover_of(&[2]));
    let previous = PreviousHoverMap(hover_of(&[3]));
    let presses = vec![
        InputPress::new_down(PointerId::Mouse, PointerButton::Primary),
        InputPress::new_up(PointerId::Mouse, PointerButton::Secondary),
    ];
    let moves = vec![InputMove::new(PointerId::Mouse, loc(5.0, 6.0), pos(4.0, 4.0))];
    let out = pointer_events(&presses, &moves, &map, &locations, &hover, &previous);
    assert_eq!(out.downs.len(), 1);
    assert_eq!(out.downs[0].target, e(2));
    assert_eq!(out.downs[0].event.button, PointerButton::Primary);
    // A release goes to what the pointer hovered in the previous frame.
    assert_eq!(out.ups.len(), 1);
    assert_eq!(out.ups[0].target, e(3));
    assert_eq!(out.ups[0].event.button, PointerButton::Secondary);
    assert_eq!(out.moves.len(), 1);
    assert_eq!(out.moves[0].target, e(2));
    assert_eq!(out.moves[0].pointer_location, loc(5.0, 6.0));
    assert_eq!(out.moves[0].event.delta, pos(4.0, 4.0));
}

#[test]
fn pointer_without_location_gets_no_press_events() {
    let mut map = PointerMap::new();
    update_pointer_map(&vec![(e(50), PointerId::Mouse)], &mut map);
    let mut locations = VecMap::new();
    locations.insert(e(50), PointerLocation { location: None });
    let hover = HoverMap(hover_of(&[2]));
    let previous = PreviousHoverMap(hover_of(&[]));
    let presses = vec![InputPress::new_down(PointerId::Mouse, PointerButton::Primary)];
    let out = pointer_events(&presses, &vec![], &map, &locations, &hover, &previous);
    assert!(out.downs.is_empty());
    assert!(out.overs.is_empty());
}

fn down(target: u64, button: PointerButton, x: f32) -> Pointer<Down> {
    Pointer::new(PointerId::Mouse, loc(x, 0.0), e(target), Down { button, hit: hit() })
}

fn up(target: u64, button: PointerButton) -> Pointer<Up> {
    Pointer::new(PointerId::Mouse, loc(0.0, 0.0), e(target), Up { button, hit: hit() })
}

#[test]
fn click_needs_a_down_on_the_same_entity() {
    let (map, locations) = mouse_world(0.0, 0.0);
    let mut downs: DownMap = VecMap::new();
    let mut drags = DragMap(VecMap::new());
    // Frame 1: the primary button goes down on entity 2.
    let out = send_click_and_drag_events(
        &vec![down(2, PointerButton::Primary, 0.0)],
        &vec![],
        &vec![],
        &vec![],
        &map,
        &locations,
        &mut downs,
        &mut drags,
    );
    assert!(out.clicks.is_empty());
    assert_eq!(downs.len(), 1);
    // Frame 2: it goes up on entity 2 and on entity 3, and is released.
    let out = send_click_and_drag_events(
        &vec![],
        &vec![up(2, PointerButton::Primary), up(3, PointerButton::Primary), up(2, PointerButton::Secondary)],
        &vec![],
        &vec![InputPress::new_up(PointerId::Mouse, PointerButton::Primary)],
        &map,
        &locations,
        &mut downs,
        &mut drags,
    );
    let clicked: Vec<Entity> = out.clicks.iter().map(|c| c.target).collect();
    assert_eq!(clicked, vec![e(2)]);
    assert_eq!(out.clicks[0].event.button, PointerButton::Primary);
    assert_eq!(downs.len(), 0);
}

#[test]
fn drag_starts_moves_and_ends() {
    let (map, locations) = mouse_world(9.0, 9.0);
    let mut downs: DownMap = VecMap::new();
    let mut drags = DragMap(VecMap::new());
    send_click_and_drag_events(
        &vec![down(2, PointerButton::Primary, 1.0)],
        &vec![],
        &vec![],
        &vec![],
        &map,
        &locations,
        &mut downs,
        &mut drags,
    );
    let moves = vec![
        InputMove::new(PointerId::Mouse, loc(3.0, 0.0), pos(2.0, 0.0)),
        InputMove::new(PointerId::Mouse, loc(5.0, 0.0), pos(2.0, 0.0)),
    ];
    let out = send_click_and_drag_events(&vec![], &vec![], &moves, &vec![], &map, &locations, &mut downs, &mut drags);
    assert_eq!(out.drag_starts.len(), 1);
    assert_eq!(out.drag_starts[0].target, e(2));
    assert_eq!(out.drags.len(), 2);
    assert_eq!(out.drags[0].event.start_pos, pos(1.0, 0.0));
    assert_eq!(out.drags[0].event.previous_pos, pos(1.0, 0.0));
    assert_eq!(out.drags[0].pointer_location, loc(3.0, 0.0));
    assert_eq!(out.drags[1].event.previous_pos, pos(3.0, 0.0));
    let key = ButtonKey { pointer_id: PointerId::Mouse, button: PointerButton::Primary, entity: e(2) };
    assert_eq!(drags.0.get(&key), Some(&DragEntry { start_pos: pos(1.0, 0.0), latest_pos: pos(5.0, 0.0) }));
    let out = send_click_and_drag_events(
        &vec![],
        &vec![],
        &vec![],
        &vec![InputPress::new_up(PointerId::Mouse, PointerButton::Primary)],
        &map,
        &locations,
        &mut downs,
        &mut drags,
    );
    assert_eq!(out.drag_ends.len(), 1);
    assert_eq!(out.drag_ends[0].target, e(2));
    assert_eq!(out.drag_ends[0].event.latest_pos, pos(5.0, 0.0));
    assert_eq!(out.drag_ends[0].pointer_location, loc(9.0, 9.0));
    assert_eq!(drags.0.len(), 0);
    assert_eq!(downs.len(), 0);
}

#[test]
fn release_of_other_button_keeps_drag() {
    let (map, locations) = mouse_world(0.0, 0.0);
    let mut downs: DownMap = VecMap::new();
    let mut drags = DragMap(VecMap::new());
    let out = send_click_and_drag_events(
        &vec![down(2, PointerButton::Primary, 1.0)],
        &vec![],
        &vec![],
        &vec![InputPress::new_up(PointerId::Mouse, PointerButton::Secondary)],
        &map,
        &locations,
        &mut downs,
        &mut drags,
    );
    assert!(out.drag_ends.is_empty());
    assert_eq!(downs.len(), 1);
}

fn over(target: u64) -> Pointer<Over> {
    Pointer::new(PointerId::Mouse, loc(0.0, 0.0), e(target), Over { hit: hit() })
}

#[test]
fn drag_over_enter_over_drop_and_leave() {
    let mut drags = DragMap(VecMap::new());
    drags.0.insert(
        ButtonKey { pointer_id: PointerId::Mouse, button: PointerButton::Primary, entity: e(2) },
        DragEntry { start_pos: pos(0.0, 0.0), latest_pos: pos(0.0, 0.0) },
    );
    let mut over_map: VecMap<ButtonKey, HitData> = VecMap::new();
    // Entering entity 7 while dragging entity 2; passing over the dragged entity itself does nothing.
    let out = send_drag_over_events(&drags, &vec![over(7), over(2)], &vec![], &vec![], &vec![], &mut over_map);
    assert_eq!(out.drag_enters.len(), 1);
    assert_eq!(out.drag_enters[0].target, e(7));
    assert_eq!(out.drag_enters[0].event.dragged, e(2));
    assert_eq!(over_map.len(), 1);
    // Moving over entity 7.
    let mv = Pointer::new(PointerId::Mouse, loc(0.0, 0.0), e(7), Move { hit: hit(), delta: pos(1.0, 0.0) });
    let out = send_drag_over_events(&drags, &vec![], &vec![mv], &vec![], &vec![], &mut over_map);
    assert_eq!(out.drag_overs.len(), 1);
    assert_eq!(out.drag_overs[0].event.dragged, e(2));
    // Ending the drag drops entity 2 on entity 7.
    let end = Pointer::new(
        PointerId::Mouse,
        loc(0.0, 0.0),
        e(2),
        DragEnd { button: PointerButton::Primary, start_pos: pos(0.0, 0.0), latest_pos: pos(0.0, 0.0) },
    );
    let out = send_drag_over_events(&drags, &vec![], &vec![], &vec![], &vec![end], &mut over_map);
    assert_eq!(out.drops.len(), 1);
    assert_eq!(out.drops[0].target, e(7));
    assert_eq!(out.drops[0].event.dropped, e(2));
    assert_eq!(out.drag_leaves.len(), 1);
    assert_eq!(out.drag_leaves[0].target, e(7));
    assert_eq!(over_map.len(), 0);
}

#[test]
fn out_while_dragging_leaves() {
    let mut drags = DragMap(VecMap::new());
    drags.0.insert(
        ButtonKey { pointer_id: PointerId::Mouse, button: PointerButton::Primary, entity: e(2) },
        DragEntry { start_pos: pos(0.0, 0.0), latest_pos: pos(0.0, 0.0) },
    );
    let mut over_map: VecMap<ButtonKey, HitData> = VecMap::new();
    send_drag_over_events(&drags, &vec![over(7)], &vec![], &vec![], &vec![], &mut over_map);
    let out_event = Pointer::new(PointerId::Mouse, loc(0.0, 0.0), e(7), Out { hit: hit() });
    let out = send_drag_over_events(&drags, &vec![], &vec![], &vec![out_event], &vec![], &mut over_map);
    assert_eq!(out.drag_leaves.len(), 1);
    assert_eq!(out.drag_leaves[0].target, e(7));
    assert_eq!(out.drag_leaves[0].event.dragged, e(2));
    assert!(out.drops.is_empty());
    assert_eq!(over_map.len(), 0);
}

#[test]
fn drag_starts_once_until_release() {
    let (map, locations) = mouse_world(0.0, 0.0);
    let mut downs: DownMap = VecMap::new();
    let mut drags = DragMap(VecMap::new());
    let mv = |x: f32| vec![InputMove::new(PointerId::Mouse, loc(x, 0.0), pos(1.0, 0.0))];
    send_click_and_drag_events(&vec![down(2, PointerButton::Primary, 1.0)], &vec![], &vec![], &vec![], &map, &locations, &mut downs, &mut drags);
    let out = send_click_and_drag_events(&vec![], &vec![], &mv(2.0), &vec![], &map, &locations, &mut downs, &mut drags);
    assert_eq!(out.drag_starts.len(), 1);
    assert_eq!(out.drag_starts[0].pointer_location.position, pos(1.0, 0.0));
    let out = send_click_and_drag_events(&vec![], &vec![], &mv(3.0), &vec![], &map, &locations, &mut downs, &mut drags);
    assert!(out.drag_starts.is_empty());
    let key = ButtonKey { pointer_id: PointerId::Mouse, button: PointerButton::Primary, entity: e(2) };
    assert_eq!(drags.0.get(&key), Some(&DragEntry { start_pos: pos(1.0, 0.0), latest_pos: pos(3.0, 0.0) }));
    let release = vec![InputPress::new_up(PointerId::Mouse, PointerButton::Primary)];
    send_click_and_drag_events(&vec![], &vec![], &vec![], &release, &map, &locations, &mut downs, &mut drags);
    send_click_and_drag_events(&vec![down(2, PointerButton::Primary, 4.0)], &vec![], &vec![], &vec![], &map, &locations, &mut downs, &mut drags);
    let out = send_click_and_drag_events(&vec![], &vec![], &mv(5.0), &vec![], &map, &locations, &mut downs, &mut drags);
    assert_eq!(out.drag_starts.len(), 1);
    assert_eq!(drags.0.get(&key), Some(&DragEntry { start_pos: pos(4.0, 0.0), latest_pos: pos(5.0, 0.0) }));
}

#[test]
fn no_drag_over_without_a_drag() {
    let drags = DragMap(VecMap::new());
    let mut over_map: VecMap<ButtonKey, HitData> = VecMap::new();
    let out = send_drag_over_events(&drags, &vec![over(7)], &vec![], &vec![], &vec![], &mut over_map);
    assert!(out.drag_enters.is_empty());
    assert_eq!(over_map.len(), 0);
}
