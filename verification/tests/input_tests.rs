use bevy_mod_picking::events::PointerCancel;
use bevy_mod_picking::input::{
    deactivate_pointers, mouse_pick_events, touch_eq, touch_pick_events, ButtonState, CursorMove, InputPluginSettings,
    MouseButton, MouseButtonSettings, TouchCache, TouchForce, TouchInput, TouchPhase,
};
use bevy_mod_picking::pointer::{
    Entity, InputPress, Location, PointerButton, PointerId, PressDirection, RenderTarget, Vec2Bits,
};

fn e(n: u64) -> Entity {
    Entity::from_bits(n)
}

fn pos(x: f32, y: f32) -> Vec2Bits {
    Vec2Bits { x: x.to_bits(), y: y.to_bits() }
}

fn touch(id: u64, phase: TouchPhase, x: f32) -> TouchInput {
    TouchInput { phase, position: pos(x, 0.0), window: e(1), force: None, id }
}

#[test]
fn input_settings_switches() {
    let s = InputPluginSettings::default();
    assert!(s.is_enabled() && s.is_touch_enabled() && s.is_mouse_enabled());
    let t = InputPluginSettings::Enabled { is_touch_enabled: false, is_mouse_enabled: true };
    assert!(t.is_enabled() && !t.is_touch_enabled() && t.is_mouse_enabled());
    let d = InputPluginSettings::Disabled;
    assert!(!d.is_enabled() && !d.is_touch_enabled() && !d.is_mouse_enabled());
}

#[test]
fn default_mouse_mapping() {
    let s = MouseButtonSettings::default();
    assert_eq!(s.get_mapping(MouseButton::Left), Some(Some(PointerButton::Primary)));
    assert_eq!(s.get_mapping(MouseButton::Right), Some(Some(PointerButton::Secondary)));
    assert_eq!(s.get_mapping(MouseButton::Middle), Some(Some(PointerButton::Middle)));
    assert_eq!(s.get_mapping(MouseButton::Back), None);
}

#[test]
fn set_mapping_keeps_pointer_buttons_unique() {
    let mut s = MouseButtonSettings::default();
    s.set_mapping(MouseButton::Back, Some(PointerButton::Primary));
    assert_eq!(s.get_mapping(MouseButton::Back), Some(Some(PointerButton::Primary)));
    assert_eq!(s.get_mapping(MouseButton::Left), Some(None));
    assert_eq!(s.get_mapping(MouseButton::Right), Some(Some(PointerButton::Secondary)));
    s.set_mapping(MouseButton::Right, None);
    assert_eq!(s.get_mapping(MouseButton::Right), Some(None));
    assert_eq!(s.get_mapping(MouseButton::Back), Some(Some(PointerButton::Primary)));
}

#[test]
fn mouse_events_map_to_pointer_presses() {
    let mut s = MouseButtonSettings::default();
    s.set_mapping(MouseButton::Right, None);
    let inputs = vec![
        (MouseButton::Left, ButtonState::Pressed),
        (MouseButton::Right, ButtonState::Pressed),
        (MouseButton::Forward, ButtonState::Pressed),
        (MouseButton::Middle, ButtonState::Released),
    ];
    let mut last = pos(0.0, 0.0);
    let presses = mouse_pick_events(&s, &vec![], &mut last, &inputs).presses;
    assert_eq!(
        presses,
        vec![
            InputPress::new_down(PointerId::Mouse, PointerButton::Primary),
            InputPress::new_up(PointerId::Mouse, PointerButton::Middle),
        ]
    );
}

#[test]
fn cursor_moves_track_the_last_position() {
    let s = MouseButtonSettings::default();
    let mut last = pos(1.0, 1.0);
    let moves = vec![(e(5), pos(2.0, 3.0)), (e(6), pos(4.0, 5.0))];
    let out = mouse_pick_events(&s, &moves, &mut last, &vec![]);
    assert_eq!(
        out.moves,
        vec![
            CursorMove { location: Location { target: RenderTarget::Window(e(5)), position: pos(2.0, 3.0) }, previous: pos(1.0, 1.0) },
            CursorMove { location: Location { target: RenderTarget::Window(e(6)), position: pos(4.0, 5.0) }, previous: pos(2.0, 3.0) },
        ]
    );
    assert_eq!(last, pos(4.0, 5.0));
    assert!(out.presses.is_empty());
    let out = mouse_pick_events(&s, &vec![], &mut last, &vec![]);
    assert!(out.moves.is_empty());
    assert_eq!(last, pos(4.0, 5.0));
}

#[test]
fn touch_start_move_end() {
    let mut cache = TouchCache::new();
    let touches = vec![
        touch(4, TouchPhase::Started, 1.0),
        touch(4, TouchPhase::Moved, 3.0),
        touch(4, TouchPhase::Ended, 3.0),
    ];
    let out = touch_pick_events(&touches, e(1), &mut cache);
    let l = |x: f32| Location { target: RenderTarget::Window(e(1)), position: pos(x, 0.0) };
    assert_eq!(out.spawns, vec![(PointerId::Touch(4), l(1.0))]);
    assert_eq!(out.moves.len(), 2);
    assert_eq!(out.moves[0].previous, None);
    assert_eq!(out.moves[0].location, l(1.0));
    assert_eq!(out.moves[1].previous, Some(pos(1.0, 0.0)));
    assert_eq!(out.moves[1].location, l(3.0));
    assert_eq!(out.presses.len(), 2);
    assert_eq!(out.presses[0].direction, PressDirection::Down);
    assert_eq!(out.presses[1].direction, PressDirection::Up);
    assert_eq!(out.presses[1].button, PointerButton::Primary);
    assert_eq!(out.cancels, vec![PointerCancel { pointer_id: PointerId::Touch(4) }]);
    // The ended touch is forgotten: a later move of it is its first known event, and moves nothing.
    let later = touch_pick_events(&vec![touch(4, TouchPhase::Moved, 8.0)], e(1), &mut cache);
    assert!(later.moves.is_empty());
}

#[test]
fn repeated_touch_move_stops_the_frame() {
    let mut cache = TouchCache::new();
    let first = touch_pick_events(&vec![touch(1, TouchPhase::Started, 1.0)], e(1), &mut cache);
    assert_eq!(first.spawns.len(), 1);
    let touches = vec![
        touch(1, TouchPhase::Moved, 2.0),
        touch(1, TouchPhase::Moved, 2.0),
        touch(2, TouchPhase::Started, 5.0),
    ];
    let out = touch_pick_events(&touches, e(1), &mut cache);
    assert_eq!(out.moves.len(), 1);
    assert!(out.spawns.is_empty());
    // The touch that was never processed is unknown to the cache.
    let later = touch_pick_events(&vec![touch(2, TouchPhase::Moved, 6.0)], e(1), &mut cache);
    assert!(later.moves.is_empty());
}

#[test]
fn ended_touches_deactivate_their_pointers_once() {
    let pointers = vec![
        (e(10), PointerId::Touch(1)),
        (e(11), PointerId::Touch(2)),
        (e(12), PointerId::Mouse),
    ];
    let touches = vec![
        touch(1, TouchPhase::Ended, 0.0),
        touch(1, TouchPhase::Canceled, 0.0),
        touch(2, TouchPhase::Moved, 0.0),
    ];
    assert_eq!(deactivate_pointers(&pointers, &touches), vec![(e(10), PointerId::Touch(1))]);
}

#[test]
fn touch_move_with_new_force_is_not_a_repeat() {
    let mut cache = TouchCache::new();
    touch_pick_events(&vec![touch(1, TouchPhase::Started, 1.0)], e(1), &mut cache);
    let light = TouchInput { force: Some(TouchForce::Normalized(0.25f64.to_bits())), ..touch(1, TouchPhase::Moved, 2.0) };
    let hard = TouchInput { force: Some(TouchForce::Normalized(0.75f64.to_bits())), ..light };
    let out = touch_pick_events(&vec![light, hard, hard], e(1), &mut cache);
    assert_eq!(out.moves.len(), 2);
    assert_eq!(out.moves[1].previous, Some(pos(2.0, 0.0)));
}

#[test]
fn swapping_mouse_buttons() {
    let mut s = MouseButtonSettings::default();
    s.set_mapping(MouseButton::Left, Some(PointerButton::Secondary));
    assert_eq!(s.get_mapping(MouseButton::Right), Some(None));
    assert_eq!(s.get_mapping(MouseButton::Left), Some(Some(PointerButton::Secondary)));
    s.set_mapping(MouseButton::Right, Some(PointerButton::Primary));
    assert_eq!(s.get_mapping(MouseButton::Right), Some(Some(PointerButton::Primary)));
    assert_eq!(s.get_mapping(MouseButton::Left), Some(Some(PointerButton::Secondary)));
    assert_eq!(s.get_mapping(MouseButton::Middle), Some(Some(PointerButton::Middle)));
}

#[test]
fn touch_events_compare_floats_as_floats() {
    let mut cache = TouchCache::new();
    touch_pick_events(&vec![touch(1, TouchPhase::Started, 1.0)], e(1), &mut cache);
    // -0.0 == 0.0: the second move repeats the first and stops the frame.
    let zero = touch(1, TouchPhase::Moved, 0.0);
    let negative_zero = TouchInput { position: pos(-0.0, 0.0), ..zero };
    let out = touch_pick_events(&vec![zero, negative_zero, touch(2, TouchPhase::Started, 5.0)], e(1), &mut cache);
    assert_eq!(out.moves.len(), 1);
    assert!(out.spawns.is_empty());
    // A NaN equals nothing: the same NaN move twice is never a repeat.
    let nan = TouchInput { position: pos(f32::NAN, 0.0), ..zero };
    let out = touch_pick_events(&vec![nan, nan], e(1), &mut cache);
    assert_eq!(out.moves.len(), 2);
    assert!(touch_eq(&zero, &negative_zero));
    assert!(!touch_eq(&nan, &nan));
}
