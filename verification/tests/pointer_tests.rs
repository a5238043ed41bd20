use bevy_mod_picking::debug::{increment_frame, Frame};
use bevy_mod_picking::float_ord::order_key;
use bevy_mod_picking::pointer::{
    update_pointer_map, Entity, InputMove, InputPress, Location, PointerButton, PointerId,
    PointerLocation, PointerMap, PointerPress, PressDirection, RenderTarget, Vec2Bits,
};
use bevy_mod_picking::settings::{PickingPluginsSettings, Pickable};

fn loc(window: u64, x: f32, y: f32) -> Location {
    Location {
        target: RenderTarget::Window(Entity::from_bits(window)),
        position: Vec2Bits { x: x.to_bits(), y: y.to_bits() },
    }
}

#[test]
fn pointer_id_kinds() {
    assert!(PointerId::Touch(3).is_touch());
    assert!(!PointerId::Touch(3).is_mouse());
    assert!(PointerId::Mouse.is_mouse());
    assert!(PointerId::Custom(7).is_custom());
    assert_eq!(PointerId::Touch(3).get_touch_id(), Some(3));
    assert_eq!(PointerId::Mouse.get_touch_id(), None);
}

#[test]
fn input_press_updates_matching_pointer_only() {
    let mut pointers = vec![
        (PointerId::Mouse, PointerPress::default()),
        (PointerId::Touch(1), PointerPress::default()),
    ];
    let events = vec![
        InputPress::new_down(PointerId::Mouse, PointerButton::Primary),
        InputPress::new_down(PointerId::Mouse, PointerButton::Middle),
        InputPress::new_up(PointerId::Mouse, PointerButton::Primary),
    ];
    InputPress::receive(&events, &mut pointers);
    assert_eq!(pointers[0].1, PointerPress { primary: false, secondary: false, middle: true });
    assert!(pointers[0].1.is_middle_pressed());
    assert!(pointers[0].1.is_any_pressed());
    assert!(!pointers[0].1.is_primary_pressed());
    assert_eq!(pointers[1].1, PointerPress::default());
    assert!(!pointers[1].1.is_any_pressed());
}

#[test]
fn input_press_queries() {
    let down = InputPress::new_down(PointerId::Mouse, PointerButton::Secondary);
    assert!(down.is_just_down(PointerButton::Secondary));
    assert!(!down.is_just_down(PointerButton::Primary));
    assert!(!down.is_just_up(PointerButton::Secondary));
    assert_eq!(down.direction(), PressDirection::Down);
    assert_eq!(down.button(), PointerButton::Secondary);
    assert_eq!(down.pointer_id(), PointerId::Mouse);
    let up = InputPress::new_up(PointerId::Touch(2), PointerButton::Primary);
    assert!(up.is_just_up(PointerButton::Primary));
    assert_eq!(up.direction(), PressDirection::Up);
}

#[test]
fn input_move_sets_last_location() {
    let mut pointers = vec![
        (PointerId::Mouse, PointerLocation::default()),
        (PointerId::Touch(0), PointerLocation::default()),
    ];
    let zero = Vec2Bits { x: 0, y: 0 };
    let events = vec![
        InputMove::new(PointerId::Mouse, loc(1, 1.0, 2.0), zero),
        InputMove::new(PointerId::Mouse, loc(1, 3.0, 4.0), zero),
    ];
    InputMove::receive(&events, &mut pointers);
    assert_eq!(pointers[0].1.location(), Some(loc(1, 3.0, 4.0)));
    assert_eq!(pointers[1].1.location(), None);
    assert_eq!(events[1].location(), loc(1, 3.0, 4.0));
    assert_eq!(events[1].pointer_id(), PointerId::Mouse);
}

#[test]
fn pointer_map_last_entity_wins() {
    let mut map = PointerMap::new();
    let pointers = vec![
        (Entity::from_bits(10), PointerId::Mouse),
        (Entity::from_bits(11), PointerId::Touch(4)),
        (Entity::from_bits(12), PointerId::Mouse),
    ];
    update_pointer_map(&pointers, &mut map);
    assert_eq!(map.get_entity(PointerId::Mouse), Some(Entity::from_bits(12)));
    assert_eq!(map.get_entity(PointerId::Touch(4)), Some(Entity::from_bits(11)));
    assert_eq!(map.get_entity(PointerId::Touch(5)), None);
}

#[test]
fn location_same_target() {
    let l = loc(1, 0.0, 0.0);
    assert!(l.is_same_target(&RenderTarget::Window(Entity::from_bits(1))));
    assert!(!l.is_same_target(&RenderTarget::Window(Entity::from_bits(2))));
    assert!(!l.is_same_target(&RenderTarget::Image(1)));
}

#[test]
fn all_buttons_in_order() {
    assert_eq!(
        PointerButton::all_buttons(),
        vec![PointerButton::Primary, PointerButton::Secondary, PointerButton::Middle]
    );
}

#[test]
fn order_key_sorts_floats() {
    let values = [f32::NEG_INFINITY, -2.5, -0.0, 0.0, 1.0e-3, 7.0, f32::INFINITY];
    for w in values.windows(2) {
        assert!(order_key(w[0].to_bits()) <= order_key(w[1].to_bits()));
    }
    assert_eq!(order_key((-0.0f32).to_bits()), order_key(0.0f32.to_bits()));
    assert!(order_key(f32::NAN.to_bits()) < order_key(f32::NEG_INFINITY.to_bits()));
    assert_eq!(order_key(1.0f32.to_bits()), 0x8000_0000 + 1.0f32.to_bits());
    assert!(order_key((-1.0f32).to_bits()) < order_key((-0.5f32).to_bits()));
}

#[test]
fn plugin_settings_switches() {
    let s = PickingPluginsSettings::default();
    assert!(s.input_enabled() && s.highlighting_should_run() && s.interaction_should_run());
    let off = PickingPluginsSettings { enable: false, ..s };
    assert!(!off.input_enabled());
    assert!(!off.highlighting_should_run());
    assert!(!off.interaction_should_run());
    let no_input = PickingPluginsSettings { enable_input: false, ..s };
    assert!(!no_input.input_enabled());
    assert!(no_input.interaction_should_run());
}

#[test]
fn pickable_defaults() {
    let d = Pickable::default();
    assert!(d.should_block_lower && d.should_emit_events);
    let i = Pickable::ignore();
    assert!(!i.should_block_lower && !i.should_emit_events);
}

#[test]
fn frame_counter_increments() {
    let mut f = Frame::default();
    increment_frame(&mut f);
    increment_frame(&mut f);
    assert_eq!(f, Frame(2));
}
