use bevy_mod_picking::backend::{HitData, PointerHits};
use bevy_mod_picking::events::PointerCancel;
use bevy_mod_picking::focus::{
    sort_by_depth, update_focus, update_interactions, HoverMap, OverMap, PickingInteraction,
    PointerInteraction, PreviousHoverMap,
};
use bevy_mod_picking::map::VecMap;
use bevy_mod_picking::pointer::{Entity, PointerId, PointerPress};
use bevy_mod_picking::settings::Pickable;

fn e(n: u64) -> Entity {
    Entity::from_bits(n)
}

fn hit(depth: f32) -> HitData {
    HitData::new(e(100), depth.to_bits(), None, None)
}

fn hovered(h: &HoverMap, p: PointerId) -> Vec<Entity> {
    match h.0.get(&p) {
        Some(m) => m.to_vec().iter().map(|(k, _)| *k).collect(),
        None => vec![],
    }
}

struct Frame {
    over: OverMap,
    hover: HoverMap,
    previous: PreviousHoverMap,
}

impl Frame {
    fn new() -> Self {
        Frame { over: VecMap::new(), hover: HoverMap::new(), previous: PreviousHoverMap::new() }
    }

    fn run(&mut self, pickables: &VecMap<Entity, Pickable>, hits: Vec<PointerHits>, cancels: Vec<PointerCancel>) {
        let pointers = vec![PointerId::Mouse];
        update_focus(pickables, &pointers, &hits, &cancels, &mut self.over, &mut self.hover, &mut self.previous);
    }
}

#[test]
fn blocking_entity_hides_lower_ones() {
    let mut f = Frame::new();
    let pickables = VecMap::new();
    let hits = vec![PointerHits::new(PointerId::Mouse, vec![(e(2), hit(2.0)), (e(1), hit(1.0))], 0.0f32.to_bits())];
    f.run(&pickables, hits, vec![]);
    assert_eq!(hovered(&f.hover, PointerId::Mouse), vec![e(1)]);
}

#[test]
fn non_blocking_entity_lets_lower_ones_through() {
    let mut f = Frame::new();
    let mut pickables = VecMap::new();
    pickables.insert(e(1), Pickable { should_block_lower: false, should_emit_events: true });
    let hits = vec![PointerHits::new(PointerId::Mouse, vec![(e(1), hit(1.0)), (e(2), hit(2.0))], 0.0f32.to_bits())];
    f.run(&pickables, hits, vec![]);
    let mut h = hovered(&f.hover, PointerId::Mouse);
    h.sort_by_key(|x| x.to_bits());
    assert_eq!(h, vec![e(1), e(2)]);
}

#[test]
fn picks_at_equal_depth_are_all_kept() {
    let mut f = Frame::new();
    let mut pickables = VecMap::new();
    pickables.insert(e(1), Pickable { should_block_lower: false, should_emit_events: true });
    pickables.insert(e(2), Pickable { should_block_lower: false, should_emit_events: true });
    let hits = vec![PointerHits::new(PointerId::Mouse, vec![(e(1), hit(1.0)), (e(2), hit(1.0))], 0.0f32.to_bits())];
    f.run(&pickables, hits, vec![]);
    let mut h = hovered(&f.hover, PointerId::Mouse);
    h.sort_by_key(|x| x.to_bits());
    assert_eq!(h, vec![e(1), e(2)]);
}

#[test]
fn ignored_entity_is_neither_hovered_nor_blocking() {
    let mut f = Frame::new();
    let mut pickables = VecMap::new();
    pickables.insert(e(1), Pickable::ignore());
    let hits = vec![PointerHits::new(PointerId::Mouse, vec![(e(1), hit(1.0)), (e(2), hit(2.0)), (e(3), hit(3.0))], 0.0f32.to_bits())];
    f.run(&pickables, hits, vec![]);
    assert_eq!(hovered(&f.hover, PointerId::Mouse), vec![e(2)]);
}

#[test]
fn silent_blocker_blocks_without_being_hovered() {
    let mut f = Frame::new();
    let mut pickables = VecMap::new();
    pickables.insert(e(1), Pickable { should_block_lower: true, should_emit_events: false });
    let hits = vec![PointerHits::new(PointerId::Mouse, vec![(e(1), hit(1.0)), (e(2), hit(2.0))], 0.0f32.to_bits())];
    f.run(&pickables, hits, vec![]);
    assert_eq!(hovered(&f.hover, PointerId::Mouse), Vec::<Entity>::new());
}

#[test]
fn higher_order_is_on_top_regardless_of_depth() {
    let mut f = Frame::new();
    let pickables = VecMap::new();
    let hits = vec![
        PointerHits::new(PointerId::Mouse, vec![(e(1), hit(1.0))], 0.0f32.to_bits()),
        PointerHits::new(PointerId::Mouse, vec![(e(2), hit(50.0))], 1.0f32.to_bits()),
    ];
    f.run(&pickables, hits, vec![]);
    assert_eq!(hovered(&f.hover, PointerId::Mouse), vec![e(2)]);
}

#[test]
fn cancelled_pointer_hovers_nothing() {
    let mut f = Frame::new();
    let pickables = VecMap::new();
    let hits = vec![PointerHits::new(PointerId::Mouse, vec![(e(1), hit(1.0))], 0.0f32.to_bits())];
    f.run(&pickables, hits, vec![PointerCancel { pointer_id: PointerId::Mouse }]);
    assert_eq!(hovered(&f.hover, PointerId::Mouse), Vec::<Entity>::new());
}

#[test]
fn previous_hover_map_keeps_last_frame() {
    let mut f = Frame::new();
    let pickables = VecMap::new();
    f.run(&pickables, vec![PointerHits::new(PointerId::Mouse, vec![(e(1), hit(1.0))], 0)], vec![]);
    f.run(&pickables, vec![PointerHits::new(PointerId::Mouse, vec![(e(2), hit(1.0))], 0)], vec![]);
    assert_eq!(hovered(&f.hover, PointerId::Mouse), vec![e(2)]);
    let prev: Vec<Entity> = match f.previous.0.get(&PointerId::Mouse) {
        Some(m) => m.to_vec().iter().map(|(k, _)| *k).collect(),
        None => vec![],
    };
    assert_eq!(prev, vec![e(1)]);
}

#[test]
fn sort_by_depth_nearest_first_and_stable() {
    let hits = vec![(e(1), hit(3.0)), (e(2), hit(1.0)), (e(3), hit(3.0)), (e(4), hit(-1.0))];
    let sorted: Vec<Entity> = sort_by_depth(&hits).iter().map(|x| x.0).collect();
    assert_eq!(sorted, vec![e(4), e(2), e(1), e(3)]);
}

#[test]
fn pressed_beats_hovered() {
    let mut hover = HoverMap::new();
    let mut mouse = VecMap::new();
    mouse.insert(e(1), hit(1.0));
    let mut touch = VecMap::new();
    touch.insert(e(1), hit(1.0));
    touch.insert(e(2), hit(2.0));
    hover.0.insert(PointerId::Mouse, mouse);
    hover.0.insert(PointerId::Touch(0), touch);
    let mut previous = PreviousHoverMap::new();
    let mut old = VecMap::new();
    old.insert(e(3), hit(1.0));
    previous.0.insert(PointerId::Mouse, old);
    let mut pointers = vec![
        (PointerId::Mouse, PointerPress { primary: false, secondary: false, middle: false }, PointerInteraction::new()),
        (PointerId::Touch(0), PointerPress { primary: true, secondary: false, middle: false }, PointerInteraction::new()),
    ];
    let mut interact = VecMap::new();
    interact.insert(e(3), PickingInteraction::Hovered);
    interact.insert(e(4), PickingInteraction::Pressed);
    let inserts = update_interactions(&hover, &previous, &mut pointers, &mut interact);
    assert_eq!(interact.get(&e(3)), Some(&PickingInteraction::NoInteraction));
    assert_eq!(interact.get(&e(4)), Some(&PickingInteraction::Pressed));
    let mut ins = inserts.clone();
    ins.sort_by_key(|x| x.0.to_bits());
    assert_eq!(ins, vec![(e(1), PickingInteraction::Pressed), (e(2), PickingInteraction::Pressed)]);
    let touch_sorted: Vec<Entity> = pointers[1].2.sorted_entities.iter().map(|x| x.0).collect();
    assert_eq!(touch_sorted, vec![e(1), e(2)]);
}

#[test]
fn merging_pointers_in_any_order_gives_the_same_interactions() {
    let mut hover = HoverMap::new();
    let mut mouse = VecMap::new();
    mouse.insert(e(1), hit(1.0));
    let mut touch = VecMap::new();
    touch.insert(e(1), hit(1.0));
    hover.0.insert(PointerId::Mouse, mouse);
    hover.0.insert(PointerId::Touch(0), touch);
    let previous = PreviousHoverMap::new();
    let idle = PointerPress { primary: false, secondary: false, middle: false };
    let pressed = PointerPress { primary: true, secondary: false, middle: false };
    let run = |order: Vec<(PointerId, PointerPress)>| {
        let mut pointers: Vec<_> = order.into_iter().map(|(p, b)| (p, b, PointerInteraction::new())).collect();
        let mut interact = VecMap::new();
        interact.insert(e(1), PickingInteraction::NoInteraction);
        update_interactions(&hover, &previous, &mut pointers, &mut interact);
        interact.get(&e(1)).copied()
    };
    let a = run(vec![(PointerId::Mouse, idle), (PointerId::Touch(0), pressed)]);
    let b = run(vec![(PointerId::Touch(0), pressed), (PointerId::Mouse, idle)]);
    assert_eq!(a, Some(PickingInteraction::Pressed));
    assert_eq!(a, b);
}
