use bevy_mod_picking::highlight::{
    get_initial_highlight_asset, highlight_assets, update_highlight_assets, update_selection,
    DefaultHighlighting, GlobalHighlight, Highlight, HighlightKind, Highlighting, InitialHighlight,
    Interaction,
};
use bevy_mod_picking::listening::{Bubble, EventCallbackGraph, HierarchyNode};
use bevy_mod_picking::map::VecMap;
use bevy_mod_picking::pointer::Entity;
use bevy_mod_picking::selection::PickSelection;

fn e(n: u64) -> Entity {
    Entity::from_bits(n)
}

const GLOBAL: GlobalHighlight<u32> = GlobalHighlight { hovered: 10, pressed: 20, selected: 30 };

#[test]
fn highlight_kind_handles() {
    assert_eq!(HighlightKind::Fixed(5u32).get_handle(), Some(5));
    assert_eq!(HighlightKind::<u32>::new_dynamic().get_handle(), None);
    assert_eq!(HighlightKind::<u32>::Dynamic { cache: Some(6) }.get_handle(), Some(6));
    assert_eq!(HighlightKind::Fixed(5u32).get_dynamic(), None);
    assert_eq!(HighlightKind::<u32>::Dynamic { cache: Some(6) }.get_dynamic(), Some(Some(6)));
}

#[test]
fn global_highlight_overrides() {
    let o = Highlight { hovered: Some(HighlightKind::Fixed(1u32)), pressed: Some(HighlightKind::new_dynamic()), selected: None };
    assert_eq!(GLOBAL.hovered(Some(o)), 1);
    assert_eq!(GLOBAL.pressed(Some(o)), 20);
    assert_eq!(GLOBAL.selected(Some(o)), 30);
    assert_eq!(GLOBAL.hovered(None), 10);
}

#[test]
fn assets_follow_interaction() {
    let init = InitialHighlight { initial: 1u32 };
    let mut entities = vec![
        (0u32, Interaction::Pressed, init, None),
        (0u32, Interaction::Hovered, init, Some(Highlight { hovered: Some(HighlightKind::Fixed(7)), pressed: None, selected: None })),
        (0u32, Interaction::NoInteraction, init, None),
    ];
    update_highlight_assets(&GLOBAL, &mut entities);
    let assets: Vec<u32> = entities.iter().map(|x| x.0).collect();
    assert_eq!(assets, vec![20, 7, 1]);
}

#[test]
fn selection_shows_when_idle() {
    let init = InitialHighlight { initial: 1u32 };
    let mut entities = vec![
        (9u32, Interaction::NoInteraction, PickSelection { is_selected: true }, init, None),
        (9u32, Interaction::NoInteraction, PickSelection { is_selected: false }, init, None),
        (9u32, Interaction::Hovered, PickSelection { is_selected: true }, init, None),
    ];
    update_selection(&GLOBAL, &mut entities);
    let assets: Vec<u32> = entities.iter().map(|x| x.0).collect();
    assert_eq!(assets, vec![30, 1, 9]);
}

#[test]
fn initial_assets_are_recorded() {
    let mut existing = VecMap::new();
    existing.insert(e(1), InitialHighlight { initial: 0u32 });
    let inserts = get_initial_highlight_asset(&vec![(e(1), 5u32), (e(2), 6u32)], &mut existing);
    assert_eq!(existing.get(&e(1)).map(|h| h.initial), Some(5));
    let ins: Vec<(Entity, u32)> = inserts.iter().map(|(x, h)| (*x, h.initial)).collect();
    assert_eq!(ins, vec![(e(2), 6)]);
}

#[test]
fn per_entity_highlighting() {
    let defaults = DefaultHighlighting { hovered: 10u32, pressed: 20, selected: 30 };
    let h = Highlighting { initial: 1u32, hovered: None, pressed: Some(2), selected: None };
    let mut entities = vec![
        (Interaction::Pressed, 0u32, None, h),
        (Interaction::Hovered, 0u32, None, h),
        (Interaction::NoInteraction, 0u32, Some(PickSelection { is_selected: true }), h),
        (Interaction::NoInteraction, 0u32, Some(PickSelection { is_selected: false }), h),
    ];
    highlight_assets(&defaults, &mut entities);
    let assets: Vec<u32> = entities.iter().map(|x| x.1).collect();
    assert_eq!(assets, vec![2, 10, 30, 1]);
}

fn node(listener: bool, parent: Option<u64>) -> HierarchyNode {
    HierarchyNode { has_listener: listener, parent: parent.map(e) }
}

#[test]
fn events_bubble_through_listening_ancestors() {
    // 1 (listener) <- 2 <- 3 (listener) <- 4 ; 5 (no listener, root) ; 6 (listener) <- 2
    let mut h = VecMap::new();
    h.insert(e(1), node(true, None));
    h.insert(e(2), node(false, Some(1)));
    h.insert(e(3), node(true, Some(2)));
    h.insert(e(4), node(false, Some(3)));
    h.insert(e(5), node(false, None));
    h.insert(e(6), node(true, Some(2)));
    let events = vec![("a", e(4)), ("b", e(5)), ("c", e(6)), ("d", e(99))];
    let g = EventCallbackGraph::build(&events, &h);
    assert_eq!(g.events, vec![("a", e(3)), ("c", e(6))]);
    assert_eq!(g.next_listener(e(3), Bubble::Up), Some(e(1)));
    assert_eq!(g.next_listener(e(6), Bubble::Up), Some(e(1)));
    assert_eq!(g.next_listener(e(2), Bubble::Up), None);
    assert_eq!(g.next_listener(e(3), Bubble::Burst), None);
    assert_eq!(g.next_listener(e(1), Bubble::Up), None);
}

#[test]
fn bubble_burst() {
    let mut b = Bubble::default();
    assert_eq!(b, Bubble::Up);
    b.burst();
    assert_eq!(b, Bubble::Burst);
}

#[test]
fn empty_graph_routes_nothing() {
    let g = EventCallbackGraph::<u8>::default();
    assert!(g.events.is_empty());
    assert_eq!(g.next_listener(e(1), Bubble::Up), None);
}
