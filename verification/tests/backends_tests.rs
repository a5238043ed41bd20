use bevy_mod_picking::backend::{HitData, Ray, RayCandidate, RayId, RayMap};
use bevy_mod_picking::backends::egui::{egui_picking, update_settings, EguiBackendSettings, EguiContext};
use bevy_mod_picking::backends::raycast::{
    camera_eligible, early_exit, target_filter, update_hits as raycast_update_hits, RaycastBackendSettings,
    RaycastCamera, RaycastCast, RaycastPick,
};
use bevy_mod_picking::backends::sprite::{
    sort_by_z, sprite_camera, sprite_picking, sprite_picks, SpriteBackendSettings, SpriteCamera, SpriteHit,
    SpritePixel, SpritePointer,
};
use bevy_mod_picking::backends::ui::{ui_camera, ui_node_picks, ui_picking, UiCamera, UiNode, UiPointer};
use bevy_mod_picking::backends::{avian, rapier, xpbd, RayCamera, RayCast, RayTarget, RenderLayers};
use bevy_mod_picking::pointer::{Entity, Location, PointerId, RenderTarget, Vec2Bits, Vec3Bits};
use bevy_mod_picking::settings::Pickable;

fn e(n: u64) -> Entity {
    Entity::from_bits(n)
}

fn window_loc(w: u64) -> Location {
    Location { target: RenderTarget::Window(e(w)), position: Vec2Bits { x: 0, y: 0 } }
}

fn layers(blocks: &[u64]) -> RenderLayers {
    RenderLayers { blocks: blocks.to_vec() }
}

#[test]
fn render_layers_intersect_by_block() {
    assert!(layers(&[0b101]).intersects(&layers(&[0b100])));
    assert!(!layers(&[0b001]).intersects(&layers(&[0b010])));
    assert!(!layers(&[1]).intersects(&layers(&[0, 1])));
    assert!(layers(&[0, 2]).intersects(&layers(&[1, 3])));
    assert_eq!(RenderLayers::default().blocks, vec![1]);
}

fn ui_cam(n: u64, active: bool, window: u64, show: bool, order: isize) -> UiCamera {
    UiCamera {
        entity: e(n),
        is_active: active,
        target: RenderTarget::Window(e(window)),
        show_ui: show,
        order,
        ui_order: (order as f32 + 0.5).to_bits(),
    }
}

#[test]
fn ui_camera_is_topmost_on_primary_window() {
    let cams = vec![
        ui_cam(1, true, 5, true, 2),
        ui_cam(2, true, 5, true, 7),
        ui_cam(3, false, 5, true, 9),
        ui_cam(4, true, 5, false, 9),
        ui_cam(5, true, 6, true, 9),
        ui_cam(6, true, 5, true, 7),
    ];
    assert_eq!(ui_camera(Some(window_loc(5)), Some(e(5)), &cams), Some(5));
    assert_eq!(ui_camera(Some(window_loc(6)), Some(e(5)), &cams), None);
    assert_eq!(ui_camera(None, Some(e(5)), &cams), None);
    assert_eq!(ui_camera(Some(window_loc(5)), None, &cams), None);
    assert_eq!(ui_camera(Some(window_loc(5)), Some(e(5)), &vec![ui_cam(3, false, 5, true, 0)]), None);
}

fn node(n: u64, visible: bool, hit: bool, pickable: Option<Pickable>) -> UiNode {
    UiNode { entity: e(n), visible, hit, pickable }
}

#[test]
fn ui_picks_stop_at_first_blocking_node() {
    let pass = Some(Pickable { should_block_lower: false, should_emit_events: true });
    let nodes = vec![
        node(1, true, false, None),
        node(2, false, true, None),
        node(3, true, true, pass),
        node(4, true, true, None),
        node(5, true, true, pass),
    ];
    assert_eq!(ui_node_picks(&nodes), vec![e(3), e(4)]);
    assert_eq!(ui_node_picks(&vec![node(3, true, true, pass)]), vec![e(3)]);
}

#[test]
fn ui_reports_one_hit_list_per_pointer_on_the_topmost_camera() {
    let pass = Some(Pickable { should_block_lower: false, should_emit_events: true });
    let cams = vec![ui_cam(1, true, 5, true, 2), ui_cam(2, true, 5, true, 7), ui_cam(3, true, 5, false, 9)];
    let depths = vec![0.0f32.to_bits(), 0.00001f32.to_bits(), 0.00002f32.to_bits()];
    let pointers = vec![
        UiPointer { pointer: PointerId::Mouse, location: Some(window_loc(5)), nodes: vec![node(3, true, true, pass), node(4, true, true, None), node(5, true, true, None)] },
        UiPointer { pointer: PointerId::Touch(1), location: Some(window_loc(6)), nodes: vec![node(3, true, true, None)] },
        UiPointer { pointer: PointerId::Touch(2), location: None, nodes: vec![] },
        UiPointer { pointer: PointerId::Touch(3), location: Some(window_loc(5)), nodes: vec![node(3, true, false, None)] },
    ];
    let out = ui_picking(&pointers, Some(e(5)), &cams, &depths);
    assert_eq!(out.len(), 2);
    assert_eq!(out[0].pointer, PointerId::Mouse);
    assert_eq!(out[0].order, 7.5f32.to_bits());
    assert_eq!(
        out[0].picks,
        vec![(e(3), HitData::new(e(2), depths[0], None, None)), (e(4), HitData::new(e(2), depths[1], None, None))]
    );
    assert_eq!(out[1].pointer, PointerId::Touch(3));
    assert!(out[1].picks.is_empty());
    // No camera shows the UI: no report at all.
    let hidden = vec![ui_cam(3, true, 5, false, 9)];
    assert!(ui_picking(&pointers, Some(e(5)), &hidden, &depths).is_empty());
}

fn sprite(n: u64, in_rect: Option<bool>, pixel: SpritePixel, pickable: Option<Pickable>) -> SpriteHit {
    SpriteHit { entity: e(n), visible: true, in_rect, pixel, pickable, depth: (n as f32).to_bits(), z: (-(n as f32)).to_bits() }
}

#[test]
fn sprite_defaults() {
    let s = SpriteBackendSettings::default();
    assert!(!s.passthrough_transparency);
    assert_eq!(s.transparency_cutoff, 245);
}

#[test]
fn sprites_without_passthrough_ignore_pixels() {
    let settings = SpriteBackendSettings::default();
    let sprites = vec![
        sprite(1, Some(false), SpritePixel::NoImage, None),
        sprite(2, Some(true), SpritePixel::Alpha(0), Some(Pickable { should_block_lower: false, should_emit_events: true })),
        sprite(3, Some(true), SpritePixel::OutsideImage, None),
        sprite(4, Some(true), SpritePixel::NoImage, None),
    ];
    let picks: Vec<Entity> = sprite_picks(&sprites, &settings).iter().map(|p| p.0).collect();
    assert_eq!(picks, vec![e(2), e(3)]);
}

#[test]
fn sprites_with_passthrough_skip_transparent_pixels() {
    let settings = SpriteBackendSettings { passthrough_transparency: true, transparency_cutoff: 10 };
    let sprites = vec![
        sprite(1, Some(true), SpritePixel::Alpha(10), None),
        sprite(2, Some(true), SpritePixel::NotLoaded, None),
        sprite(3, None, SpritePixel::NoImage, None),
        sprite(4, Some(true), SpritePixel::Alpha(11), None),
        sprite(5, Some(true), SpritePixel::Alpha(255), None),
    ];
    let picks = sprite_picks(&sprites, &settings);
    assert_eq!(picks, vec![(e(4), 4.0f32.to_bits())]);
}

#[test]
fn sprites_sort_highest_first() {
    let at = |n: u64, z: f32| SpriteHit { z: z.to_bits(), ..sprite(n, Some(true), SpritePixel::NoImage, None) };
    let s = vec![at(1, 1.0), at(2, 5.0), at(3, -2.0), at(4, 5.0)];
    let order: Vec<Entity> = sort_by_z(&s).iter().map(|x| x.entity).collect();
    assert_eq!(order, vec![e(2), e(4), e(1), e(3)]);
}

#[test]
fn sprite_camera_is_first_active_on_target() {
    let cams = vec![
        sprite_cam(1, false, 5),
        sprite_cam(2, true, 6),
        sprite_cam(3, true, 5),
        sprite_cam(4, true, 5),
    ];
    assert_eq!(sprite_camera(&window_loc(5), Some(e(5)), &cams), Some(2));
    assert_eq!(sprite_camera(&window_loc(5), None, &cams), None);
    assert_eq!(sprite_camera(&window_loc(7), Some(e(5)), &cams), None);
}

fn sprite_cam(n: u64, active: bool, window: u64) -> SpriteCamera {
    SpriteCamera { entity: e(n), is_active: active, target: RenderTarget::Window(e(window)), order: (n as f32).to_bits() }
}

#[test]
fn sprite_reports_walk_sorted_sprites_through_the_first_camera() {
    let settings = SpriteBackendSettings::default();
    let cams = vec![sprite_cam(1, false, 5), sprite_cam(2, true, 5), sprite_cam(3, true, 5)];
    let pass = Some(Pickable { should_block_lower: false, should_emit_events: true });
    let at = |n: u64, z: f32, pickable: Option<Pickable>| SpriteHit { z: z.to_bits(), ..sprite(n, Some(true), SpritePixel::NoImage, pickable) };
    // Given lowest first; walked from the highest: 7 lets 8 through, 8 blocks 9.
    let sprites = vec![at(9, 1.0, None), at(8, 2.0, None), at(7, 3.0, pass)];
    let pointers = vec![
        SpritePointer { pointer: PointerId::Mouse, location: Some(window_loc(5)), sprites: Some(sprites) },
        SpritePointer { pointer: PointerId::Touch(1), location: Some(window_loc(5)), sprites: None },
        SpritePointer { pointer: PointerId::Touch(2), location: Some(window_loc(6)), sprites: Some(vec![at(7, 3.0, None)]) },
        SpritePointer { pointer: PointerId::Touch(3), location: None, sprites: Some(vec![at(7, 3.0, None)]) },
    ];
    let out = sprite_picking(&pointers, Some(e(5)), &cams, &settings);
    assert_eq!(out.len(), 1);
    assert_eq!(out[0].pointer, PointerId::Mouse);
    assert_eq!(out[0].order, 2.0f32.to_bits());
    assert_eq!(
        out[0].picks,
        vec![(e(7), HitData::new(e(2), 7.0f32.to_bits(), None, None)), (e(8), HitData::new(e(2), 8.0f32.to_bits(), None, None))]
    );
    assert!(sprite_picking(&pointers, None, &cams, &settings).is_empty());
}

#[test]
fn egui_hits_are_on_top() {
    let contexts = vec![
        EguiContext { window: e(5), wants_pointer_input: true },
        EguiContext { window: e(6), wants_pointer_input: false },
    ];
    let h = egui_picking(PointerId::Mouse, Some(window_loc(5)), &contexts).unwrap();
    assert_eq!(h.pointer, PointerId::Mouse);
    assert_eq!(h.order, 1_000_000f32.to_bits());
    assert_eq!(h.picks, vec![(e(5), HitData::new(e(5), 0.0f32.to_bits(), None, None))]);
    assert!(egui_picking(PointerId::Mouse, Some(window_loc(6)), &contexts).is_none());
    assert!(egui_picking(PointerId::Mouse, Some(window_loc(7)), &contexts).is_none());
    assert!(egui_picking(PointerId::Mouse, None, &contexts).is_none());
}

#[test]
fn egui_settings_mark_contexts() {
    let contexts = vec![e(5), e(6)];
    let keep = update_settings(&EguiBackendSettings::default(), true, &contexts);
    assert_eq!(keep, vec![(e(5), true), (e(6), true)]);
    let allow = update_settings(&EguiBackendSettings { allow_deselect: true }, true, &contexts);
    assert_eq!(allow, vec![(e(5), false), (e(6), false)]);
    assert!(update_settings(&EguiBackendSettings::default(), false, &contexts).is_empty());
}

fn ray_cam(active: bool, marker: bool) -> Option<RayCamera> {
    Some(RayCamera { is_active: active, has_marker: marker, layers: None, order: 3.0f32.to_bits() })
}

#[test]
fn physics_backends_pick_cameras() {
    let plain = avian::AvianBackendSettings::default();
    let marked = avian::AvianBackendSettings { require_markers: true };
    assert!(avian::casts_from(&plain, &ray_cam(true, false)));
    assert!(!avian::casts_from(&plain, &ray_cam(false, false)));
    assert!(!avian::casts_from(&marked, &ray_cam(true, false)));
    assert!(avian::casts_from(&marked, &ray_cam(true, true)));
    assert!(!avian::casts_from(&plain, &None));
    assert!(!xpbd::casts_from(&xpbd::XpbdBackendSettings::default(), &ray_cam(false, false)));
    // This backend does not look at whether the camera is active.
    assert!(rapier::casts_from(&rapier::RapierBackendSettings::default(), &ray_cam(false, false)));
}

#[test]
fn physics_backends_filter_targets() {
    let settings = avian::AvianBackendSettings { require_markers: false };
    let cam = RayCamera { is_active: true, has_marker: false, layers: None, order: 0 };
    let target = |layers_: Option<RenderLayers>, pickable: Option<Pickable>| RayTarget { has_marker: false, layers: layers_, pickable };
    assert!(avian::is_pickable_target(&settings, &cam, &target(None, None)));
    assert!(!avian::is_pickable_target(&settings, &cam, &target(Some(layers(&[2])), None)));
    assert!(!avian::is_pickable_target(&settings, &cam, &target(None, Some(Pickable::ignore()))));
    assert!(avian::is_pickable_target(&settings, &cam, &target(None, Some(Pickable { should_block_lower: false, should_emit_events: true }))));
    let marked = rapier::RapierBackendSettings { require_markers: true };
    assert!(!rapier::is_pickable_target(&marked, &cam, &target(None, None)));
}

#[test]
fn physics_backends_report_single_hits() {
    let hit = (e(9), HitData::new(e(1), 2.0f32.to_bits(), None, None));
    let rays = vec![
        RayCast { id: RayId::new(e(1), PointerId::Mouse), camera: ray_cam(true, false), hit: Some(hit) },
        RayCast { id: RayId::new(e(2), PointerId::Mouse), camera: ray_cam(false, false), hit: Some(hit) },
        RayCast { id: RayId::new(e(1), PointerId::Touch(0)), camera: ray_cam(true, false), hit: None },
    ];
    let out = xpbd::update_hits(&xpbd::XpbdBackendSettings::default(), &rays);
    assert_eq!(out.len(), 1);
    assert_eq!(out[0].pointer, PointerId::Mouse);
    assert_eq!(out[0].picks, vec![hit]);
    assert_eq!(out[0].order, 3.0f32.to_bits());
    let out = rapier::update_hits(&rapier::RapierBackendSettings::default(), &rays);
    assert_eq!(out.len(), 2);
}

#[test]
fn raycast_backend_rules() {
    let settings = RaycastBackendSettings::default();
    let cam = RaycastCamera { entity: e(1), is_active: true, in_viewport: true, has_marker: false, layers: None, order: 0 };
    assert!(camera_eligible(&settings, &cam));
    assert!(!camera_eligible(&RaycastBackendSettings { require_markers: true }, &cam));
    assert!(!camera_eligible(&settings, &RaycastCamera { in_viewport: false, ..cam }));
    let plain = |l: Option<RenderLayers>| RayTarget { has_marker: false, layers: l, pickable: None };
    assert!(target_filter(&settings, &Some(layers(&[1])), &plain(None)));
    assert!(!target_filter(&settings, &Some(layers(&[1])), &plain(Some(layers(&[2])))));
    assert!(!target_filter(&RaycastBackendSettings { require_markers: true }, &None, &plain(None)));
    let ignored = RayTarget { has_marker: false, layers: None, pickable: Some(Pickable::ignore()) };
    assert!(!target_filter(&settings, &None, &ignored));
    assert!(early_exit(Some(Pickable::default())));
    assert!(!early_exit(None));
    assert!(!early_exit(Some(Pickable::ignore())));
    let hit = HitData::new(e(1), 2.0f32.to_bits(), None, None);
    let pick = |n: u64| RaycastPick { entity: e(n), hit, target: plain(None) };
    let casts = vec![
        RaycastCast { pointer: PointerId::Mouse, camera: RaycastCamera { entity: e(1), is_active: true, in_viewport: true, has_marker: false, layers: None, order: 0 }, picks: vec![pick(9)] },
        RaycastCast { pointer: PointerId::Mouse, camera: RaycastCamera { entity: e(2), is_active: true, in_viewport: true, has_marker: false, layers: None, order: 0 }, picks: vec![] },
        RaycastCast { pointer: PointerId::Touch(1), camera: RaycastCamera { entity: e(3), is_active: false, in_viewport: true, has_marker: false, layers: None, order: 0 }, picks: vec![pick(9)] },
    ];
    let out = raycast_update_hits(&settings, &casts);
    assert_eq!(out.len(), 1);
    assert_eq!(out[0].picks, vec![(e(9), hit)]);
}

#[test]
fn raycast_backend_skips_ignored_entities() {
    let settings = RaycastBackendSettings::default();
    let cam = || RaycastCamera { entity: e(1), is_active: true, in_viewport: true, has_marker: false, layers: None, order: 0 };
    let hit = HitData::new(e(1), 2.0f32.to_bits(), None, None);
    let ignored = || RaycastPick { entity: e(8), hit, target: RayTarget { has_marker: false, layers: None, pickable: Some(Pickable::ignore()) } };
    let plain = RaycastPick { entity: e(9), hit, target: RayTarget { has_marker: false, layers: None, pickable: None } };
    let both = vec![RaycastCast { pointer: PointerId::Mouse, camera: cam(), picks: vec![ignored(), plain] }];
    let out = raycast_update_hits(&settings, &both);
    assert_eq!(out.len(), 1);
    assert_eq!(out[0].picks, vec![(e(9), hit)]);
    let only_ignored = vec![RaycastCast { pointer: PointerId::Mouse, camera: cam(), picks: vec![ignored()] }];
    assert!(raycast_update_hits(&settings, &only_ignored).is_empty());
}

#[test]
fn ray_map_keeps_active_rays() {
    let ray = |x: u32| Ray { origin: Vec3Bits { x, y: 0, z: 0 }, direction: Vec3Bits { x: 0, y: 0, z: 1 } };
    let mut m = RayMap::new();
    let candidates = vec![
        RayCandidate { id: RayId::new(e(1), PointerId::Mouse), camera_active: true, ray: Some(ray(1)) },
        RayCandidate { id: RayId::new(e(2), PointerId::Mouse), camera_active: false, ray: Some(ray(2)) },
        RayCandidate { id: RayId::new(e(1), PointerId::Touch(0)), camera_active: true, ray: None },
    ];
    m.repopulate(&candidates);
    assert_eq!(m.map(), vec![(RayId::new(e(1), PointerId::Mouse), ray(1))]);
    m.repopulate(&vec![]);
    assert!(m.map().is_empty());
}
