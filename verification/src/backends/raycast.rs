//! A picking backend that casts rays from pointers through cameras into the scene's meshes.
use crate::backend::{HitData, PointerHits};
use crate::backends::{blocks_intersect, layers_view, RayTarget, RenderLayers};
use crate::pointer::{Entity, PointerId};
use crate::settings::Pickable;
use vstd::prelude::*;

verus! {

/// Runtime settings of the ray-casting backend.
#[derive(Clone, Copy, PartialEq, Eq, Structural, Debug)]
pub struct RaycastBackendSettings {
    /// When set to `true`, rays are only cast from cameras marked with [`RaycastPickable`] and only
    /// hit entities marked with it. Off by default.
    pub require_markers: bool,
}

impl Default for RaycastBackendSettings {
    fn default() -> (s: RaycastBackendSettings)
        ensures
            !s.require_markers,
    {
        RaycastBackendSettings { require_markers: false }
    }
}

/// Marks cameras and target entities used by the backend when markers are required.
#[derive(Clone, Copy, PartialEq, Eq, Structural, Debug, Default)]
pub struct RaycastPickable;

/// A camera as the backend sees it for one pointer.
pub struct RaycastCamera {
    pub entity: Entity,
    pub is_active: bool,
    /// Whether the pointer is inside the camera's viewport.
    pub in_viewport: bool,
    pub has_marker: bool,
    pub layers: Option<RenderLayers>,
    /// The bit pattern of the camera order as an `f32`.
    pub order: u32,
}

/// Rays are cast from active cameras whose viewport holds the pointer and, when markers are
/// required, that carry the marker.
pub open spec fn spec_camera_eligible(require_markers: bool, c: RaycastCamera) -> bool {
    c.is_active && c.in_viewport && (c.has_marker || !require_markers)
}

/// Whether a ray of the backend is cast from the camera.
pub fn camera_eligible(settings: &RaycastBackendSettings, camera: &RaycastCamera) -> (b: bool)
    ensures
        b == spec_camera_eligible(settings.require_markers, *camera),
{
    camera.is_active && camera.in_viewport && (camera.has_marker || !settings.require_markers)
}

/// Whether a ray-cast target passes the filter: it carries the marker if markers are required;
/// when both the camera and the entity have render layers, the layers intersect; and its
/// [`Pickable`] is not the one that ignores picking.
pub open spec fn spec_target_filter(require_markers: bool, camera_layers: Option<Seq<u64>>, target: RayTarget) -> bool {
    &&& !require_markers || target.has_marker
    &&& match (camera_layers, layers_view(&target.layers)) {
        (Some(c), Some(t)) => blocks_intersect(c, t),
        _ => true,
    }
    &&& target.pickable != Some(Pickable { should_block_lower: false, should_emit_events: false })
}

/// The filter of the ray cast: whether a ray from a camera with `camera_layers` may hit `target`.
/// An entity whose [`Pickable`] ignores picking is never hit.
pub fn target_filter(settings: &RaycastBackendSettings, camera_layers: &Option<RenderLayers>, target: &RayTarget) -> (b: bool)
    ensures
        b == spec_target_filter(settings.require_markers, layers_view(camera_layers), *target),
{
    let marker = !settings.require_markers || target.has_marker;
    let layers = match (camera_layers, &target.layers) {
        (Some(c), Some(t)) => c.intersects(t),
        _ => true,
    };
    let pickable = match target.pickable {
        Some(p) => p.should_block_lower || p.should_emit_events,
        None => true,
    };
    marker && layers && pickable
}

/// The early-exit test of the ray cast: the cast stops at a hit entity that has a [`Pickable`]
/// that blocks lower entities. Entities without one do not stop it.
pub fn early_exit(pickable: Option<Pickable>) -> (b: bool)
    ensures
        b == (pickable matches Some(p) && p.should_block_lower),
{
    match pickable {
        Some(p) => p.should_block_lower,
        None => false,
    }
}

/// One hit of a cast: the entity, its hit data, and what the filter sees of the entity.
pub struct RaycastPick {
    pub entity: Entity,
    pub hit: HitData,
    pub target: RayTarget,
}

/// The result of casting one pointer's ray through one camera.
pub struct RaycastCast {
    pub pointer: PointerId,
    pub camera: RaycastCamera,
    /// The hits of the cast, in the order the cast returned them.
    pub picks: Vec<RaycastPick>,
}

/// The hits that pass the filter, in order.
pub open spec fn kept_picks(require_markers: bool, camera_layers: Option<Seq<u64>>, picks: Seq<RaycastPick>) -> Seq<(Entity, HitData)>
    decreases picks.len(),
{
    if picks.len() == 0 {
        Seq::empty()
    } else {
        let before = kept_picks(require_markers, camera_layers, picks.drop_last());
        let p = picks.last();
        if spec_target_filter(require_markers, camera_layers, p.target) {
            before.push((p.entity, p.hit))
        } else {
            before
        }
    }
}

/// The reports of the casts: one for each cast from an eligible camera that has a hit passing
/// the filter, with those hits.
pub open spec fn raycast_hits(require_markers: bool, casts: Seq<RaycastCast>) -> Seq<(PointerId, Seq<(Entity, HitData)>, u32)>
    decreases casts.len(),
{
    if casts.len() == 0 {
        Seq::empty()
    } else {
        let before = raycast_hits(require_markers, casts.drop_last());
        let c = casts.last();
        let kept = kept_picks(require_markers, layers_view(&c.camera.layers), c.picks@);
        if spec_camera_eligible(require_markers, c.camera) && kept.len() > 0 {
            before.push((c.pointer, kept, c.camera.order))
        } else {
            before
        }
    }
}

/// The hits of one cast that pass the filter.
fn filter_picks(settings: &RaycastBackendSettings, camera_layers: &Option<RenderLayers>, picks: &Vec<RaycastPick>) -> (kept: Vec<(Entity, HitData)>)
    ensures
        kept@ == kept_picks(settings.require_markers, layers_view(camera_layers), picks@),
{
    let mut kept: Vec<(Entity, HitData)> = Vec::new();
    let mut k: usize = 0;
    while k < picks.len()
        invariant
            k <= picks@.len(),
            kept@ == kept_picks(settings.require_markers, layers_view(camera_layers), picks@.take(k as int)),
        decreases picks@.len() - k,
    {
        let p = &picks[k];
        proof {
            assert(picks@.take(k + 1).drop_last() =~= picks@.take(k as int));
            assert(picks@.take(k + 1).last() == *p);
        }
        if target_filter(settings, camera_layers, &p.target) {
            kept.push((p.entity, p.hit));
        }
        k = k + 1;
    }
    proof {
        assert(picks@.take(picks@.len() as int) =~= picks@);
    }
    kept
}

/// Reports the hits of the casts from eligible cameras that pass the filter, skipping casts left
/// with no hit.
pub fn update_hits(settings: &RaycastBackendSettings, casts: &Vec<RaycastCast>) -> (out: Vec<PointerHits>)
    ensures
        crate::backends::hits_view(out@) == raycast_hits(settings.require_markers, casts@),
{
    let mut out: Vec<PointerHits> = Vec::new();
    let mut i: usize = 0;
    while i < casts.len()
        invariant
            i <= casts@.len(),
            crate::backends::hits_view(out@) == raycast_hits(settings.require_markers, casts@.take(i as int)),
        decreases casts@.len() - i,
    {
        let c = &casts[i];
        proof {
            assert(casts@.take(i + 1).drop_last() =~= casts@.take(i as int));
            assert(casts@.take(i + 1).last() == *c);
        }
        if camera_eligible(settings, &c.camera) {
            let kept = filter_picks(settings, &c.camera.layers, &c.picks);
            if kept.len() > 0 {
                let ghost before = out@;
                let ghost picks = kept@;
                out.push(PointerHits::new(c.pointer, kept, c.camera.order));
                proof {
                    assert(crate::backends::hits_view(out@) =~= crate::backends::hits_view(before).push(
                        (c.pointer, picks, c.camera.order),
                    ));
                }
            }
        }
        i = i + 1;
    }
    proof {
        assert(casts@.take(casts@.len() as int) =~= casts@);
    }
    out
}

} // verus!
