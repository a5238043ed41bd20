//! A picking backend that casts the frame's rays into the `bevy_rapier3d` physics world.
use crate::backends::{collect_ray_hits, ray_hits, should_cast, target_passes, hits_view, spec_should_cast, spec_target_passes, RayCamera, RayCast, RayTarget};
use crate::backend::PointerHits;
use vstd::prelude::*;

verus! {

/// Runtime settings of the Rapier backend.
#[derive(Clone, Copy, PartialEq, Eq, Structural, Debug)]
pub struct RapierBackendSettings {
    /// When set to `true`, rays are only cast from cameras marked with [`RapierPickable`] and only
    /// hit entities marked with it. Off by default.
    pub require_markers: bool,
}

impl Default for RapierBackendSettings {
    fn default() -> (s: RapierBackendSettings)
        ensures
            !s.require_markers,
    {
        RapierBackendSettings { require_markers: false }
    }
}

/// Marks cameras and target entities used by the backend when markers are required.
#[derive(Clone, Copy, PartialEq, Eq, Structural, Debug, Default)]
pub struct RapierPickable;

/// Whether the backend casts the ray of a camera. Cameras that lack the marker when markers are required cast no ray; this backend does not look at whether a camera is active.
pub fn casts_from(settings: &RapierBackendSettings, camera: &Option<RayCamera>) -> (b: bool)
    ensures
        b == spec_should_cast(false, settings.require_markers, *camera),
{
    should_cast(false, settings.require_markers, camera)
}

/// The filter of the ray cast: whether a ray from `camera` may hit `target`.
pub fn is_pickable_target(settings: &RapierBackendSettings, camera: &RayCamera, target: &RayTarget) -> (b: bool)
    ensures
        b == spec_target_passes(settings.require_markers, *camera, *target),
{
    target_passes(settings.require_markers, camera, target)
}

/// Reports, for every ray that the backend casts and that hits an entity, that single hit for
/// the ray's pointer at the camera's order.
pub fn update_hits(settings: &RapierBackendSettings, rays: &Vec<RayCast>) -> (out: Vec<PointerHits>)
    ensures
        hits_view(out@) == ray_hits(false, settings.require_markers, rays@),
{
    collect_ray_hits(false, settings.require_markers, rays)
}

} // verus!
