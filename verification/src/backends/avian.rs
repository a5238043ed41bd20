//! A picking backend that casts the frame's rays into the `avian3d` physics world.
use crate::backends::{collect_ray_hits, ray_hits, should_cast, target_passes, hits_view, spec_should_cast, spec_target_passes, RayCamera, RayCast, RayTarget};
use crate::backend::PointerHits;
use vstd::prelude::*;

verus! {

/// Runtime settings of the Avian backend.
#[derive(Clone, Copy, PartialEq, Eq, Structural, Debug)]
pub struct AvianBackendSettings {
    /// When set to `true`, rays are only cast from cameras marked with [`AvianPickable`] and only
    /// hit entities marked with it. Off by default.
    pub require_markers: bool,
}

impl Default for AvianBackendSettings {
    fn default() -> (s: AvianBackendSettings)
        ensures
            !s.require_markers,
    {
        AvianBackendSettings { require_markers: false }
    }
}

/// Marks cameras and target entities used by the backend when markers are required.
#[derive(Clone, Copy, PartialEq, Eq, Structural, Debug, Default)]
pub struct AvianPickable;

/// Whether the backend casts the ray of a camera. Cameras that are inactive, or that lack the marker when markers are required, cast no ray.
pub fn casts_from(settings: &AvianBackendSettings, camera: &Option<RayCamera>) -> (b: bool)
    ensures
        b == spec_should_cast(true, settings.require_markers, *camera),
{
    should_cast(true, settings.require_markers, camera)
}

/// The filter of the ray cast: whether a ray from `camera` may hit `target`.
pub fn is_pickable_target(settings: &AvianBackendSettings, camera: &RayCamera, target: &RayTarget) -> (b: bool)
    ensures
        b == spec_target_passes(settings.require_markers, *camera, *target),
{
    target_passes(settings.require_markers, camera, target)
}

/// Reports, for every ray that the backend casts and that hits an entity, that single hit for
/// the ray's pointer at the camera's order.
pub fn update_hits(settings: &AvianBackendSettings, rays: &Vec<RayCast>) -> (out: Vec<PointerHits>)
    ensures
        hits_view(out@) == ray_hits(true, settings.require_markers, rays@),
{
    collect_ray_hits(true, settings.require_markers, rays)
}

} // verus!
