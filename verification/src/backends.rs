//! Picking backends: the decisions of the backends that hit-test entities under pointers.
//!
//! Hit tests themselves (ray casts, rectangle and pixel tests) work on floating point values and
//! run in the application; the backends here decide which cameras and entities take part and which
//! hits are reported.
use crate::backend::{HitData, PointerHits, RayId};
use crate::pointer::Entity;
use crate::settings::Pickable;
use vstd::prelude::*;

pub mod avian;
pub mod egui;
pub mod rapier;
pub mod raycast;
pub mod sprite;
pub mod ui;
pub mod xpbd;

verus! {

/// The render layers of a camera or an entity: a bit set of layer numbers, in 64-bit blocks.
/// Layer `n` is bit `n % 64` of block `n / 64`.
pub struct RenderLayers {
    pub blocks: Vec<u64>,
}

/// Some block index holds a layer in both sets.
pub open spec fn blocks_intersect(a: Seq<u64>, b: Seq<u64>) -> bool {
    exists|i: int| 0 <= i < a.len() && i < b.len() && #[trigger] (a[i] & b[i]) != 0
}

impl RenderLayers {
    /// Whether the two sets share a layer.
    pub fn intersects(&self, other: &RenderLayers) -> (b: bool)
        ensures
            b == blocks_intersect(self.blocks@, other.blocks@),
    {
        let mut i: usize = 0;
        while i < self.blocks.len() && i < other.blocks.len()
            invariant
                i <= self.blocks@.len(),
                forall|j: int| 0 <= j < i && j < other.blocks@.len() ==> #[trigger] (self.blocks@[j] & other.blocks@[j]) == 0,
            decreases self.blocks@.len() - i,
        {
            if self.blocks[i] & other.blocks[i] != 0 {
                return true;
            }
            i = i + 1;
        }
        false
    }
}

impl Default for RenderLayers {
    /// Entities without render layers are on layer 0.
    fn default() -> (l: RenderLayers)
        ensures
            l.blocks@ == seq![1u64],
    {
        RenderLayers { blocks: vec![1u64] }
    }
}

/// The layers of an optional set: a missing set means layer 0 alone.
pub open spec fn layers_or_default(l: Option<Seq<u64>>) -> Seq<u64> {
    match l {
        Some(b) => b,
        None => seq![1u64],
    }
}

/// The view of optional render layers.
pub open spec fn layers_view(l: &Option<RenderLayers>) -> Option<Seq<u64>> {
    match l {
        Some(r) => Some(r.blocks@),
        None => None,
    }
}

/// Whether two optional layer sets share a layer, missing sets being layer 0 alone.
pub fn layers_match(a: &Option<RenderLayers>, b: &Option<RenderLayers>) -> (r: bool)
    ensures
        r == blocks_intersect(layers_or_default(layers_view(a)), layers_or_default(layers_view(b))),
{
    let d = RenderLayers::default();
    let x = match a {
        Some(l) => l,
        None => &d,
    };
    let y = match b {
        Some(l) => l,
        None => &d,
    };
    x.intersects(y)
}

/// A camera of a physics ray-casting backend, as the backend sees it.
pub struct RayCamera {
    pub is_active: bool,
    /// Whether the camera carries the backend's marker component.
    pub has_marker: bool,
    pub layers: Option<RenderLayers>,
    /// The bit pattern of the camera order as an `f32`.
    pub order: u32,
}

/// An entity that a physics ray could hit, as the backend's filter sees it.
pub struct RayTarget {
    /// Whether the entity carries the backend's marker component.
    pub has_marker: bool,
    pub layers: Option<RenderLayers>,
    pub pickable: Option<Pickable>,
}

/// One ray of the ray map, with the camera it was cast from (none when that camera is gone) and
/// the nearest hit of the cast, if the ray was cast.
pub struct RayCast {
    pub id: RayId,
    pub camera: Option<RayCamera>,
    pub hit: Option<(Entity, HitData)>,
}

/// A physics backend casts a ray from a camera it knows that carries the marker when markers are
/// required and, when `check_active`, that is active.
pub open spec fn spec_should_cast(check_active: bool, require_markers: bool, camera: Option<RayCamera>) -> bool {
    match camera {
        Some(c) => (!require_markers || c.has_marker) && (!check_active || c.is_active),
        None => false,
    }
}

/// An entity passes a physics backend's filter when it carries the marker if markers are
/// required, shares a layer with the camera (missing layers being layer 0), and its [`Pickable`]
/// is not the one that ignores picking.
pub open spec fn spec_target_passes(require_markers: bool, camera: RayCamera, target: RayTarget) -> bool {
    &&& !require_markers || target.has_marker
    &&& blocks_intersect(
        layers_or_default(layers_view(&camera.layers)),
        layers_or_default(layers_view(&target.layers)),
    )
    &&& target.pickable != Some(Pickable { should_block_lower: false, should_emit_events: false })
}

/// Whether a physics backend casts the ray of a camera.
pub fn should_cast(check_active: bool, require_markers: bool, camera: &Option<RayCamera>) -> (b: bool)
    ensures
        b == spec_should_cast(check_active, require_markers, *camera),
{
    match camera {
        Some(c) => (!require_markers || c.has_marker) && (!check_active || c.is_active),
        None => false,
    }
}

/// The filter of a physics backend's ray cast: whether a ray from `camera` may hit `target`.
pub fn target_passes(require_markers: bool, camera: &RayCamera, target: &RayTarget) -> (b: bool)
    ensures
        b == spec_target_passes(require_markers, *camera, *target),
{
    let marker = !require_markers || target.has_marker;
    let layers = layers_match(&camera.layers, &target.layers);
    let pickable = match target.pickable {
        Some(p) => p.should_block_lower || p.should_emit_events,
        None => true,
    };
    marker && layers && pickable
}

/// The hits a physics backend reports for its rays: for each ray it casts that hit an entity,
/// one report of that hit for the ray's pointer, at the camera's order.
pub open spec fn ray_hits(check_active: bool, require_markers: bool, rays: Seq<RayCast>) -> Seq<(crate::pointer::PointerId, Seq<(Entity, HitData)>, u32)>
    decreases rays.len(),
{
    if rays.len() == 0 {
        Seq::empty()
    } else {
        let before = ray_hits(check_active, require_markers, rays.drop_last());
        let r = rays.last();
        if spec_should_cast(check_active, require_markers, r.camera) && r.hit is Some {
            before.push((r.id.pointer, seq![r.hit->0], r.camera->0.order))
        } else {
            before
        }
    }
}

/// The view of hit reports: pointer, picks and order.
pub open spec fn hits_view(h: Seq<PointerHits>) -> Seq<(crate::pointer::PointerId, Seq<(Entity, HitData)>, u32)> {
    h.map_values(|p: PointerHits| (p.pointer, p.picks@, p.order))
}

/// The hits a physics backend reports for its rays, in the order of the rays.
pub fn collect_ray_hits(check_active: bool, require_markers: bool, rays: &Vec<RayCast>) -> (out: Vec<PointerHits>)
    ensures
        hits_view(out@) == ray_hits(check_active, require_markers, rays@),
{
    let mut out: Vec<PointerHits> = Vec::new();
    let mut i: usize = 0;
    while i < rays.len()
        invariant
            i <= rays@.len(),
            hits_view(out@) == ray_hits(check_active, require_markers, rays@.take(i as int)),
        decreases rays@.len() - i,
    {
        let r = &rays[i];
        proof {
            assert(rays@.take(i + 1).drop_last() =~= rays@.take(i as int));
            assert(rays@.take(i + 1).last() == *r);
        }
        if should_cast(check_active, require_markers, &r.camera) {
            match (&r.camera, r.hit) {
                (Some(c), Some(hit)) => {
                    let ghost before = out@;
                    let mut picks: Vec<(Entity, HitData)> = Vec::new();
                    picks.push(hit);
                    assert(picks@ =~= seq![hit]);
                    out.push(PointerHits::new(r.id.pointer, picks, c.order));
                    proof {
                        assert(hits_view(out@) =~= hits_view(before).push((r.id.pointer, seq![hit], c.order)));
                    }
                },
                _ => {},
            }
        }
        i = i + 1;
    }
    proof {
        assert(rays@.take(rays@.len() as int) =~= rays@);
    }
    out
}

} // verus!
