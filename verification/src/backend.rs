//! The data that picking backends report: which entities are under which pointer.
//!
//! A backend reads pointer locations, runs its hit tests, and produces [`PointerHits`]. The hits
//! need not be sorted or filtered; the focus step combines and sorts them.
use crate::map::{MapKey, VecMap};
use crate::pointer::{Entity, PointerId, Vec3Bits};
use vstd::prelude::*;

verus! {

/// Holds data from a successful pointer hit test.
///
/// `depth` only needs to be self-consistent with other [`PointerHits`] using the same render
/// target. Floats are carried as their bit patterns.
#[derive(Clone, Copy, PartialEq, Eq, Structural, Debug)]
pub struct HitData {
    /// The camera entity used to detect this hit.
    pub camera: Entity,
    /// The bit pattern of the `f32` distance from the pointer to the entity into the screen.
    pub depth: u32,
    /// The position of the intersection in the world, if the backend provides it.
    pub position: Option<Vec3Bits>,
    /// The normal vector of the hit test, if the backend provides it.
    pub normal: Option<Vec3Bits>,
}

impl HitData {
    /// Builds hit data from its parts.
    pub fn new(camera: Entity, depth: u32, position: Option<Vec3Bits>, normal: Option<Vec3Bits>) -> (h: HitData)
        ensures
            h == (HitData { camera, depth, position, normal }),
    {
        HitData { camera, depth, position, normal }
    }
}

/// An event produced by a picking backend after it has run its hit tests, describing the entities
/// under a pointer.
#[derive(Clone, Debug)]
pub struct PointerHits {
    /// The pointer associated with this hit test.
    pub pointer: PointerId,
    /// An unordered collection of entities and their hit data.
    pub picks: Vec<(Entity, HitData)>,
    /// The bit pattern of the `f32` order of this group of picks, normally the camera order.
    /// Hits with a higher order are on top of hits with a lower order, regardless of depth.
    pub order: u32,
}

impl PointerHits {
    /// Builds a hit report from its parts.
    pub fn new(pointer: PointerId, picks: Vec<(Entity, HitData)>, order: u32) -> (h: PointerHits)
        ensures
            h.pointer == pointer,
            h.picks@ == picks@,
            h.order == order,
    {
        PointerHits { pointer, picks, order }
    }
}

/// Identifies a ray constructed from some (pointer, camera) combination.
#[derive(Clone, Copy, PartialEq, Eq, Structural, Debug, Hash)]
pub struct RayId {
    /// The camera whose projection was used to calculate the ray.
    pub camera: Entity,
    /// The pointer whose pixel coordinates were used to calculate the ray.
    pub pointer: PointerId,
}

impl RayId {
    /// Constructs a [`RayId`].
    pub fn new(camera: Entity, pointer: PointerId) -> (r: RayId)
        ensures
            r == (RayId { camera, pointer }),
    {
        RayId { camera, pointer }
    }
}

impl MapKey for RayId {
    fn key_eq(&self, other: &Self) -> (b: bool) {
        *self == *other
    }
}

/// A ray in the world: the bit patterns of its origin and of its direction.
#[derive(Clone, Copy, PartialEq, Eq, Structural, Debug)]
pub struct Ray {
    pub origin: Vec3Bits,
    pub direction: Vec3Bits,
}

/// A ray that could be cast this frame: its id, whether its camera is active, and the ray through
/// the pointer, if the pointer is inside the camera's viewport.
#[derive(Clone, Copy, PartialEq, Eq, Structural, Debug)]
pub struct RayCandidate {
    pub id: RayId,
    pub camera_active: bool,
    pub ray: Option<Ray>,
}

/// The rays of a frame: one for each candidate whose camera is active and whose pointer is in
/// the camera's viewport; a later candidate with the same id wins.
pub open spec fn rays_of(candidates: Seq<RayCandidate>) -> Map<RayId, Ray>
    decreases candidates.len(),
{
    if candidates.len() == 0 {
        Map::empty()
    } else {
        let before = rays_of(candidates.drop_last());
        let c = candidates.last();
        match c.ray {
            Some(ray) => if c.camera_active {
                before.insert(c.id, ray)
            } else {
                before
            },
            None => before,
        }
    }
}

/// A map from [`RayId`] to [`Ray`], cleared and re-populated every frame before any backends
/// run.
pub struct RayMap {
    map: VecMap<RayId, Ray>,
}

impl View for RayMap {
    type V = Map<RayId, Ray>;

    closed spec fn view(&self) -> Map<RayId, Ray> {
        self.map@
    }
}

impl RayMap {
    /// Each ray id appears once.
    #[verifier::type_invariant]
    closed spec fn unique_ids(&self) -> bool {
        self.map.wf()
    }

    /// An empty ray map.
    pub fn new() -> (m: RayMap)
        ensures
            m@ == Map::<RayId, Ray>::empty(),
    {
        RayMap { map: VecMap::new() }
    }

    /// All the rays cast in the current frame, with their ids, in the order they were added.
    pub fn map(&self) -> (v: Vec<(RayId, Ray)>)
        ensures
            crate::map::no_dup_keys(v@),
            crate::map::entries_to_map(v@) == self@,
    {
        proof {
            use_type_invariant(self);
            self.map.lemma_view();
        }
        self.map.to_vec()
    }

    /// Clears the map and re-populates it with one ray for each combination of pointer and active
    /// camera where the pointer is inside the camera's viewport.
    pub fn repopulate(&mut self, candidates: &Vec<RayCandidate>)
        ensures
            final(self)@ == rays_of(candidates@),
    {
        let mut map: VecMap<RayId, Ray> = VecMap::new();
        let mut i: usize = 0;
        while i < candidates.len()
            invariant
                i <= candidates@.len(),
                map.wf(),
                map@ == rays_of(candidates@.take(i as int)),
            decreases candidates@.len() - i,
        {
            let c = candidates[i];
            proof {
                assert(candidates@.take(i + 1).drop_last() =~= candidates@.take(i as int));
                assert(candidates@.take(i + 1).last() == c);
            }
            match c.ray {
                Some(ray) => {
                    if c.camera_active {
                        map.insert(c.id, ray);
                    }
                },
                None => {},
            }
            i = i + 1;
        }
        proof {
            assert(candidates@.take(candidates@.len() as int) =~= candidates@);
        }
        self.map = map;
    }
}

} // verus!
