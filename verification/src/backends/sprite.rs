//! A picking backend for sprites.
//!
//! Sprites are walked from the highest to the lowest; a sprite under the pointer is picked and,
//! unless its [`Pickable`] says otherwise, hides the sprites below it.
use crate::float_ord::{order_key, spec_order_key};
use crate::backend::{HitData, PointerHits};
use crate::backends::hits_view;
use crate::pointer::{Entity, Location, PointerId, RenderTarget};
use crate::settings::{spec_blocks, Pickable};
use vstd::prelude::*;

verus! {

/// Runtime settings of the sprite backend.
#[derive(Clone, Copy, PartialEq, Eq, Structural, Debug)]
pub struct SpriteBackendSettings {
    /// When set to `true`, picking ignores the parts of a sprite that are transparent. Off by
    /// default.
    pub passthrough_transparency: bool,
    /// How opaque a pixel must be to count as not transparent: its alpha must exceed this value.
    pub transparency_cutoff: u8,
}

impl Default for SpriteBackendSettings {
    fn default() -> (s: SpriteBackendSettings)
        ensures
            !s.passthrough_transparency,
            s.transparency_cutoff == 245,
    {
        SpriteBackendSettings { passthrough_transparency: false, transparency_cutoff: 245 }
    }
}

/// A camera as the sprite backend sees it, its render target resolved against the primary
/// window.
#[derive(Clone, Copy, PartialEq, Eq, Structural, Debug)]
pub struct SpriteCamera {
    pub entity: Entity,
    pub is_active: bool,
    pub target: RenderTarget,
    /// The bit pattern of the camera order as an `f32`: the order of the hits through it.
    pub order: u32,
}

/// A camera renders to the target.
pub open spec fn sprite_camera_eligible(c: SpriteCamera, target: RenderTarget) -> bool {
    c.is_active && c.target == target
}

/// The first of the cameras that renders to the target.
pub open spec fn first_sprite_camera(cameras: Seq<SpriteCamera>, target: RenderTarget) -> Option<int>
    decreases cameras.len(),
{
    if cameras.len() == 0 {
        None
    } else {
        match first_sprite_camera(cameras.drop_last(), target) {
            Some(i) => Some(i),
            None => if sprite_camera_eligible(cameras.last(), target) {
                Some(cameras.len() - 1)
            } else {
                None
            },
        }
    }
}

/// The camera through which a pointer sees sprites, if any.
pub open spec fn sprite_camera_of(location: Location, primary_window: Option<Entity>, cameras: Seq<SpriteCamera>) -> Option<int> {
    match primary_window {
        None => None,
        Some(_) => first_sprite_camera(cameras, location.target),
    }
}

/// The camera through which a pointer sees sprites: the first active camera rendering to the
/// pointer's target. Without a single primary window no camera is used.
pub fn sprite_camera(location: &Location, primary_window: Option<Entity>, cameras: &Vec<SpriteCamera>) -> (r: Option<usize>)
    ensures
        match r {
            None => sprite_camera_of(*location, primary_window, cameras@) is None,
            Some(i) => sprite_camera_of(*location, primary_window, cameras@) == Some(i as int),
        },
        primary_window is Some ==> match r {
            None => forall|j: int|
                0 <= j < cameras@.len() ==> !sprite_camera_eligible(#[trigger] cameras@[j], location.target),
            Some(i) => {
                &&& i < cameras@.len()
                &&& sprite_camera_eligible(cameras@[i as int], location.target)
                &&& forall|j: int| 0 <= j < i ==> !sprite_camera_eligible(#[trigger] cameras@[j], location.target)
            },
        },
{
    match primary_window {
        None => {
            return None;
        },
        Some(_) => {},
    }
    let mut found: Option<usize> = None;
    let mut i: usize = 0;
    while i < cameras.len()
        invariant
            i <= cameras@.len(),
            primary_window is Some,
            match found {
                None => {
                    &&& first_sprite_camera(cameras@.take(i as int), location.target) is None
                    &&& forall|j: int| 0 <= j < i ==> !sprite_camera_eligible(#[trigger] cameras@[j], location.target)
                },
                Some(f) => {
                    &&& first_sprite_camera(cameras@.take(i as int), location.target) == Some(f as int)
                    &&& f < i
                    &&& sprite_camera_eligible(cameras@[f as int], location.target)
                    &&& forall|j: int| 0 <= j < f ==> !sprite_camera_eligible(#[trigger] cameras@[j], location.target)
                },
            },
        decreases cameras@.len() - i,
    {
        proof {
            assert(cameras@.take(i + 1).drop_last() =~= cameras@.take(i as int));
            assert(cameras@.take(i + 1).last() == cameras@[i as int]);
        }
        if found.is_none() && cameras[i].is_active && cameras[i].target == location.target {
            found = Some(i);
        }
        i = i + 1;
    }
    proof {
        assert(cameras@.take(cameras@.len() as int) =~= cameras@);
    }
    found
}

/// What the pixel test of a sprite found under the pointer.
#[derive(Clone, Copy, PartialEq, Eq, Structural, Debug)]
pub enum SpritePixel {
    /// The sprite has no image: every point of its rectangle counts.
    NoImage,
    /// The sprite's image is not loaded: the sprite is skipped.
    NotLoaded,
    /// The alpha of the pixel under the pointer.
    Alpha(u8),
    /// The pointer falls outside the image data.
    OutsideImage,
}

/// A sprite as the backend sees it for one pointer.
#[derive(Clone, Copy, PartialEq, Eq, Structural, Debug)]
pub struct SpriteHit {
    pub entity: Entity,
    pub visible: bool,
    /// Whether the pointer lies in the sprite's rectangle; `None` when the sprite's size is not
    /// known, which skips the sprite.
    pub in_rect: Option<bool>,
    pub pixel: SpritePixel,
    pub pickable: Option<Pickable>,
    /// The bit pattern of the `f32` depth of the sprite from the camera's near plane.
    pub depth: u32,
    /// The bit pattern of the `f32` `z` translation of the sprite, by which sprites are stacked.
    pub z: u32,
}

/// The outcome of the hit test of one sprite: `None` when the sprite is skipped, otherwise
/// whether the pointer is on a valid part of it. With transparency passthrough, a pixel counts
/// when its alpha exceeds the cutoff.
pub open spec fn sprite_outcome(s: SpriteHit, settings: SpriteBackendSettings) -> Option<bool> {
    match s.in_rect {
        None => None,
        Some(in_rect) => if in_rect && settings.passthrough_transparency {
            match s.pixel {
                SpritePixel::NoImage => Some(true),
                SpritePixel::NotLoaded => None,
                SpritePixel::Alpha(a) => Some(a > settings.transparency_cutoff),
                SpritePixel::OutsideImage => Some(false),
            }
        } else {
            Some(in_rect)
        },
    }
}

/// Walks the visible sprites from the highest: a sprite hit on a valid part is picked with its
/// depth, and one that blocks stops the walk. The second part tells whether the walk has stopped.
pub open spec fn sprite_walk(sprites: Seq<SpriteHit>, settings: SpriteBackendSettings) -> (Seq<(Entity, u32)>, bool)
    decreases sprites.len(),
{
    if sprites.len() == 0 {
        (Seq::empty(), false)
    } else {
        let (picks, blocked) = sprite_walk(sprites.drop_last(), settings);
        let s = sprites.last();
        if !s.visible || blocked {
            (picks, blocked)
        } else {
            match sprite_outcome(s, settings) {
                None => (picks, blocked),
                Some(valid) => (
                    if valid {
                        picks.push((s.entity, s.depth))
                    } else {
                        picks
                    },
                    valid && spec_blocks(s.pickable),
                ),
            }
        }
    }
}

/// The sprites under the pointer with their depths, from the highest, up to and including the
/// first one that blocks the sprites below it.
pub fn sprite_picks(sprites: &Vec<SpriteHit>, settings: &SpriteBackendSettings) -> (picks: Vec<(Entity, u32)>)
    ensures
        picks@ == sprite_walk(sprites@, *settings).0,
{
    let mut picks: Vec<(Entity, u32)> = Vec::new();
    let mut blocked = false;
    let mut i: usize = 0;
    while i < sprites.len()
        invariant
            i <= sprites@.len(),
            (picks@, blocked) == sprite_walk(sprites@.take(i as int), *settings),
        decreases sprites@.len() - i,
    {
        let s = sprites[i];
        proof {
            assert(sprites@.take(i + 1).drop_last() =~= sprites@.take(i as int));
            assert(sprites@.take(i + 1).last() == s);
        }
        if s.visible && !blocked {
            let outcome = match s.in_rect {
                None => None,
                Some(in_rect) => if in_rect && settings.passthrough_transparency {
                    match s.pixel {
                        SpritePixel::NoImage => Some(true),
                        SpritePixel::NotLoaded => None,
                        SpritePixel::Alpha(a) => Some(a > settings.transparency_cutoff),
                        SpritePixel::OutsideImage => Some(false),
                    }
                } else {
                    Some(in_rect)
                },
            };
            match outcome {
                Some(valid) => {
                    if valid {
                        picks.push((s.entity, s.depth));
                    }
                    blocked = valid && match s.pickable {
                        Some(p) => p.should_block_lower,
                        None => true,
                    };
                },
                None => {},
            }
        }
        i = i + 1;
    }
    proof {
        assert(sprites@.take(sprites@.len() as int) =~= sprites@);
    }
    picks
}

/// Where a sprite whose `z` has the order key `key` goes in sprites sorted from the highest: after
/// every sprite that is not below it.
#[verifier::opaque]
pub open spec fn z_insert_pos(r: Seq<SpriteHit>, key: int) -> int
    decreases r.len(),
{
    if r.len() == 0 {
        0
    } else if spec_order_key(r.last().z) < key {
        z_insert_pos(r.drop_last(), key)
    } else {
        r.len() as int
    }
}

/// The sprites sorted from the highest `z` to the lowest by inserting each in turn; sprites of
/// equal `z` keep their order.
#[verifier::opaque]
pub open spec fn z_sort(sprites: Seq<SpriteHit>) -> Seq<SpriteHit>
    decreases sprites.len(),
{
    if sprites.len() == 0 {
        Seq::empty()
    } else {
        let r = z_sort(sprites.drop_last());
        r.insert(z_insert_pos(r, spec_order_key(sprites.last().z)), sprites.last())
    }
}

/// Sprites are in nonincreasing order of the `z` bit patterns, in the total order of floats.
pub open spec fn z_sorted_desc(s: Seq<SpriteHit>) -> bool {
    forall|i: int, j: int| 0 <= i < j < s.len() ==> spec_order_key(s[i].z) >= spec_order_key(s[j].z)
}

/// `r` lists the sprites at the positions `perm` of `sprites`, each position once, and sprites of
/// equal `z` keep the order they had in `sprites`.
pub open spec fn stable_z_order(r: Seq<SpriteHit>, sprites: Seq<SpriteHit>, perm: Seq<int>) -> bool {
    &&& perm.len() == r.len()
    &&& r.len() == sprites.len()
    &&& forall|k: int| 0 <= k < perm.len() ==> 0 <= #[trigger] perm[k] < sprites.len() && r[k] == sprites[perm[k]]
    &&& forall|a: int, b: int| 0 <= a < b < perm.len() ==> #[trigger] perm[a] != #[trigger] perm[b]
    &&& forall|a: int, b: int|
        0 <= a < b < perm.len() && spec_order_key(r[a].z) == spec_order_key(r[b].z) ==> #[trigger] perm[a]
            < #[trigger] perm[b]
}

/// Inserting the next sprite extends the sort.
proof fn lemma_z_sort_step(sprites: Seq<SpriteHit>, i: int)
    requires
        0 <= i < sprites.len(),
    ensures
        z_sort(sprites.take(i + 1)) == z_sort(sprites.take(i)).insert(
            z_insert_pos(z_sort(sprites.take(i)), spec_order_key(sprites[i].z)),
            sprites[i],
        ),
{
    reveal(z_sort);
    assert(sprites.take(i + 1).drop_last() =~= sprites.take(i));
    assert(sprites.take(i + 1).last() == sprites[i]);
}

/// Sorts sprites from the highest `z` to the lowest; sprites of equal `z` keep their order.
#[verifier::spinoff_prover]
#[verifier::rlimit(40)]
pub fn sort_by_z(sprites: &Vec<SpriteHit>) -> (r: Vec<SpriteHit>)
    ensures
        r@ == z_sort(sprites@),
        z_sorted_desc(r@),
        r@.to_multiset() == sprites@.to_multiset(),
        exists|perm: Seq<int>| stable_z_order(r@, sprites@, perm),
{
    broadcast use vstd::seq_lib::group_to_multiset_ensures;

    let mut r: Vec<SpriteHit> = Vec::new();
    let ghost mut perm: Seq<int> = Seq::empty();
    let mut i: usize = 0;
    proof {
        reveal(z_sort);
    }
    while i < sprites.len()
        invariant
            i <= sprites@.len(),
            r@ == z_sort(sprites@.take(i as int)),
            z_sorted_desc(r@),
            r@.to_multiset() == sprites@.take(i as int).to_multiset(),
            stable_z_order(r@, sprites@.take(i as int), perm),
        decreases sprites@.len() - i,
    {
        let s = sprites[i];
        let key = order_key(s.z);
        let mut j: usize = r.len();
        proof {
            assert(r@.take(j as int) =~= r@);
            reveal(z_insert_pos);
        }
        while j > 0 && order_key(r[j - 1].z) < key
            invariant
                j <= r@.len(),
                forall|k: int| j <= k < r@.len() ==> spec_order_key(r@[k].z) < key,
                z_insert_pos(r@.take(j as int), key as int) == z_insert_pos(r@, key as int),
            decreases j,
        {
            proof {
                reveal(z_insert_pos);
                assert(r@.take(j as int).drop_last() =~= r@.take(j - 1));
                assert(r@.take(j as int).last() == r@[j - 1]);
            }
            j = j - 1;
        }
        proof {
            reveal(z_insert_pos);
            if j > 0 {
                assert(r@.take(j as int).last() == r@[j - 1]);
            }
            assert(z_insert_pos(r@, key as int) == j);
        }
        let ghost before = r@;
        let ghost p0 = perm;
        r.insert(j, s);
        proof {
            perm = p0.insert(j as int, i as int);
            assert(sprites@.take(i + 1) =~= sprites@.take(i as int).push(s));
            lemma_z_sort_step(sprites@, i as int);
            assert(r@ == before.insert(j as int, s));
            vstd::seq_lib::to_multiset_insert(before, j as int, s);
            vstd::seq_lib::to_multiset_build(sprites@.take(i as int), s);
            assert forall|a: int, b: int| 0 <= a < b < r@.len() implies spec_order_key(r@[a].z)
                >= spec_order_key(r@[b].z) by {
                if b < j {
                    assert(r@[a] == before[a] && r@[b] == before[b]);
                } else if b == j {
                    assert(r@[a] == before[a]);
                    if j > 0 {
                        assert(!(spec_order_key(before[j - 1].z) < key));
                        if a < j - 1 {
                            assert(spec_order_key(before[a].z) >= spec_order_key(before[j - 1].z));
                        }
                    }
                } else if a < j {
                    assert(r@[a] == before[a] && r@[b] == before[b - 1]);
                } else if a == j {
                    assert(r@[b] == before[b - 1]);
                } else {
                    assert(r@[a] == before[a - 1] && r@[b] == before[b - 1]);
                }
            }
            let t = sprites@.take(i + 1);
            assert forall|k: int| 0 <= k < perm.len() implies 0 <= #[trigger] perm[k] < t.len() && r@[k] == t[perm[k]] by {
                if k < j {
                    assert(perm[k] == p0[k] && r@[k] == before[k]);
                } else if k > j {
                    assert(perm[k] == p0[k - 1] && r@[k] == before[k - 1]);
                }
            }
            assert forall|a: int, b: int| 0 <= a < b < perm.len() implies #[trigger] perm[a] != #[trigger] perm[b] by {
                if a != j && b != j {
                    let a0 = if a < j { a } else { a - 1 };
                    let b0 = if b < j { b } else { b - 1 };
                    assert(perm[a] == p0[a0] && perm[b] == p0[b0]);
                    assert(p0[a0] != p0[b0]);
                } else if a == j {
                    assert(perm[b] == p0[b - 1]);
                } else {
                    assert(perm[a] == p0[a]);
                }
            }
            assert forall|a: int, b: int|
                0 <= a < b < perm.len() && spec_order_key(r@[a].z) == spec_order_key(r@[b].z) implies #[trigger] perm[a]
                < #[trigger] perm[b] by {
                if a != j && b != j {
                    let a0 = if a < j { a } else { a - 1 };
                    let b0 = if b < j { b } else { b - 1 };
                    assert(perm[a] == p0[a0] && perm[b] == p0[b0]);
                    assert(r@[a] == before[a0] && r@[b] == before[b0]);
                } else if a == j {
                    assert(r@[b] == before[b - 1]);
                    assert(spec_order_key(before[b - 1].z) < key);
                } else {
                    assert(perm[a] == p0[a]);
                }
            }
        }
        i = i + 1;
    }
    proof {
        assert(sprites@.take(sprites@.len() as int) =~= sprites@);
    }
    r
}

/// A pointer as the sprite backend sees it: its location and, when the camera that
/// [`sprite_camera`] picks for it can project its position into the world, the hit tests of every
/// sprite against that position, with depths from that camera's near plane.
pub struct SpritePointer {
    pub pointer: PointerId,
    pub location: Option<Location>,
    pub sprites: Option<Vec<SpriteHit>>,
}

/// The hits of the picked sprites through a camera.
pub open spec fn sprite_hit_list(picks: Seq<(Entity, u32)>, camera: Entity) -> Seq<(Entity, HitData)> {
    picks.map_values(|p: (Entity, u32)| (p.0, HitData { camera, depth: p.1, position: None, normal: None }))
}

/// The reports of the sprite backend: for each located pointer, in order, that sees sprites
/// through some camera that can project its position, one report of the sprites it picks, walked
/// from the highest, with that camera's entity and at that camera's order. Other pointers get no
/// report.
pub open spec fn sprite_reports(
    pointers: Seq<SpritePointer>,
    primary_window: Option<Entity>,
    cameras: Seq<SpriteCamera>,
    settings: SpriteBackendSettings,
) -> Seq<(PointerId, Seq<(Entity, HitData)>, u32)>
    decreases pointers.len(),
{
    if pointers.len() == 0 {
        Seq::empty()
    } else {
        let before = sprite_reports(pointers.drop_last(), primary_window, cameras, settings);
        let p = pointers.last();
        match p.location {
            None => before,
            Some(l) => match sprite_camera_of(l, primary_window, cameras) {
                None => before,
                Some(c) => match p.sprites {
                    None => before,
                    Some(v) => before.push(
                        (
                            p.pointer,
                            sprite_hit_list(sprite_walk(z_sort(v@), settings).0, cameras[c].entity),
                            cameras[c].order,
                        ),
                    ),
                },
            },
        }
    }
}

/// Runs the sprite backend for every pointer.
pub fn sprite_picking(
    pointers: &Vec<SpritePointer>,
    primary_window: Option<Entity>,
    cameras: &Vec<SpriteCamera>,
    settings: &SpriteBackendSettings,
) -> (out: Vec<PointerHits>)
    ensures
        hits_view(out@) == sprite_reports(pointers@, primary_window, cameras@, *settings),
{
    let mut out: Vec<PointerHits> = Vec::new();
    let mut i: usize = 0;
    while i < pointers.len()
        invariant
            i <= pointers@.len(),
            hits_view(out@) == sprite_reports(pointers@.take(i as int), primary_window, cameras@, *settings),
        decreases pointers@.len() - i,
    {
        let p = &pointers[i];
        proof {
            assert(pointers@.take(i + 1).drop_last() =~= pointers@.take(i as int));
            assert(pointers@.take(i + 1).last() == *p);
        }
        match p.location {
            None => {},
            Some(l) => match sprite_camera(&l, primary_window, cameras) {
                None => {},
                Some(c) => match &p.sprites {
                    None => {},
                    Some(v) => {
                        let sorted = sort_by_z(v);
                        let picked = sprite_picks(&sorted, settings);
                        let camera = cameras[c].entity;
                        let mut picks: Vec<(Entity, HitData)> = Vec::new();
                        let mut k: usize = 0;
                        while k < picked.len()
                            invariant
                                k <= picked@.len(),
                                picks@ =~= sprite_hit_list(picked@.take(k as int), camera),
                            decreases picked@.len() - k,
                        {
                            let (e, d) = picked[k];
                            picks.push((e, HitData::new(camera, d, None, None)));
                            proof {
                                assert(picked@.take(k + 1) =~= picked@.take(k as int).push(picked@[k as int]));
                            }
                            k = k + 1;
                        }
                        proof {
                            assert(picked@.take(picked@.len() as int) =~= picked@);
                        }
                        let ghost before = out@;
                        let ghost list = picks@;
                        out.push(PointerHits::new(p.pointer, picks, cameras[c].order));
                        proof {
                            assert(hits_view(out@) =~= hits_view(before).push((p.pointer, list, cameras@[c as int].order)));
                        }
                    },
                },
            },
        }
        i = i + 1;
    }
    proof {
        assert(pointers@.take(pointers@.len() as int) =~= pointers@);
    }
    out
}

/// Without transparency passthrough, pixels do not matter: two walks over sprites that differ
/// only in what their pixel tests found pick the same sprites.
pub proof fn lemma_opaque_sprites_ignore_pixels(
    a: Seq<SpriteHit>,
    b: Seq<SpriteHit>,
    settings: SpriteBackendSettings,
)
    requires
        !settings.passthrough_transparency,
        a.len() == b.len(),
        forall|i: int| 0 <= i < a.len() ==> #[trigger] a[i] == (SpriteHit { pixel: a[i].pixel, ..b[i] }),
    ensures
        sprite_walk(a, settings) == sprite_walk(b, settings),
    decreases a.len(),
{
    if a.len() > 0 {
        let (ta, tb) = (a.drop_last(), b.drop_last());
        assert forall|i: int| 0 <= i < ta.len() implies #[trigger] ta[i] == (SpriteHit { pixel: ta[i].pixel, ..tb[i] }) by {
            assert(ta[i] == a[i] && tb[i] == b[i]);
        }
        lemma_opaque_sprites_ignore_pixels(ta, tb, settings);
        assert(a.last() == (SpriteHit { pixel: a.last().pixel, ..b.last() }));
    }
}

} // verus!
