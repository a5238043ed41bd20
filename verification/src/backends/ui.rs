//! A picking backend for the UI node tree.
//!
//! The backend looks for pointers on the primary window, picks the topmost UI camera rendering
//! to it, and walks the UI nodes from the closest to the furthest. It ignores the UI's own focus
//! policy: a node's [`Pickable`] decides whether it hides the nodes below it, and a node without
//! one does.
use crate::backend::{HitData, PointerHits};
use crate::backends::hits_view;
use crate::pointer::{Entity, Location, PointerId, RenderTarget};
use crate::settings::{spec_blocks, Pickable};
use vstd::prelude::*;

verus! {

/// A camera as the UI backend sees it: whether it is active, its render target (window
/// references resolved), whether it shows the UI, and its order.
#[derive(Clone, Copy, PartialEq, Eq, Structural, Debug)]
pub struct UiCamera {
    pub entity: Entity,
    pub is_active: bool,
    pub target: RenderTarget,
    pub show_ui: bool,
    pub order: isize,
    /// The bit pattern of the `f32` order of the UI's hits through this camera: the camera order
    /// plus one half, so that the UI sorts just above what the camera itself renders.
    pub ui_order: u32,
}

/// The target of a pointer that the UI backend handles: UI is only rendered on the primary
/// window, so only pointers located there count.
pub open spec fn ui_pointer_target(location: Option<Location>, primary_window: Option<Entity>) -> Option<RenderTarget> {
    match location {
        Some(l) => match l.target {
            RenderTarget::Window(w) => if primary_window == Some(w) {
                Some(l.target)
            } else {
                None
            },
            _ => None,
        },
        None => None,
    }
}

/// A camera renders UI on the target.
pub open spec fn ui_camera_eligible(c: UiCamera, target: RenderTarget) -> bool {
    c.is_active && c.target == target && c.show_ui
}

/// The topmost UI camera on a target, scanning the cameras in order: an eligible camera replaces
/// the one kept so far unless the kept one has a higher order.
pub open spec fn ui_best(cameras: Seq<UiCamera>, target: RenderTarget) -> Option<int>
    decreases cameras.len(),
{
    if cameras.len() == 0 {
        None
    } else {
        let best = ui_best(cameras.drop_last(), target);
        let c = cameras.last();
        if ui_camera_eligible(c, target) {
            match best {
                None => Some(cameras.len() - 1),
                Some(b) => if cameras[b].order <= c.order {
                    Some(cameras.len() - 1)
                } else {
                    best
                },
            }
        } else {
            best
        }
    }
}

/// The camera whose UI a pointer sees, if any.
pub open spec fn ui_camera_of(location: Option<Location>, primary_window: Option<Entity>, cameras: Seq<UiCamera>) -> Option<int> {
    match ui_pointer_target(location, primary_window) {
        None => None,
        Some(t) => ui_best(cameras, t),
    }
}

/// The topmost UI camera of a pointer: among the active cameras that render UI to the pointer's
/// target, one of the highest order, the last listed among those of equal order. `None` when the
/// pointer is not on the primary window or no camera qualifies.
pub fn ui_camera(location: Option<Location>, primary_window: Option<Entity>, cameras: &Vec<UiCamera>) -> (r: Option<usize>)
    ensures
        match r {
            None => ui_camera_of(location, primary_window, cameras@) is None,
            Some(i) => ui_camera_of(location, primary_window, cameras@) == Some(i as int),
        },
        match ui_pointer_target(location, primary_window) {
            None => r is None,
            Some(t) => match r {
                None => forall|j: int| 0 <= j < cameras@.len() ==> !ui_camera_eligible(#[trigger] cameras@[j], t),
                Some(i) => {
                    &&& i < cameras@.len()
                    &&& ui_camera_eligible(cameras@[i as int], t)
                    &&& forall|j: int|
                        0 <= j < cameras@.len() && ui_camera_eligible(#[trigger] cameras@[j], t)
                            ==> cameras@[j].order <= cameras@[i as int].order && (j > i
                            ==> cameras@[j].order < cameras@[i as int].order)
                },
            },
        },
{
    let target = match location {
        Some(l) => match l.target {
            RenderTarget::Window(w) => match primary_window {
                Some(p) => if p == w {
                    l.target
                } else {
                    return None;
                },
                None => return None,
            },
            _ => return None,
        },
        None => return None,
    };
    let mut best: Option<usize> = None;
    let mut i: usize = 0;
    while i < cameras.len()
        invariant
            i <= cameras@.len(),
            ui_pointer_target(location, primary_window) == Some(target),
            match best {
                None => ui_best(cameras@.take(i as int), target) is None,
                Some(b) => ui_best(cameras@.take(i as int), target) == Some(b as int),
            },
            match best {
                None => forall|j: int| 0 <= j < i ==> !ui_camera_eligible(#[trigger] cameras@[j], target),
                Some(b) => {
                    &&& b < i
                    &&& ui_camera_eligible(cameras@[b as int], target)
                    &&& forall|j: int|
                        0 <= j < i && ui_camera_eligible(#[trigger] cameras@[j], target) ==> cameras@[j].order
                            <= cameras@[b as int].order && (j > b ==> cameras@[j].order
                            < cameras@[b as int].order)
                },
            },
        decreases cameras@.len() - i,
    {
        let c = cameras[i];
        proof {
            assert(cameras@.take(i + 1).drop_last() =~= cameras@.take(i as int));
            assert(cameras@.take(i + 1).last() == c);
        }
        if c.is_active && c.target == target && c.show_ui {
            match best {
                None => {
                    best = Some(i);
                },
                Some(b) => {
                    if cameras[b].order <= c.order {
                        best = Some(i);
                    }
                },
            }
        }
        i = i + 1;
    }
    proof {
        assert(cameras@.take(cameras@.len() as int) =~= cameras@);
    }
    best
}

/// A UI node as the backend sees it for one pointer, in the order of the UI stack from the
/// closest node to the furthest.
#[derive(Clone, Copy, PartialEq, Eq, Structural, Debug)]
pub struct UiNode {
    pub entity: Entity,
    /// Whether the node is rendered; a node without computed visibility counts as rendered.
    pub visible: bool,
    /// Whether the pointer lies inside the node's (clipped) rectangle.
    pub hit: bool,
    pub pickable: Option<Pickable>,
}

/// Walks the nodes from the closest: every rendered node under the pointer is picked, until a
/// picked node blocks the nodes below it. The second part tells whether the walk has stopped.
pub open spec fn ui_walk(nodes: Seq<UiNode>) -> (Seq<Entity>, bool)
    decreases nodes.len(),
{
    if nodes.len() == 0 {
        (Seq::empty(), false)
    } else {
        let (picks, stopped) = ui_walk(nodes.drop_last());
        let n = nodes.last();
        if stopped || !(n.visible && n.hit) {
            (picks, stopped)
        } else {
            (picks.push(n.entity), spec_blocks(n.pickable))
        }
    }
}

/// The UI nodes under the pointer, closest first, up to and including the first node that blocks
/// the ones below it.
pub fn ui_node_picks(nodes: &Vec<UiNode>) -> (picks: Vec<Entity>)
    ensures
        picks@ == ui_walk(nodes@).0,
{
    let mut picks: Vec<Entity> = Vec::new();
    let mut stopped = false;
    let mut i: usize = 0;
    while i < nodes.len()
        invariant
            i <= nodes@.len(),
            (picks@, stopped) == ui_walk(nodes@.take(i as int)),
        decreases nodes@.len() - i,
    {
        let n = nodes[i];
        proof {
            assert(nodes@.take(i + 1).drop_last() =~= nodes@.take(i as int));
            assert(nodes@.take(i + 1).last() == n);
        }
        if !stopped && n.visible && n.hit {
            picks.push(n.entity);
            stopped = match n.pickable {
                Some(p) => p.should_block_lower,
                None => true,
            };
        }
        i = i + 1;
    }
    proof {
        assert(nodes@.take(nodes@.len() as int) =~= nodes@);
    }
    picks
}

/// The walk picks at most one entity per node.
pub proof fn lemma_ui_walk_len(nodes: Seq<UiNode>)
    ensures
        ui_walk(nodes).0.len() <= nodes.len(),
    decreases nodes.len(),
{
    if nodes.len() > 0 {
        lemma_ui_walk_len(nodes.drop_last());
    }
}

/// A pointer as the UI backend sees it: its location, and the hit tests of the UI stack's nodes
/// against its position, closest node first.
pub struct UiPointer {
    pub pointer: PointerId,
    pub location: Option<Location>,
    pub nodes: Vec<UiNode>,
}

/// The hits of the picked nodes through a camera: the `k`-th pick gets the `k`-th depth.
pub open spec fn ui_hit_list(picks: Seq<Entity>, camera: Entity, depths: Seq<u32>) -> Seq<(Entity, HitData)> {
    Seq::new(picks.len(), |k: int| (picks[k], HitData { camera, depth: depths[k], position: None, normal: None }))
}

/// The reports of the UI backend: for each pointer, in order, that is on the primary window and
/// sees the UI through some camera, one report of the nodes it picks, with the topmost such
/// camera's entity and at that camera's UI order. Other pointers get no report.
pub open spec fn ui_reports(
    pointers: Seq<UiPointer>,
    primary_window: Option<Entity>,
    cameras: Seq<UiCamera>,
    depths: Seq<u32>,
) -> Seq<(PointerId, Seq<(Entity, HitData)>, u32)>
    decreases pointers.len(),
{
    if pointers.len() == 0 {
        Seq::empty()
    } else {
        let before = ui_reports(pointers.drop_last(), primary_window, cameras, depths);
        let p = pointers.last();
        match ui_camera_of(p.location, primary_window, cameras) {
            None => before,
            Some(i) => before.push(
                (p.pointer, ui_hit_list(ui_walk(p.nodes@).0, cameras[i].entity, depths), cameras[i].ui_order),
            ),
        }
    }
}

/// Runs the UI backend for every pointer. `depths` lists the bit patterns of the depths given to
/// the picks of a pointer in turn: zero, then growing by a small step, so that the picks keep
/// the order of the UI stack.
pub fn ui_picking(
    pointers: &Vec<UiPointer>,
    primary_window: Option<Entity>,
    cameras: &Vec<UiCamera>,
    depths: &Vec<u32>,
) -> (out: Vec<PointerHits>)
    requires
        forall|k: int| 0 <= k < pointers@.len() ==> (#[trigger] pointers@[k]).nodes@.len() <= depths@.len(),
    ensures
        hits_view(out@) == ui_reports(pointers@, primary_window, cameras@, depths@),
{
    let mut out: Vec<PointerHits> = Vec::new();
    let mut i: usize = 0;
    while i < pointers.len()
        invariant
            i <= pointers@.len(),
            forall|k: int| 0 <= k < pointers@.len() ==> (#[trigger] pointers@[k]).nodes@.len() <= depths@.len(),
            hits_view(out@) == ui_reports(pointers@.take(i as int), primary_window, cameras@, depths@),
        decreases pointers@.len() - i,
    {
        let p = &pointers[i];
        proof {
            assert(pointers@.take(i + 1).drop_last() =~= pointers@.take(i as int));
            assert(pointers@.take(i + 1).last() == *p);
        }
        match ui_camera(p.location, primary_window, cameras) {
            None => {},
            Some(c) => {
                let camera = cameras[c].entity;
                let picked = ui_node_picks(&p.nodes);
                proof {
                    lemma_ui_walk_len(p.nodes@);
                    assert(pointers@[i as int].nodes@.len() <= depths@.len());
                }
                let mut picks: Vec<(Entity, HitData)> = Vec::new();
                let mut k: usize = 0;
                while k < picked.len()
                    invariant
                        k <= picked@.len(),
                        picked@.len() <= depths@.len(),
                        picks@ =~= ui_hit_list(picked@, camera, depths@).take(k as int),
                    decreases picked@.len() - k,
                {
                    picks.push((picked[k], HitData::new(camera, depths[k], None, None)));
                    k = k + 1;
                }
                let ghost before = out@;
                let ghost list = picks@;
                out.push(PointerHits::new(p.pointer, picks, cameras[c].ui_order));
                proof {
                    assert(list =~= ui_hit_list(picked@, camera, depths@));
                    assert(hits_view(out@) =~= hits_view(before).push((p.pointer, list, cameras@[c as int].ui_order)));
                }
            },
        }
        i = i + 1;
    }
    proof {
        assert(pointers@.take(pointers@.len() as int) =~= pointers@);
    }
    out
}

/// A picked node that blocks hides every node below it: once the walk over the closest `n`
/// nodes has stopped, the further nodes add no pick.
pub proof fn lemma_ui_blocker_hides_below(nodes: Seq<UiNode>, n: int)
    requires
        0 <= n <= nodes.len(),
        ui_walk(nodes.take(n)).1,
    ensures
        ui_walk(nodes) == ui_walk(nodes.take(n)),
    decreases nodes.len() - n,
{
    if n < nodes.len() {
        let t = nodes.take(n + 1);
        assert(t.drop_last() =~= nodes.take(n));
        assert(ui_walk(t) == ui_walk(nodes.take(n)));
        lemma_ui_blocker_hides_below(nodes, n + 1);
    } else {
        assert(nodes.take(n) =~= nodes);
    }
}

} // verus!
