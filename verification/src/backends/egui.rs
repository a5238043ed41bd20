//! A picking backend that makes the immediate-mode GUI block the entities below it.
use crate::backend::{HitData, PointerHits};
use crate::pointer::{Entity, Location, PointerId, RenderTarget};
use vstd::prelude::*;

verus! {

/// Settings of the GUI backend.
#[derive(Clone, Copy, PartialEq, Eq, Structural, Debug)]
pub struct EguiBackendSettings {
    /// When set to `true`, clicking on the GUI deselects other entities.
    pub allow_deselect: bool,
}

impl Default for EguiBackendSettings {
    fn default() -> (s: EguiBackendSettings)
        ensures
            !s.allow_deselect,
    {
        EguiBackendSettings { allow_deselect: false }
    }
}

/// Marks the entity used as the pseudo GUI pointer.
#[derive(Clone, Copy, PartialEq, Eq, Structural, Debug)]
pub struct EguiPointer;

/// The bit pattern of the `f32` order `1_000_000.0` of GUI hits: the GUI is on top of everything
/// else.
pub const EGUI_ORDER: u32 = 0x4974_2400u32;

/// The GUI context of a window: the window entity, which holds the context, and whether the GUI
/// wants the pointer's input.
#[derive(Clone, Copy, PartialEq, Eq, Structural, Debug)]
pub struct EguiContext {
    pub window: Entity,
    pub wants_pointer_input: bool,
}

/// The context of a window, if there is one: the first listed for it.
pub open spec fn context_of(contexts: Seq<EguiContext>, window: Entity) -> Option<EguiContext>
    decreases contexts.len(),
{
    if contexts.len() == 0 {
        None
    } else if contexts[0].window == window {
        Some(contexts[0])
    } else {
        context_of(contexts.drop_first(), window)
    }
}

/// The hit the GUI reports for a pointer on a window whose GUI wants the pointer's input: the
/// window's context entity at depth zero, above everything.
pub open spec fn egui_hit(location: Option<Location>, contexts: Seq<EguiContext>) -> Option<Entity> {
    match location {
        Some(l) => match l.target {
            RenderTarget::Window(w) => match context_of(contexts, w) {
                Some(c) => if c.wants_pointer_input {
                    Some(c.window)
                } else {
                    None
                },
                None => None,
            },
            _ => None,
        },
        None => None,
    }
}

/// If the GUI of the pointer's window reports that the pointer is over it, reports a hit on the
/// window's context entity, at depth zero and at an order above everything else.
pub fn egui_picking(pointer: PointerId, location: Option<Location>, contexts: &Vec<EguiContext>) -> (r: Option<PointerHits>)
    ensures
        match egui_hit(location, contexts@) {
            None => r is None,
            Some(e) => r matches Some(h) && h.pointer == pointer && h.order == EGUI_ORDER
                && h.picks@ == seq![(e, HitData { camera: e, depth: 0u32, position: None, normal: None })],
        },
{
    let window = match location {
        Some(l) => match l.target {
            RenderTarget::Window(w) => w,
            _ => return None,
        },
        None => return None,
    };
    let mut i: usize = 0;
    proof {
        assert(contexts@.skip(0) =~= contexts@);
    }
    while i < contexts.len()
        invariant
            i <= contexts@.len(),
            location matches Some(l) && l.target == RenderTarget::Window(window),
            context_of(contexts@, window) == context_of(contexts@.skip(i as int), window),
        decreases contexts@.len() - i,
    {
        let c = contexts[i];
        proof {
            assert(contexts@.skip(i as int)[0] == c);
            assert(contexts@.skip(i as int).drop_first() =~= contexts@.skip(i + 1));
        }
        if c.window == window {
            if c.wants_pointer_input {
                let mut picks: Vec<(Entity, HitData)> = Vec::new();
                picks.push((c.window, HitData::new(c.window, 0u32, None, None)));
                proof {
                    assert(picks@ =~= seq![(c.window, HitData { camera: c.window, depth: 0u32, position: None, normal: None })]);
                }
                return Some(PointerHits::new(pointer, picks, EGUI_ORDER));
            } else {
                return None;
            }
        }
        i = i + 1;
    }
    None
}

/// When the settings were added or changed, which GUI context entities get the marker that keeps
/// selections (`true`) or lose it (`false`): all of them, one way, depending on whether clicking
/// on the GUI may deselect. Nothing changes otherwise.
pub fn update_settings(settings: &EguiBackendSettings, changed: bool, contexts: &Vec<Entity>) -> (r: Vec<(Entity, bool)>)
    ensures
        !changed ==> r@.len() == 0,
        changed ==> r@ == contexts@.map_values(|e: Entity| (e, !settings.allow_deselect)),
{
    let mut r: Vec<(Entity, bool)> = Vec::new();
    if !changed {
        return r;
    }
    let mut i: usize = 0;
    while i < contexts.len()
        invariant
            i <= contexts@.len(),
            r@ == contexts@.take(i as int).map_values(|e: Entity| (e, !settings.allow_deselect)),
        decreases contexts@.len() - i,
    {
        r.push((contexts[i], !settings.allow_deselect));
        proof {
            assert(contexts@.take(i + 1).map_values(|e: Entity| (e, !settings.allow_deselect)) =~= contexts@.take(i as int).map_values(
                |e: Entity| (e, !settings.allow_deselect),
            ).push((contexts@[i as int], !settings.allow_deselect)));
        }
        i = i + 1;
    }
    proof {
        assert(contexts@.take(contexts@.len() as int) =~= contexts@);
    }
    r
}

} // verus!
