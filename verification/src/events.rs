//! Pointer events: generated from inputs and hover state, including clicks, drags and drops.
use crate::backend::HitData;
use crate::focus::{hovers, nested_view, nested_wf, HoverMap, PreviousHoverMap};
use crate::map::{
    entries_insert, entries_remove, entries_to_map, has_key, key_position, lemma_entries_insert_keys,
    lemma_entries_remove_keys, lemma_entries_to_map_dom, lemma_entries_to_map_index, lemma_key_position,
    no_dup_keys, MapKey, VecMap,
};
use crate::pointer::{
    Entity, InputMove, InputPress, Location, PointerButton, PointerId, PointerLocation, PointerMap,
    PressDirection, Vec2Bits,
};
use vstd::prelude::*;

verus! {

/// A pointer event: its target, the pointer that triggered it, where the pointer was, and the
/// event-specific data.
#[derive(Clone, Copy, Debug)]
pub struct Pointer<E> {
    /// The target of this event
    pub target: Entity,
    /// The pointer that triggered this event
    pub pointer_id: PointerId,
    /// The location of the pointer during this event
    pub pointer_location: Location,
    /// Additional event-specific data.
    pub event: E,
}

impl<E> Pointer<E> {
    /// Construct a new pointer event.
    pub fn new(id: PointerId, location: Location, target: Entity, event: E) -> (p: Pointer<E>)
        ensures
            p == (Pointer { target, pointer_id: id, pointer_location: location, event }),
    {
        Pointer { pointer_id: id, pointer_location: location, target, event }
    }
}

/// Fires when a pointer is no longer available.
#[derive(Clone, Copy, PartialEq, Eq, Structural, Debug)]
pub struct PointerCancel {
    /// ID of the pointer that was cancelled.
    pub pointer_id: PointerId,
}

/// Fires when a the pointer crosses into the bounds of the `target` entity.
#[derive(Clone, Copy, PartialEq, Eq, Structural, Debug)]
pub struct Over {
    /// Information about the picking intersection.
    pub hit: HitData,
}

/// Fires when a the pointer crosses out of the bounds of the `target` entity.
#[derive(Clone, Copy, PartialEq, Eq, Structural, Debug)]
pub struct Out {
    /// Information about the latest prior picking intersection.
    pub hit: HitData,
}

/// Fires when a pointer button is pressed over the `target` entity.
#[derive(Clone, Copy, PartialEq, Eq, Structural, Debug)]
pub struct Down {
    /// Pointer button pressed to trigger this event.
    pub button: PointerButton,
    /// Information about the picking intersection.
    pub hit: HitData,
}

/// Fires when a pointer button is released over the `target` entity.
#[derive(Clone, Copy, PartialEq, Eq, Structural, Debug)]
pub struct Up {
    /// Pointer button lifted to trigger this event.
    pub button: PointerButton,
    /// Information about the picking intersection.
    pub hit: HitData,
}

/// Fires when a pointer sends a pointer down event followed by a pointer up event, with the same
/// `target` entity for both events.
#[derive(Clone, Copy, PartialEq, Eq, Structural, Debug)]
pub struct Click {
    /// Pointer button pressed and lifted to trigger this event.
    pub button: PointerButton,
    /// Information about the picking intersection.
    pub hit: HitData,
}

/// Fires while a pointer is moving over the `target` entity.
#[derive(Clone, Copy, PartialEq, Eq, Structural, Debug)]
pub struct Move {
    /// Information about the picking intersection.
    pub hit: HitData,
    /// The bit patterns of the change in position since the last move event.
    pub delta: Vec2Bits,
}

/// Fires when the `target` entity receives a pointer down event followed by a pointer move event.
#[derive(Clone, Copy, PartialEq, Eq, Structural, Debug)]
pub struct DragStart {
    /// Pointer button pressed and moved to trigger this event.
    pub button: PointerButton,
    /// Information about the picking intersection.
    pub hit: HitData,
}

/// Fires while the `target` entity is being dragged. The drag distance is the event location
/// minus `start_pos`, and the change since the last drag event is the event location minus
/// `previous_pos`.
#[derive(Clone, Copy, PartialEq, Eq, Structural, Debug)]
pub struct Drag {
    /// Pointer button pressed and moved to trigger this event.
    pub button: PointerButton,
    /// The position of the pointer at drag start.
    pub start_pos: Vec2Bits,
    /// The position of the pointer at the previous drag event.
    pub previous_pos: Vec2Bits,
}

/// Fires when a pointer is dragging the `target` entity and the button is released. The drag
/// distance is `latest_pos` minus `start_pos`.
#[derive(Clone, Copy, PartialEq, Eq, Structural, Debug)]
pub struct DragEnd {
    /// Pointer button pressed, moved, and lifted to trigger this event.
    pub button: PointerButton,
    /// The position of the pointer at drag start.
    pub start_pos: Vec2Bits,
    /// The last position of the pointer during the drag.
    pub latest_pos: Vec2Bits,
}

/// Fires when a pointer dragging the `dragged` entity enters the `target` entity.
#[derive(Clone, Copy, PartialEq, Eq, Structural, Debug)]
pub struct DragEnter {
    /// Pointer button pressed to enter drag.
    pub button: PointerButton,
    /// The entity that was being dragged when the pointer entered the `target` entity.
    pub dragged: Entity,
    /// Information about the picking intersection.
    pub hit: HitData,
}

/// Fires while the `dragged` entity is being dragged over the `target` entity.
#[derive(Clone, Copy, PartialEq, Eq, Structural, Debug)]
pub struct DragOver {
    /// Pointer button pressed while dragging over.
    pub button: PointerButton,
    /// The entity that was being dragged when the pointer was over the `target` entity.
    pub dragged: Entity,
    /// Information about the picking intersection.
    pub hit: HitData,
}

/// Fires when a pointer dragging the `dragged` entity leaves the `target` entity.
#[derive(Clone, Copy, PartialEq, Eq, Structural, Debug)]
pub struct DragLeave {
    /// Pointer button pressed while leaving drag.
    pub button: PointerButton,
    /// The entity that was being dragged when the pointer left the `target` entity.
    pub dragged: Entity,
    /// Information about the latest prior picking intersection.
    pub hit: HitData,
}

/// Fires when a pointer drops the `dropped` entity onto the `target` entity.
#[derive(Clone, Copy, PartialEq, Eq, Structural, Debug)]
pub struct Drop {
    /// Pointer button lifted to drop.
    pub button: PointerButton,
    /// The entity that was dropped onto the `target` entity.
    pub dropped: Entity,
    /// Information about the picking intersection.
    pub hit: HitData,
}

/// The location of a pointer: the location of the entity that carries its id, if any.
pub open spec fn spec_pointer_location(
    pointer_map: Map<PointerId, Entity>,
    locations: Map<Entity, PointerLocation>,
    id: PointerId,
) -> Option<Location> {
    if pointer_map.contains_key(id) && locations.contains_key(pointer_map[id]) {
        locations[pointer_map[id]].location
    } else {
        None
    }
}

/// Looks up the location of a pointer through the pointer map and the pointer entities.
pub fn pointer_location(
    pointer_map: &PointerMap,
    locations: &VecMap<Entity, PointerLocation>,
    id: PointerId,
) -> (r: Option<Location>)
    requires
        locations.wf(),
    ensures
        r == spec_pointer_location(pointer_map@, locations@, id),
{
    match pointer_map.get_entity(id) {
        Some(entity) => match locations.get(&entity) {
            Some(l) => l.location,
            None => None,
        },
        None => None,
    }
}

/// The hovered entities of a pointer in a hover map, in iteration order.
pub open spec fn hover_entries(h: VecMap<PointerId, VecMap<Entity, HitData>>, p: PointerId) -> Seq<
    (Entity, HitData),
> {
    if h@.contains_key(p) {
        h@[p].entries()
    } else {
        Seq::empty()
    }
}

/// The move events of one input move: one for each entity the pointer hovers.
pub open spec fn move_events_of(m: InputMove, hits: Seq<(Entity, HitData)>) -> Seq<Pointer<Move>> {
    hits.map_values(
        |eh: (Entity, HitData)|
            Pointer {
                target: eh.0,
                pointer_id: m.pointer_id,
                pointer_location: m.location,
                event: Move { hit: eh.1, delta: m.delta },
            },
    )
}

/// The move events of the input moves, in order.
pub open spec fn move_events(moves: Seq<InputMove>, hover: VecMap<PointerId, VecMap<Entity, HitData>>) -> Seq<
    Pointer<Move>,
>
    decreases moves.len(),
{
    if moves.len() == 0 {
        Seq::empty()
    } else {
        move_events(moves.drop_last(), hover) + move_events_of(
            moves.last(),
            hover_entries(hover, moves.last().pointer_id),
        )
    }
}

/// The up events of one button release, at the pointer's location: one for each entity the
/// pointer hovered in the previous frame.
pub open spec fn up_events_of(p: InputPress, hits: Seq<(Entity, HitData)>, loc: Location) -> Seq<
    Pointer<Up>,
> {
    hits.map_values(
        |eh: (Entity, HitData)|
            Pointer {
                target: eh.0,
                pointer_id: p.pointer_id,
                pointer_location: loc,
                event: Up { button: p.button, hit: eh.1 },
            },
    )
}

/// The down events of one button press, at the pointer's location: one for each entity the
/// pointer hovers.
pub open spec fn down_events_of(p: InputPress, hits: Seq<(Entity, HitData)>, loc: Location) -> Seq<
    Pointer<Down>,
> {
    hits.map_values(
        |eh: (Entity, HitData)|
            Pointer {
                target: eh.0,
                pointer_id: p.pointer_id,
                pointer_location: loc,
                event: Down { button: p.button, hit: eh.1 },
            },
    )
}

/// The up events of the button releases, in order. A release of a pointer without a location
/// yields none.
pub open spec fn up_events(
    presses: Seq<InputPress>,
    previous: VecMap<PointerId, VecMap<Entity, HitData>>,
    pointer_map: Map<PointerId, Entity>,
    locations: Map<Entity, PointerLocation>,
) -> Seq<Pointer<Up>>
    decreases presses.len(),
{
    if presses.len() == 0 {
        Seq::empty()
    } else {
        let p = presses.last();
        let loc = spec_pointer_location(pointer_map, locations, p.pointer_id);
        up_events(presses.drop_last(), previous, pointer_map, locations) + if p.direction
            == PressDirection::Up && loc is Some {
            up_events_of(p, hover_entries(previous, p.pointer_id), loc.unwrap())
        } else {
            Seq::empty()
        }
    }
}

/// The down events of the button presses, in order. A press of a pointer without a location
/// yields none.
pub open spec fn down_events(
    presses: Seq<InputPress>,
    hover: VecMap<PointerId, VecMap<Entity, HitData>>,
    pointer_map: Map<PointerId, Entity>,
    locations: Map<Entity, PointerLocation>,
) -> Seq<Pointer<Down>>
    decreases presses.len(),
{
    if presses.len() == 0 {
        Seq::empty()
    } else {
        let p = presses.last();
        let loc = spec_pointer_location(pointer_map, locations, p.pointer_id);
        down_events(presses.drop_last(), hover, pointer_map, locations) + if p.direction
            == PressDirection::Down && loc is Some {
            down_events_of(p, hover_entries(hover, p.pointer_id), loc.unwrap())
        } else {
            Seq::empty()
        }
    }
}

/// The down event is the one that press `p` of a pointer at `loc` makes on a hovered entity with
/// its hit data `eh`: by the pointer, with the press's button.
pub open spec fn down_from(d: Pointer<Down>, p: InputPress, eh: (Entity, HitData), loc: Location) -> bool {
    &&& d.target == eh.0
    &&& d.event.hit == eh.1
    &&& d.pointer_id == p.pointer_id
    &&& d.event.button == p.button
    &&& d.pointer_location == loc
}

/// Some of the down events is the one that press `p` at `loc` makes on the entity of `eh`.
pub open spec fn down_reaches(downs: Seq<Pointer<Down>>, p: InputPress, eh: (Entity, HitData), loc: Location) -> bool {
    exists|j: int| 0 <= j < downs.len() && down_from(downs[j], p, eh, loc)
}

/// The down event is made by a press of a located pointer on an entity that pointer hovers.
pub open spec fn down_made(
    d: Pointer<Down>,
    presses: Seq<InputPress>,
    hover: VecMap<PointerId, VecMap<Entity, HitData>>,
    pointer_map: Map<PointerId, Entity>,
    locations: Map<Entity, PointerLocation>,
) -> bool {
    exists|i: int, k: int|
        0 <= i < presses.len() && presses[i].direction == PressDirection::Down && spec_pointer_location(
            pointer_map,
            locations,
            presses[i].pointer_id,
        ) == Some(d.pointer_location) && 0 <= k < hover_entries(hover, presses[i].pointer_id).len() && down_from(
            d,
            presses[i],
            hover_entries(hover, presses[i].pointer_id)[k],
            d.pointer_location,
        )
}

/// The down events of the presses: every one is made by a press of a located pointer on an
/// entity it hovers, with the press's button; and every press of a located pointer, whatever its
/// button, makes one on each entity the pointer hovers.
pub proof fn lemma_down_events(
    presses: Seq<InputPress>,
    hover: VecMap<PointerId, VecMap<Entity, HitData>>,
    pointer_map: Map<PointerId, Entity>,
    locations: Map<Entity, PointerLocation>,
)
    ensures
        forall|j: int|
            0 <= j < down_events(presses, hover, pointer_map, locations).len() ==> down_made(
                #[trigger] down_events(presses, hover, pointer_map, locations)[j],
                presses,
                hover,
                pointer_map,
                locations,
            ),
        forall|i: int, k: int|
            #![trigger presses[i], hover_entries(hover, presses[i].pointer_id)[k]]
            0 <= i < presses.len() && presses[i].direction == PressDirection::Down
                && spec_pointer_location(pointer_map, locations, presses[i].pointer_id) is Some && 0 <= k
                < hover_entries(hover, presses[i].pointer_id).len() ==> down_reaches(
                down_events(presses, hover, pointer_map, locations),
                presses[i],
                hover_entries(hover, presses[i].pointer_id)[k],
                spec_pointer_location(pointer_map, locations, presses[i].pointer_id).unwrap(),
            ),
    decreases presses.len(),
{
    if presses.len() > 0 {
        let t = presses.drop_last();
        let p = presses.last();
        let last = presses.len() - 1;
        assert(presses[last] == p);
        lemma_down_events(t, hover, pointer_map, locations);
        let r = down_events(presses, hover, pointer_map, locations);
        let r0 = down_events(t, hover, pointer_map, locations);
        let loc = spec_pointer_location(pointer_map, locations, p.pointer_id);
        let hits = hover_entries(hover, p.pointer_id);
        let extra = if p.direction == PressDirection::Down && loc is Some {
            down_events_of(p, hits, loc.unwrap())
        } else {
            Seq::empty()
        };
        assert(r == r0 + extra);
        assert forall|j: int| 0 <= j < r.len() implies down_made(#[trigger] r[j], presses, hover, pointer_map, locations) by {
            if j < r0.len() {
                assert(r[j] == r0[j]);
                assert(down_made(r0[j], t, hover, pointer_map, locations));
                let (i, k) = choose|i: int, k: int|
                    0 <= i < t.len() && t[i].direction == PressDirection::Down && spec_pointer_location(
                        pointer_map,
                        locations,
                        t[i].pointer_id,
                    ) == Some(r0[j].pointer_location) && 0 <= k < hover_entries(hover, t[i].pointer_id).len()
                        && down_from(r0[j], t[i], hover_entries(hover, t[i].pointer_id)[k], r0[j].pointer_location);
                assert(t[i] == presses[i]);
            } else {
                let k = j - r0.len();
                assert(r[j] == extra[k]);
                assert(down_from(r[j], presses[last], hover_entries(hover, presses[last].pointer_id)[k], r[j].pointer_location));
            }
        }
        assert forall|i: int, k: int|
            #![trigger presses[i], hover_entries(hover, presses[i].pointer_id)[k]]
            0 <= i < presses.len() && presses[i].direction == PressDirection::Down
                && spec_pointer_location(pointer_map, locations, presses[i].pointer_id) is Some && 0 <= k
                < hover_entries(hover, presses[i].pointer_id).len() implies down_reaches(
                r,
                presses[i],
                hover_entries(hover, presses[i].pointer_id)[k],
                spec_pointer_location(pointer_map, locations, presses[i].pointer_id).unwrap(),
            ) by {
            if i < last {
                assert(t[i] == presses[i]);
                assert(t[i].direction == PressDirection::Down);
                assert(spec_pointer_location(pointer_map, locations, t[i].pointer_id) is Some);
                assert(hover_entries(hover, t[i].pointer_id)[k] == hover_entries(hover, presses[i].pointer_id)[k]);
                let eh = hover_entries(hover, t[i].pointer_id)[k];
                let l = spec_pointer_location(pointer_map, locations, t[i].pointer_id).unwrap();
                assert(down_reaches(r0, t[i], eh, l));
                let j = choose|j: int| 0 <= j < r0.len() && down_from(r0[j], t[i], eh, l);
                assert(r[j] == r0[j]);
            } else {
                assert(i == last);
                assert(extra == down_events_of(p, hits, loc.unwrap()));
                assert(r[r0.len() + k] == extra[k]);
                assert(down_from(r[r0.len() + k], presses[i], hits[k], loc.unwrap()));
            }
        }
    }
}

/// The up event is the one that release `p` of a pointer at `loc` makes on an entity it hovered
/// in the previous frame, with its hit data `eh`: by the pointer, with the release's button.
pub open spec fn up_from(d: Pointer<Up>, p: InputPress, eh: (Entity, HitData), loc: Location) -> bool {
    &&& d.target == eh.0
    &&& d.event.hit == eh.1
    &&& d.pointer_id == p.pointer_id
    &&& d.event.button == p.button
    &&& d.pointer_location == loc
}

/// Some of the up events is the one that release `p` at `loc` makes on the entity of `eh`.
pub open spec fn up_reaches(downs: Seq<Pointer<Up>>, p: InputPress, eh: (Entity, HitData), loc: Location) -> bool {
    exists|j: int| 0 <= j < downs.len() && up_from(downs[j], p, eh, loc)
}

/// The up event is made by a release of a located pointer on an entity that pointer hovered in
/// the previous frame.
pub open spec fn up_made(
    d: Pointer<Up>,
    presses: Seq<InputPress>,
    hover: VecMap<PointerId, VecMap<Entity, HitData>>,
    pointer_map: Map<PointerId, Entity>,
    locations: Map<Entity, PointerLocation>,
) -> bool {
    exists|i: int, k: int|
        0 <= i < presses.len() && presses[i].direction == PressDirection::Up && spec_pointer_location(
            pointer_map,
            locations,
            presses[i].pointer_id,
        ) == Some(d.pointer_location) && 0 <= k < hover_entries(hover, presses[i].pointer_id).len() && up_from(
            d,
            presses[i],
            hover_entries(hover, presses[i].pointer_id)[k],
            d.pointer_location,
        )
}

/// The up events of the presses: every one is made by a release of a located pointer on an
/// entity it hovered in the previous frame, with the release's button; and every release of a
/// located pointer, whatever its button, makes one on each entity the pointer hovered then.
pub proof fn lemma_up_events(
    presses: Seq<InputPress>,
    hover: VecMap<PointerId, VecMap<Entity, HitData>>,
    pointer_map: Map<PointerId, Entity>,
    locations: Map<Entity, PointerLocation>,
)
    ensures
        forall|j: int|
            0 <= j < up_events(presses, hover, pointer_map, locations).len() ==> up_made(
                #[trigger] up_events(presses, hover, pointer_map, locations)[j],
                presses,
                hover,
                pointer_map,
                locations,
            ),
        forall|i: int, k: int|
            #![trigger presses[i], hover_entries(hover, presses[i].pointer_id)[k]]
            0 <= i < presses.len() && presses[i].direction == PressDirection::Up
                && spec_pointer_location(pointer_map, locations, presses[i].pointer_id) is Some && 0 <= k
                < hover_entries(hover, presses[i].pointer_id).len() ==> up_reaches(
                up_events(presses, hover, pointer_map, locations),
                presses[i],
                hover_entries(hover, presses[i].pointer_id)[k],
                spec_pointer_location(pointer_map, locations, presses[i].pointer_id).unwrap(),
            ),
    decreases presses.len(),
{
    if presses.len() > 0 {
        let t = presses.drop_last();
        let p = presses.last();
        let last = presses.len() - 1;
        assert(presses[last] == p);
        lemma_up_events(t, hover, pointer_map, locations);
        let r = up_events(presses, hover, pointer_map, locations);
        let r0 = up_events(t, hover, pointer_map, locations);
        let loc = spec_pointer_location(pointer_map, locations, p.pointer_id);
        let hits = hover_entries(hover, p.pointer_id);
        let extra = if p.direction == PressDirection::Up && loc is Some {
            up_events_of(p, hits, loc.unwrap())
        } else {
            Seq::empty()
        };
        assert(r == r0 + extra);
        assert forall|j: int| 0 <= j < r.len() implies up_made(#[trigger] r[j], presses, hover, pointer_map, locations) by {
            if j < r0.len() {
                assert(r[j] == r0[j]);
                assert(up_made(r0[j], t, hover, pointer_map, locations));
                let (i, k) = choose|i: int, k: int|
                    0 <= i < t.len() && t[i].direction == PressDirection::Up && spec_pointer_location(
                        pointer_map,
                        locations,
                        t[i].pointer_id,
                    ) == Some(r0[j].pointer_location) && 0 <= k < hover_entries(hover, t[i].pointer_id).len()
                        && up_from(r0[j], t[i], hover_entries(hover, t[i].pointer_id)[k], r0[j].pointer_location);
                assert(t[i] == presses[i]);
            } else {
                let k = j - r0.len();
                assert(r[j] == extra[k]);
                assert(up_from(r[j], presses[last], hover_entries(hover, presses[last].pointer_id)[k], r[j].pointer_location));
            }
        }
        assert forall|i: int, k: int|
            #![trigger presses[i], hover_entries(hover, presses[i].pointer_id)[k]]
            0 <= i < presses.len() && presses[i].direction == PressDirection::Up
                && spec_pointer_location(pointer_map, locations, presses[i].pointer_id) is Some && 0 <= k
                < hover_entries(hover, presses[i].pointer_id).len() implies up_reaches(
                r,
                presses[i],
                hover_entries(hover, presses[i].pointer_id)[k],
                spec_pointer_location(pointer_map, locations, presses[i].pointer_id).unwrap(),
            ) by {
            if i < last {
                assert(t[i] == presses[i]);
                assert(t[i].direction == PressDirection::Up);
                assert(spec_pointer_location(pointer_map, locations, t[i].pointer_id) is Some);
                assert(hover_entries(hover, t[i].pointer_id)[k] == hover_entries(hover, presses[i].pointer_id)[k]);
                let eh = hover_entries(hover, t[i].pointer_id)[k];
                let l = spec_pointer_location(pointer_map, locations, t[i].pointer_id).unwrap();
                assert(up_reaches(r0, t[i], eh, l));
                let j = choose|j: int| 0 <= j < r0.len() && up_from(r0[j], t[i], eh, l);
                assert(r[j] == r0[j]);
            } else {
                assert(i == last);
                assert(extra == up_events_of(p, hits, loc.unwrap()));
                assert(r[r0.len() + k] == extra[k]);
                assert(up_from(r[r0.len() + k], presses[i], hits[k], loc.unwrap()));
            }
        }
    }
}

/// The over events of one pointer: its hovered entities that it did not hover before, if the
/// pointer has a location.
pub open spec fn over_events_of(
    p: PointerId,
    hits: Seq<(Entity, HitData)>,
    before: Map<PointerId, Map<Entity, HitData>>,
    loc: Option<Location>,
) -> Seq<Pointer<Over>>
    decreases hits.len(),
{
    if hits.len() == 0 {
        Seq::empty()
    } else {
        let rest = over_events_of(p, hits.drop_last(), before, loc);
        let (e, hit) = hits.last();
        if !hovers(before, p, e) && loc is Some {
            rest.push(
                Pointer { target: e, pointer_id: p, pointer_location: loc.unwrap(), event: Over { hit } },
            )
        } else {
            rest
        }
    }
}

/// The over events of all pointers of the hover map, in its iteration order.
pub open spec fn over_events(
    current: Seq<(PointerId, VecMap<Entity, HitData>)>,
    before: Map<PointerId, Map<Entity, HitData>>,
    pointer_map: Map<PointerId, Entity>,
    locations: Map<Entity, PointerLocation>,
) -> Seq<Pointer<Over>>
    decreases current.len(),
{
    if current.len() == 0 {
        Seq::empty()
    } else {
        let (p, set) = current.last();
        over_events(current.drop_last(), before, pointer_map, locations) + over_events_of(
            p,
            set.entries(),
            before,
            spec_pointer_location(pointer_map, locations, p),
        )
    }
}

/// The out events of one pointer: the entities it hovered before and no longer hovers, if the
/// pointer has a location.
pub open spec fn out_events_of(
    p: PointerId,
    hits: Seq<(Entity, HitData)>,
    now: Map<PointerId, Map<Entity, HitData>>,
    loc: Option<Location>,
) -> Seq<Pointer<Out>>
    decreases hits.len(),
{
    if hits.len() == 0 {
        Seq::empty()
    } else {
        let rest = out_events_of(p, hits.drop_last(), now, loc);
        let (e, hit) = hits.last();
        if !hovers(now, p, e) && loc is Some {
            rest.push(
                Pointer { target: e, pointer_id: p, pointer_location: loc.unwrap(), event: Out { hit } },
            )
        } else {
            rest
        }
    }
}

/// The out events of all pointers of the previous hover map, in its iteration order.
pub open spec fn out_events(
    previous: Seq<(PointerId, VecMap<Entity, HitData>)>,
    now: Map<PointerId, Map<Entity, HitData>>,
    pointer_map: Map<PointerId, Entity>,
    locations: Map<Entity, PointerLocation>,
) -> Seq<Pointer<Out>>
    decreases previous.len(),
{
    if previous.len() == 0 {
        Seq::empty()
    } else {
        let (p, set) = previous.last();
        out_events(previous.drop_last(), now, pointer_map, locations) + out_events_of(
            p,
            set.entries(),
            now,
            spec_pointer_location(pointer_map, locations, p),
        )
    }
}

/// Over events of hits that were all hovered before are none.
proof fn lemma_no_over_of_hovered(
    p: PointerId,
    hits: Seq<(Entity, HitData)>,
    before: Map<PointerId, Map<Entity, HitData>>,
    loc: Option<Location>,
)
    requires
        forall|i: int| 0 <= i < hits.len() ==> #[trigger] hovers(before, p, hits[i].0),
    ensures
        over_events_of(p, hits, before, loc) == Seq::<Pointer<Over>>::empty(),
    decreases hits.len(),
{
    if hits.len() > 0 {
        assert(hovers(before, p, hits[hits.len() - 1].0));
        lemma_no_over_of_hovered(p, hits.drop_last(), before, loc);
    }
}

/// Out events of hits that are all still hovered are none.
proof fn lemma_no_out_of_hovered(
    p: PointerId,
    hits: Seq<(Entity, HitData)>,
    now: Map<PointerId, Map<Entity, HitData>>,
    loc: Option<Location>,
)
    requires
        forall|i: int| 0 <= i < hits.len() ==> #[trigger] hovers(now, p, hits[i].0),
    ensures
        out_events_of(p, hits, now, loc) == Seq::<Pointer<Out>>::empty(),
    decreases hits.len(),
{
    if hits.len() > 0 {
        assert(hovers(now, p, hits[hits.len() - 1].0));
        lemma_no_out_of_hovered(p, hits.drop_last(), now, loc);
    }
}

/// Every entity listed for a pointer of a well-formed hover map is hovered by it.
proof fn lemma_entries_hovered(h: VecMap<PointerId, VecMap<Entity, HitData>>, k: int, i: int)
    requires
        nested_wf(h),
        0 <= k < h.entries().len(),
        0 <= i < h.entries()[k].1.entries().len(),
    ensures
        hovers(nested_view(h), h.entries()[k].0, h.entries()[k].1.entries()[i].0),
{
    let (p, set) = h.entries()[k];
    h.lemma_view();
    lemma_entries_to_map_index(h.entries(), k);
    assert(h@[p] == set);
    set.lemma_view();
    lemma_entries_to_map_dom(set.entries(), set.entries()[i].0);
}

/// A frame whose hovered entities are those of the previous frame sends no over event and no out
/// event: over and out only report changes of hover.
pub proof fn lemma_steady_hover_sends_no_over_or_out(
    h: VecMap<PointerId, VecMap<Entity, HitData>>,
    pointer_map: Map<PointerId, Entity>,
    locations: Map<Entity, PointerLocation>,
)
    requires
        nested_wf(h),
    ensures
        over_events(h.entries(), nested_view(h), pointer_map, locations) == Seq::<Pointer<Over>>::empty(),
        out_events(h.entries(), nested_view(h), pointer_map, locations) == Seq::<Pointer<Out>>::empty(),
{
    lemma_steady_prefix(h, pointer_map, locations, h.entries().len() as int);
    assert(h.entries().take(h.entries().len() as int) =~= h.entries());
}

proof fn lemma_steady_prefix(
    h: VecMap<PointerId, VecMap<Entity, HitData>>,
    pointer_map: Map<PointerId, Entity>,
    locations: Map<Entity, PointerLocation>,
    n: int,
)
    requires
        nested_wf(h),
        0 <= n <= h.entries().len(),
    ensures
        over_events(h.entries().take(n), nested_view(h), pointer_map, locations) == Seq::<Pointer<Over>>::empty(),
        out_events(h.entries().take(n), nested_view(h), pointer_map, locations) == Seq::<Pointer<Out>>::empty(),
    decreases n,
{
    if n > 0 {
        let t = h.entries().take(n);
        assert(t.drop_last() =~= h.entries().take(n - 1));
        lemma_steady_prefix(h, pointer_map, locations, n - 1);
        let (p, set) = t.last();
        assert(t.last() == h.entries()[n - 1]);
        assert forall|i: int| 0 <= i < set.entries().len() implies #[trigger] hovers(
            nested_view(h),
            p,
            set.entries()[i].0,
        ) by {
            lemma_entries_hovered(h, n - 1, i);
        }
        let loc = spec_pointer_location(pointer_map, locations, p);
        lemma_no_over_of_hovered(p, set.entries(), nested_view(h), loc);
        lemma_no_out_of_hovered(p, set.entries(), nested_view(h), loc);
        assert(Seq::<Pointer<Over>>::empty() + Seq::<Pointer<Over>>::empty() =~= Seq::<Pointer<Over>>::empty());
        assert(Seq::<Pointer<Out>>::empty() + Seq::<Pointer<Out>>::empty() =~= Seq::<Pointer<Out>>::empty());
    }
}

/// The events generated by [`pointer_events`].
pub struct PointerEvents {
    pub moves: Vec<Pointer<Move>>,
    pub overs: Vec<Pointer<Over>>,
    pub outs: Vec<Pointer<Out>>,
    pub ups: Vec<Pointer<Up>>,
    pub downs: Vec<Pointer<Down>>,
}

fn hits_of(h: &VecMap<PointerId, VecMap<Entity, HitData>>, p: &PointerId) -> (r: Vec<(Entity, HitData)>)
    requires
        nested_wf(*h),
    ensures
        r@ == hover_entries(*h, *p),
{
    match h.get(p) {
        Some(set) => set.to_vec(),
        None => Vec::new(),
    }
}

/// Generates pointer events from input data and the hover maps.
///
/// - Each input move yields a move event for every entity its pointer hovers.
/// - Each button release yields an up event for every entity its pointer hovered in the previous
///   frame, so that a touch lifted off an entity still releases it; each press yields a down event
///   for every entity its pointer hovers.
/// - Each entity a pointer hovers but did not hover before yields an over event, and each entity it
///   hovered before and no longer hovers yields an out event.
///
/// Up, down, over and out events carry the pointer's current location, and are not sent for a
/// pointer without one.
pub fn pointer_events(
    input_presses: &Vec<InputPress>,
    input_moves: &Vec<InputMove>,
    pointer_map: &PointerMap,
    pointers: &VecMap<Entity, PointerLocation>,
    hover_map: &HoverMap,
    previous_hover_map: &PreviousHoverMap,
) -> (out: PointerEvents)
    requires
        pointers.wf(),
        nested_wf(hover_map.0),
        nested_wf(previous_hover_map.0),
    ensures
        out.moves@ == move_events(input_moves@, hover_map.0),
        out.ups@ == up_events(input_presses@, previous_hover_map.0, pointer_map@, pointers@),
        out.downs@ == down_events(input_presses@, hover_map.0, pointer_map@, pointers@),
        out.overs@ == over_events(
            hover_map.0.entries(),
            previous_hover_map.spec_view(),
            pointer_map@,
            pointers@,
        ),
        out.outs@ == out_events(
            previous_hover_map.0.entries(),
            hover_map.spec_view(),
            pointer_map@,
            pointers@,
        ),
{
    let mut moves: Vec<Pointer<Move>> = Vec::new();
    let mut i: usize = 0;
    while i < input_moves.len()
        invariant
            i <= input_moves@.len(),
            nested_wf(hover_map.0),
            moves@ == move_events(input_moves@.take(i as int), hover_map.0),
        decreases input_moves@.len() - i,
    {
        let m = input_moves[i];
        let hits = hits_of(&hover_map.0, &m.pointer_id);
        let ghost before = moves@;
        let mut j: usize = 0;
        while j < hits.len()
            invariant
                j <= hits@.len(),
                moves@ == before + move_events_of(m, hits@.take(j as int)),
            decreases hits@.len() - j,
        {
            let (e, hit) = hits[j];
            moves.push(Pointer::new(m.pointer_id, m.location, e, Move { hit, delta: m.delta }));
            proof {
                assert(move_events_of(m, hits@.take(j + 1)) =~= move_events_of(
                    m,
                    hits@.take(j as int),
                ).push(moves@.last()));
            }
            j = j + 1;
        }
        proof {
            assert(hits@.take(hits@.len() as int) =~= hits@);
            assert(input_moves@.take(i + 1).drop_last() =~= input_moves@.take(i as int));
        }
        i = i + 1;
    }
    proof {
        assert(input_moves@.take(input_moves@.len() as int) =~= input_moves@);
    }
    let mut ups: Vec<Pointer<Up>> = Vec::new();
    let mut downs: Vec<Pointer<Down>> = Vec::new();
    let mut i: usize = 0;
    while i < input_presses.len()
        invariant
            i <= input_presses@.len(),
            nested_wf(hover_map.0),
            nested_wf(previous_hover_map.0),
            pointers.wf(),
            ups@ == up_events(
                input_presses@.take(i as int),
                previous_hover_map.0,
                pointer_map@,
                pointers@,
            ),
            downs@ == down_events(
                input_presses@.take(i as int),
                hover_map.0,
                pointer_map@,
                pointers@,
            ),
        decreases input_presses@.len() - i,
    {
        let p = input_presses[i];
        let loc = pointer_location(pointer_map, pointers, p.pointer_id);
        proof {
            assert(input_presses@.take(i + 1).drop_last() =~= input_presses@.take(i as int));
        }
        match loc {
            Some(l) => {
                if p.direction == PressDirection::Up {
                    let hits = hits_of(&previous_hover_map.0, &p.pointer_id);
                    let ghost before = ups@;
                    let mut j: usize = 0;
                    while j < hits.len()
                        invariant
                            j <= hits@.len(),
                            ups@ == before + up_events_of(p, hits@.take(j as int), l),
                        decreases hits@.len() - j,
                    {
                        let (e, hit) = hits[j];
                        ups.push(Pointer::new(p.pointer_id, l, e, Up { button: p.button, hit }));
                        proof {
                            assert(up_events_of(p, hits@.take(j + 1), l) =~= up_events_of(
                                p,
                                hits@.take(j as int),
                                l,
                            ).push(ups@.last()));
                        }
                        j = j + 1;
                    }
                    proof {
                        assert(hits@.take(hits@.len() as int) =~= hits@);
                        assert(Seq::<Pointer<Down>>::empty() + down_events(
                            input_presses@.take(i as int),
                            hover_map.0,
                            pointer_map@,
                            pointers@,
                        ) =~= down_events(
                            input_presses@.take(i as int),
                            hover_map.0,
                            pointer_map@,
                            pointers@,
                        ));
                        assert(downs@ + Seq::<Pointer<Down>>::empty() =~= downs@);
                    }
                } else {
                    let hits = hits_of(&hover_map.0, &p.pointer_id);
                    let ghost before = downs@;
                    let mut j: usize = 0;
                    while j < hits.len()
                        invariant
                            j <= hits@.len(),
                            downs@ == before + down_events_of(p, hits@.take(j as int), l),
                        decreases hits@.len() - j,
                    {
                        let (e, hit) = hits[j];
                        downs.push(Pointer::new(p.pointer_id, l, e, Down { button: p.button, hit }));
                        proof {
                            assert(down_events_of(p, hits@.take(j + 1), l) =~= down_events_of(
                                p,
                                hits@.take(j as int),
                                l,
                            ).push(downs@.last()));
                        }
                        j = j + 1;
                    }
                    proof {
                        assert(hits@.take(hits@.len() as int) =~= hits@);
                        assert(ups@ + Seq::<Pointer<Up>>::empty() =~= ups@);
                    }
                }
            },
            None => {
                proof {
                    assert(ups@ + Seq::<Pointer<Up>>::empty() =~= ups@);
                    assert(downs@ + Seq::<Pointer<Down>>::empty() =~= downs@);
                }
            },
        }
        i = i + 1;
    }
    proof {
        assert(input_presses@.take(input_presses@.len() as int) =~= input_presses@);
    }
    let ghost before_view = previous_hover_map.spec_view();
    let mut overs: Vec<Pointer<Over>> = Vec::new();
    let mut i: usize = 0;
    while i < hover_map.0.len()
        invariant
            i <= hover_map.0.entries().len(),
            nested_wf(hover_map.0),
            nested_wf(previous_hover_map.0),
            before_view == previous_hover_map.spec_view(),
            pointers.wf(),
            overs@ == over_events(
                hover_map.0.entries().take(i as int),
                before_view,
                pointer_map@,
                pointers@,
            ),
        decreases hover_map.0.entries().len() - i,
    {
        let entry = hover_map.0.entry_at(i);
        let p = entry.0;
        let set = &entry.1;
        let loc = pointer_location(pointer_map, pointers, p);
        let ghost before = overs@;
        let mut j: usize = 0;
        while j < set.len()
            invariant
                j <= set.entries().len(),
                nested_wf(previous_hover_map.0),
                before_view == previous_hover_map.spec_view(),
                overs@ == before + over_events_of(p, set.entries().take(j as int), before_view, loc),
            decreases set.entries().len() - j,
        {
            let (e, hit) = *set.entry_at(j);
            let was_hovered = match previous_hover_map.0.get(&p) {
                Some(prev_set) => prev_set.contains_key(&e),
                None => false,
            };
            proof {
                assert(set.entries().take(j + 1).drop_last() =~= set.entries().take(j as int));
                assert(set.entries().take(j + 1).last() == (e, hit));
                assert(was_hovered == hovers(before_view, p, e));
            }
            if !was_hovered {
                match loc {
                    Some(l) => {
                        overs.push(Pointer::new(p, l, e, Over { hit }));
                    },
                    None => {},
                }
            }
            j = j + 1;
        }
        proof {
            assert(set.entries().take(set.entries().len() as int) =~= set.entries());
            assert(hover_map.0.entries().take(i + 1).drop_last() =~= hover_map.0.entries().take(
                i as int,
            ));
            assert(hover_map.0.entries().take(i + 1).last() == hover_map.0.entries()[i as int]);
        }
        i = i + 1;
    }
    proof {
        assert(hover_map.0.entries().take(hover_map.0.entries().len() as int)
            =~= hover_map.0.entries());
    }
    let ghost now_view = hover_map.spec_view();
    let mut outs: Vec<Pointer<Out>> = Vec::new();
    let mut i: usize = 0;
    while i < previous_hover_map.0.len()
        invariant
            i <= previous_hover_map.0.entries().len(),
            nested_wf(hover_map.0),
            nested_wf(previous_hover_map.0),
            now_view == hover_map.spec_view(),
            pointers.wf(),
            outs@ == out_events(
                previous_hover_map.0.entries().take(i as int),
                now_view,
                pointer_map@,
                pointers@,
            ),
        decreases previous_hover_map.0.entries().len() - i,
    {
        let entry = previous_hover_map.0.entry_at(i);
        let p = entry.0;
        let set = &entry.1;
        let loc = pointer_location(pointer_map, pointers, p);
        let ghost before = outs@;
        let mut j: usize = 0;
        while j < set.len()
            invariant
                j <= set.entries().len(),
                nested_wf(hover_map.0),
                now_view == hover_map.spec_view(),
                outs@ == before + out_events_of(p, set.entries().take(j as int), now_view, loc),
            decreases set.entries().len() - j,
        {
            let (e, hit) = *set.entry_at(j);
            let is_hovered = match hover_map.0.get(&p) {
                Some(now_set) => now_set.contains_key(&e),
                None => false,
            };
            proof {
                assert(set.entries().take(j + 1).drop_last() =~= set.entries().take(j as int));
                assert(set.entries().take(j + 1).last() == (e, hit));
                assert(is_hovered == hovers(now_view, p, e));
            }
            if !is_hovered {
                match loc {
                    Some(l) => {
                        outs.push(Pointer::new(p, l, e, Out { hit }));
                    },
                    None => {},
                }
            }
            j = j + 1;
        }
        proof {
            assert(set.entries().take(set.entries().len() as int) =~= set.entries());
            assert(previous_hover_map.0.entries().take(i + 1).drop_last()
                =~= previous_hover_map.0.entries().take(i as int));
            assert(previous_hover_map.0.entries().take(i + 1).last()
                == previous_hover_map.0.entries()[i as int]);
        }
        i = i + 1;
    }
    proof {
        assert(previous_hover_map.0.entries().take(previous_hover_map.0.entries().len() as int)
            =~= previous_hover_map.0.entries());
    }
    PointerEvents { moves, overs, outs, ups, downs }
}

/// Identifies what a pointer button is doing to an entity: the pointer, the button, and the entity.
#[derive(Clone, Copy, PartialEq, Eq, Structural, Debug, Hash)]
pub struct ButtonKey {
    pub pointer_id: PointerId,
    pub button: PointerButton,
    pub entity: Entity,
}

impl MapKey for ButtonKey {
    fn key_eq(&self, other: &Self) -> (b: bool) {
        *self == *other
    }
}

/// An entry in the [`DragMap`].
#[derive(Clone, Copy, PartialEq, Eq, Structural, Debug)]
pub struct DragEntry {
    /// The bit patterns of the position of the pointer at drag start.
    pub start_pos: Vec2Bits,
    /// The bit patterns of the latest position of the pointer during this drag.
    pub latest_pos: Vec2Bits,
}

/// Maps (pointer, button, entity) to the drag of that entity by that pointer button.
pub struct DragMap(pub VecMap<ButtonKey, DragEntry>);

/// Maps (pointer, button, entity) to the down event of that pointer button on that entity, while
/// the button has not been released.
pub type DownMap = VecMap<ButtonKey, Pointer<Down>>;

/// The entries of a drag map.
pub type DragEntries = Seq<(ButtonKey, DragEntry)>;

/// The entries of a down map.
pub type DownEntries = Seq<(ButtonKey, Pointer<Down>)>;

/// The entry belongs to pointer `p` and button `b`.
pub open spec fn in_group(k: ButtonKey, p: PointerId, b: PointerButton) -> bool {
    k.pointer_id == p && k.button == b
}

/// On a move of pointer `p`, each down of button `b` on an entity that is not being dragged by
/// `p` and `b` starts a drag of it, from the position of the down event. Returns the drags and the
/// drag start events.
pub open spec fn start_drags(drags: DragEntries, downs: DownEntries, p: PointerId, b: PointerButton) -> (
    DragEntries,
    Seq<Pointer<DragStart>>,
)
    decreases downs.len(),
{
    if downs.len() == 0 {
        (drags, Seq::empty())
    } else {
        let (d1, s1) = start_drags(drags, downs.drop_last(), p, b);
        let (k, d) = downs.last();
        let key = ButtonKey { pointer_id: p, button: b, entity: d.target };
        if in_group(k, p, b) && key_position(d1, key) < 0 {
            (
                d1.push(
                    (
                        key,
                        DragEntry {
                            start_pos: d.pointer_location.position,
                            latest_pos: d.pointer_location.position,
                        },
                    ),
                ),
                s1.push(
                    Pointer {
                        target: d.target,
                        pointer_id: p,
                        pointer_location: d.pointer_location,
                        event: DragStart { button: b, hit: d.event.hit },
                    },
                ),
            )
        } else {
            (d1, s1)
        }
    }
}

/// A drag event at `loc` for every entity that pointer `p` drags with button `b`.
pub open spec fn drag_events(drags: DragEntries, p: PointerId, b: PointerButton, loc: Location) -> Seq<
    Pointer<Drag>,
>
    decreases drags.len(),
{
    if drags.len() == 0 {
        Seq::empty()
    } else {
        let before = drag_events(drags.drop_last(), p, b, loc);
        let (k, e) = drags.last();
        if in_group(k, p, b) {
            before.push(
                Pointer {
                    target: k.entity,
                    pointer_id: p,
                    pointer_location: loc,
                    event: Drag { button: b, start_pos: e.start_pos, previous_pos: e.latest_pos },
                },
            )
        } else {
            before
        }
    }
}

/// The drags of pointer `p` with button `b` move to `pos`.
pub open spec fn advance_drags(drags: DragEntries, p: PointerId, b: PointerButton, pos: Vec2Bits) -> DragEntries {
    drags.map_values(
        |ke: (ButtonKey, DragEntry)|
            if in_group(ke.0, p, b) {
                (ke.0, DragEntry { start_pos: ke.1.start_pos, latest_pos: pos })
            } else {
                ke
            },
    )
}

/// One input move, for the buttons `bs` in order: drags start, then every drag of the pointer with
/// that button sends a drag event and moves to the new position.
pub open spec fn move_buttons(drags: DragEntries, downs: DownEntries, m: InputMove, bs: Seq<PointerButton>) -> (
    DragEntries,
    Seq<Pointer<DragStart>>,
    Seq<Pointer<Drag>>,
)
    decreases bs.len(),
{
    if bs.len() == 0 {
        (drags, Seq::empty(), Seq::empty())
    } else {
        let (d0, s0, e0) = move_buttons(drags, downs, m, bs.drop_last());
        let b = bs.last();
        let (d1, s1) = start_drags(d0, downs, m.pointer_id, b);
        (
            advance_drags(d1, m.pointer_id, b, m.location.position),
            s0 + s1,
            e0 + drag_events(d1, m.pointer_id, b, m.location),
        )
    }
}

/// The three pointer buttons in order.
pub open spec fn all_buttons() -> Seq<PointerButton> {
    seq![PointerButton::Primary, PointerButton::Secondary, PointerButton::Middle]
}

/// The input moves in order, each for all buttons.
pub open spec fn move_phase(drags: DragEntries, downs: DownEntries, moves: Seq<InputMove>) -> (
    DragEntries,
    Seq<Pointer<DragStart>>,
    Seq<Pointer<Drag>>,
)
    decreases moves.len(),
{
    if moves.len() == 0 {
        (drags, Seq::empty(), Seq::empty())
    } else {
        let (d0, s0, e0) = move_phase(drags, downs, moves.drop_last());
        let (d1, s1, e1) = move_buttons(d0, downs, moves.last(), all_buttons());
        (d1, s0 + s1, e0 + e1)
    }
}

/// A click for every up event on an entity that the same pointer button is down on.
pub open spec fn click_events(ups: Seq<Pointer<Up>>, downs: Map<ButtonKey, Pointer<Down>>) -> Seq<
    Pointer<Click>,
>
    decreases ups.len(),
{
    if ups.len() == 0 {
        Seq::empty()
    } else {
        let before = click_events(ups.drop_last(), downs);
        let u = ups.last();
        if downs.contains_key(ButtonKey { pointer_id: u.pointer_id, button: u.event.button, entity: u.target }) {
            before.push(
                Pointer {
                    target: u.target,
                    pointer_id: u.pointer_id,
                    pointer_location: u.pointer_location,
                    event: Click { button: u.event.button, hit: u.event.hit },
                },
            )
        } else {
            before
        }
    }
}

/// Every down event is recorded under its pointer, button and target, replacing an earlier one.
pub open spec fn record_downs(downs: DownEntries, events: Seq<Pointer<Down>>) -> DownEntries
    decreases events.len(),
{
    if events.len() == 0 {
        downs
    } else {
        let d = events.last();
        entries_insert(
            record_downs(downs, events.drop_last()),
            ButtonKey { pointer_id: d.pointer_id, button: d.event.button, entity: d.target },
            d,
        )
    }
}

/// The entries that do not belong to pointer `p` and button `b`, in order.
pub open spec fn without_group<V>(s: Seq<(ButtonKey, V)>, p: PointerId, b: PointerButton) -> Seq<(ButtonKey, V)>
    decreases s.len(),
{
    if s.len() == 0 {
        Seq::empty()
    } else {
        let before = without_group(s.drop_last(), p, b);
        if in_group(s.last().0, p, b) {
            before
        } else {
            before.push(s.last())
        }
    }
}

/// A drag end event at `loc` for every entity that pointer `p` drags with button `b`.
pub open spec fn drag_end_events(drags: DragEntries, p: PointerId, b: PointerButton, loc: Location) -> Seq<
    Pointer<DragEnd>,
>
    decreases drags.len(),
{
    if drags.len() == 0 {
        Seq::empty()
    } else {
        let before = drag_end_events(drags.drop_last(), p, b, loc);
        let (k, e) = drags.last();
        if in_group(k, p, b) {
            before.push(
                Pointer {
                    target: k.entity,
                    pointer_id: p,
                    pointer_location: loc,
                    event: DragEnd { button: b, start_pos: e.start_pos, latest_pos: e.latest_pos },
                },
            )
        } else {
            before
        }
    }
}

/// The button releases in order: each forgets the downs and drags of its pointer and button, and
/// ends those drags at the pointer's location (none if the pointer has no location).
pub open spec fn release_phase(
    downs: DownEntries,
    drags: DragEntries,
    presses: Seq<InputPress>,
    pointer_map: Map<PointerId, Entity>,
    locations: Map<Entity, PointerLocation>,
) -> (DownEntries, DragEntries, Seq<Pointer<DragEnd>>)
    decreases presses.len(),
{
    if presses.len() == 0 {
        (downs, drags, Seq::empty())
    } else {
        let (w0, d0, e0) = release_phase(downs, drags, presses.drop_last(), pointer_map, locations);
        let pr = presses.last();
        if pr.direction == PressDirection::Up {
            let loc = spec_pointer_location(pointer_map, locations, pr.pointer_id);
            (
                without_group(w0, pr.pointer_id, pr.button),
                without_group(d0, pr.pointer_id, pr.button),
                e0 + if loc is Some {
                    drag_end_events(d0, pr.pointer_id, pr.button, loc.unwrap())
                } else {
                    Seq::empty()
                },
            )
        } else {
            (w0, d0, e0)
        }
    }
}

/// No entry of the sequence belongs to pointer `p` and button `b`.
pub open spec fn group_absent<V>(s: Seq<(ButtonKey, V)>, p: PointerId, b: PointerButton) -> bool {
    forall|k: int| 0 <= k < s.len() ==> !in_group(#[trigger] s[k].0, p, b)
}

/// Removing any group keeps a group absent, and removing a group makes it absent.
proof fn lemma_without_group_absent<V>(s: Seq<(ButtonKey, V)>, p: PointerId, b: PointerButton, q: PointerId, c: PointerButton)
    requires
        group_absent(s, p, b) || (q == p && c == b),
    ensures
        group_absent(without_group(s, q, c), p, b),
{
    lemma_without_group(s, q, c);
    let w = without_group(s, q, c);
    assert forall|k: int| 0 <= k < w.len() implies !in_group(#[trigger] w[k].0, p, b) by {
        assert(!in_group(without_group(s, q, c)[k].0, q, c));
        assert(exists|j: int| 0 <= j < s.len() && s[j] == without_group(s, q, c)[k]);
        let j = choose|j: int| 0 <= j < s.len() && s[j] == w[k];
        if !(q == p && c == b) {
            assert(!in_group(s[j].0, p, b));
        }
    }
}

/// Releasing a button forgets it: once pointer `p` has released button `b` among the presses of
/// a frame, no down and no drag of that pointer button remains at the end of the frame.
pub proof fn lemma_release_forgets_button(
    downs: DownEntries,
    drags: DragEntries,
    presses: Seq<InputPress>,
    pointer_map: Map<PointerId, Entity>,
    locations: Map<Entity, PointerLocation>,
    p: PointerId,
    b: PointerButton,
)
    requires
        exists|i: int|
            0 <= i < presses.len() && #[trigger] presses[i].direction == PressDirection::Up
                && presses[i].pointer_id == p && presses[i].button == b,
    ensures
        group_absent(release_phase(downs, drags, presses, pointer_map, locations).0, p, b),
        group_absent(release_phase(downs, drags, presses, pointer_map, locations).1, p, b),
    decreases presses.len(),
{
    let t = presses.drop_last();
    let pr = presses.last();
    let (w0, d0, e0) = release_phase(downs, drags, t, pointer_map, locations);
    let here = pr.direction == PressDirection::Up && pr.pointer_id == p && pr.button == b;
    if !here {
        let i = choose|i: int|
            0 <= i < presses.len() && #[trigger] presses[i].direction == PressDirection::Up
                && presses[i].pointer_id == p && presses[i].button == b;
        assert(i < t.len());
        assert(t[i] == presses[i]);
        lemma_release_forgets_button(downs, drags, t, pointer_map, locations, p, b);
    }
    if pr.direction == PressDirection::Up {
        lemma_without_group_absent(w0, p, b, pr.pointer_id, pr.button);
        lemma_without_group_absent(d0, p, b, pr.pointer_id, pr.button);
    }
}

/// A release only forgets its own pointer button: a down or a drag whose pointer button is not
/// released among the presses of a frame is still there at the end of the frame, unchanged.
pub proof fn lemma_release_keeps_other_buttons(
    downs: DownEntries,
    drags: DragEntries,
    presses: Seq<InputPress>,
    pointer_map: Map<PointerId, Entity>,
    locations: Map<Entity, PointerLocation>,
    p: PointerId,
    b: PointerButton,
)
    requires
        forall|i: int|
            0 <= i < presses.len() ==> !(#[trigger] presses[i].direction == PressDirection::Up
                && presses[i].pointer_id == p && presses[i].button == b),
    ensures
        forall|j: int|
            0 <= j < downs.len() && in_group(#[trigger] downs[j].0, p, b) ==> release_phase(
                downs,
                drags,
                presses,
                pointer_map,
                locations,
            ).0.contains(downs[j]),
        forall|j: int|
            0 <= j < drags.len() && in_group(#[trigger] drags[j].0, p, b) ==> release_phase(
                downs,
                drags,
                presses,
                pointer_map,
                locations,
            ).1.contains(drags[j]),
    decreases presses.len(),
{
    if presses.len() > 0 {
        let t = presses.drop_last();
        assert forall|i: int| 0 <= i < t.len() implies !(#[trigger] t[i].direction == PressDirection::Up
            && t[i].pointer_id == p && t[i].button == b) by {
            assert(t[i] == presses[i]);
        }
        lemma_release_keeps_other_buttons(downs, drags, t, pointer_map, locations, p, b);
        let (w0, d0, _e0) = release_phase(downs, drags, t, pointer_map, locations);
        let pr = presses.last();
        assert(presses[presses.len() - 1] == pr);
        if pr.direction == PressDirection::Up {
            lemma_without_group(w0, pr.pointer_id, pr.button);
            lemma_without_group(d0, pr.pointer_id, pr.button);
            assert forall|j: int| 0 <= j < downs.len() && in_group(#[trigger] downs[j].0, p, b) implies release_phase(
                downs,
                drags,
                presses,
                pointer_map,
                locations,
            ).0.contains(downs[j]) by {
                let k = choose|k: int| 0 <= k < w0.len() && w0[k] == downs[j];
                assert(!in_group(w0[k].0, pr.pointer_id, pr.button));
            }
            assert forall|j: int| 0 <= j < drags.len() && in_group(#[trigger] drags[j].0, p, b) implies release_phase(
                downs,
                drags,
                presses,
                pointer_map,
                locations,
            ).1.contains(drags[j]) by {
                let k = choose|k: int| 0 <= k < d0.len() && d0[k] == drags[j];
                assert(!in_group(d0[k].0, pr.pointer_id, pr.button));
            }
        }
    }
}

/// The drag end event ends the drag `e`: of its pointer button and entity, from its start
/// position to its latest position.
pub open spec fn drag_end_of(de: Pointer<DragEnd>, e: (ButtonKey, DragEntry)) -> bool {
    &&& e.0 == ButtonKey { pointer_id: de.pointer_id, button: de.event.button, entity: de.target }
    &&& de.event.start_pos == e.1.start_pos
    &&& de.event.latest_pos == e.1.latest_pos
}

proof fn lemma_drag_end_events(drags: DragEntries, p: PointerId, b: PointerButton, loc: Location)
    ensures
        forall|i: int|
            0 <= i < drag_end_events(drags, p, b, loc).len() ==> (#[trigger] drag_end_events(drags, p, b, loc)[i]).pointer_location
                == loc && drag_end_events(drags, p, b, loc)[i].pointer_id == p && drag_end_events(drags, p, b, loc)[i].event.button
                == b && exists|j: int| 0 <= j < drags.len() && drag_end_of(drag_end_events(drags, p, b, loc)[i], drags[j]),
        forall|j: int|
            0 <= j < drags.len() && in_group(#[trigger] drags[j].0, p, b) ==> exists|i: int|
                0 <= i < drag_end_events(drags, p, b, loc).len() && drag_end_of(drag_end_events(drags, p, b, loc)[i], drags[j]),
    decreases drags.len(),
{
    if drags.len() > 0 {
        let t = drags.drop_last();
        lemma_drag_end_events(t, p, b, loc);
        let r = drag_end_events(drags, p, b, loc);
        let r0 = drag_end_events(t, p, b, loc);
        let last = drags.len() - 1;
        assert(drags[last] == drags.last());
        assert forall|i: int| 0 <= i < r.len() implies (#[trigger] r[i]).pointer_location == loc && r[i].pointer_id == p
            && r[i].event.button == b && exists|j: int| 0 <= j < drags.len() && drag_end_of(r[i], drags[j]) by {
            if i < r0.len() {
                assert(r[i] == r0[i]);
                let j = choose|j: int| 0 <= j < t.len() && drag_end_of(r0[i], t[j]);
                assert(drags[j] == t[j]);
            } else {
                assert(drag_end_of(r[i], drags[last]));
            }
        }
        assert forall|j: int| 0 <= j < drags.len() && in_group(#[trigger] drags[j].0, p, b) implies exists|i: int|
            0 <= i < r.len() && drag_end_of(r[i], drags[j]) by {
            if j < last {
                assert(drags[j] == t[j]);
                let i = choose|i: int| 0 <= i < r0.len() && drag_end_of(r0[i], t[j]);
                assert(r[i] == r0[i]);
            } else {
                assert(drag_end_of(r[r0.len() as int], drags[j]));
            }
        }
    }
}

/// The drag end event is sent by a release of its pointer button, at the pointer's location.
pub open spec fn drag_end_released(
    de: Pointer<DragEnd>,
    presses: Seq<InputPress>,
    pointer_map: Map<PointerId, Entity>,
    locations: Map<Entity, PointerLocation>,
) -> bool {
    exists|m: int|
        0 <= m < presses.len() && presses[m].direction == PressDirection::Up && presses[m].pointer_id == de.pointer_id
            && presses[m].button == de.event.button && spec_pointer_location(pointer_map, locations, de.pointer_id)
            == Some(de.pointer_location)
}

/// Drag ends carry the drags they end: every drag end event of the releases is sent by a release
/// of its pointer button, at the pointer's location, and ends a drag that the drag map held
/// before the releases, with that drag's start and latest positions. The releases only forget
/// drags.
pub proof fn lemma_drag_ends_carry_drags(
    downs: DownEntries,
    drags: DragEntries,
    presses: Seq<InputPress>,
    pointer_map: Map<PointerId, Entity>,
    locations: Map<Entity, PointerLocation>,
)
    ensures
        forall|i: int|
            0 <= i < release_phase(downs, drags, presses, pointer_map, locations).2.len() ==> drag_end_released(
                #[trigger] release_phase(downs, drags, presses, pointer_map, locations).2[i],
                presses,
                pointer_map,
                locations,
            ) && exists|j: int|
                0 <= j < drags.len() && drag_end_of(release_phase(downs, drags, presses, pointer_map, locations).2[i], drags[j]),
        forall|x: (ButtonKey, DragEntry)|
            #[trigger] release_phase(downs, drags, presses, pointer_map, locations).1.contains(x) ==> drags.contains(x),
    decreases presses.len(),
{
    if presses.len() > 0 {
        let t = presses.drop_last();
        let pr = presses.last();
        let last = presses.len() - 1;
        assert(presses[last] == pr);
        lemma_drag_ends_carry_drags(downs, drags, t, pointer_map, locations);
        let (w0, d0, e0) = release_phase(downs, drags, t, pointer_map, locations);
        let r = release_phase(downs, drags, presses, pointer_map, locations);
        if pr.direction == PressDirection::Up {
            let loc = spec_pointer_location(pointer_map, locations, pr.pointer_id);
            let extra = if loc is Some {
                drag_end_events(d0, pr.pointer_id, pr.button, loc.unwrap())
            } else {
                Seq::empty()
            };
            assert(r.2 == e0 + extra);
            assert(r.1 == without_group(d0, pr.pointer_id, pr.button));
            lemma_without_group(d0, pr.pointer_id, pr.button);
            if loc is Some {
                lemma_drag_end_events(d0, pr.pointer_id, pr.button, loc.unwrap());
            }
            assert forall|i: int| 0 <= i < r.2.len() implies drag_end_released(#[trigger] r.2[i], presses, pointer_map, locations)
                && exists|j: int| 0 <= j < drags.len() && drag_end_of(r.2[i], drags[j]) by {
                if i < e0.len() {
                    assert(r.2[i] == e0[i]);
                    assert(drag_end_released(e0[i], t, pointer_map, locations));
                    let m = choose|m: int|
                        0 <= m < t.len() && t[m].direction == PressDirection::Up && t[m].pointer_id == e0[i].pointer_id
                            && t[m].button == e0[i].event.button && spec_pointer_location(pointer_map, locations, e0[i].pointer_id)
                            == Some(e0[i].pointer_location);
                    assert(t[m] == presses[m]);
                } else {
                    let k = i - e0.len();
                    assert(r.2[i] == extra[k]);
                    let j = choose|j: int| 0 <= j < d0.len() && drag_end_of(extra[k], d0[j]);
                    assert(d0.contains(d0[j]));
                    let q = choose|q: int| 0 <= q < drags.len() && drags[q] == d0[j];
                    assert(drag_end_of(r.2[i], drags[q]));
                    assert(presses[last].pointer_id == r.2[i].pointer_id);
                }
            }
            assert forall|x: (ButtonKey, DragEntry)| #[trigger] r.1.contains(x) implies drags.contains(x) by {
                let a = choose|a: int| 0 <= a < r.1.len() && r.1[a] == x;
                assert(!in_group(without_group(d0, pr.pointer_id, pr.button)[a].0, pr.pointer_id, pr.button));
                let j = choose|j: int| 0 <= j < d0.len() && d0[j] == r.1[a];
                assert(d0.contains(d0[j]));
            }
        } else {
            assert(r == (w0, d0, e0));
            assert forall|i: int| 0 <= i < r.2.len() implies drag_end_released(#[trigger] r.2[i], presses, pointer_map, locations)
                by {
                assert(drag_end_released(e0[i], t, pointer_map, locations));
                let m = choose|m: int|
                    0 <= m < t.len() && t[m].direction == PressDirection::Up && t[m].pointer_id == e0[i].pointer_id
                        && t[m].button == e0[i].event.button && spec_pointer_location(pointer_map, locations, e0[i].pointer_id)
                        == Some(e0[i].pointer_location);
                assert(t[m] == presses[m]);
            }
        }
    }
}

/// The drag end events of the first presses come first.
proof fn lemma_release_ends_prefix(
    downs: DownEntries,
    drags: DragEntries,
    presses: Seq<InputPress>,
    pointer_map: Map<PointerId, Entity>,
    locations: Map<Entity, PointerLocation>,
    n: int,
)
    requires
        0 <= n <= presses.len(),
    ensures
        release_phase(downs, drags, presses.take(n), pointer_map, locations).2.len() <= release_phase(
            downs,
            drags,
            presses,
            pointer_map,
            locations,
        ).2.len(),
        forall|i: int|
            0 <= i < release_phase(downs, drags, presses.take(n), pointer_map, locations).2.len() ==> release_phase(
                downs,
                drags,
                presses,
                pointer_map,
                locations,
            ).2[i] == #[trigger] release_phase(downs, drags, presses.take(n), pointer_map, locations).2[i],
    decreases presses.len(),
{
    if n == presses.len() {
        assert(presses.take(n) =~= presses);
    } else {
        let t = presses.drop_last();
        lemma_release_ends_prefix(downs, drags, t, pointer_map, locations, n);
        assert(t.take(n) =~= presses.take(n));
        let r0 = release_phase(downs, drags, t, pointer_map, locations).2;
        let r = release_phase(downs, drags, presses, pointer_map, locations).2;
        assert(r.len() >= r0.len());
        assert forall|i: int| 0 <= i < r0.len() implies r[i] == r0[i] by {}
    }
}

/// Every drag ends when its pointer button is released: at the first release of that pointer
/// button among the presses, if the pointer has a location, a drag end event ends each drag of
/// that pointer button that the drag map held before the releases, from its start position to
/// its latest position.
pub proof fn lemma_release_ends_every_drag(
    downs: DownEntries,
    drags: DragEntries,
    presses: Seq<InputPress>,
    pointer_map: Map<PointerId, Entity>,
    locations: Map<Entity, PointerLocation>,
    j: int,
    m: int,
)
    requires
        0 <= j < drags.len(),
        0 <= m < presses.len(),
        presses[m].direction == PressDirection::Up,
        in_group(drags[j].0, presses[m].pointer_id, presses[m].button),
        spec_pointer_location(pointer_map, locations, presses[m].pointer_id) is Some,
        forall|q: int|
            0 <= q < m ==> !(#[trigger] presses[q].direction == PressDirection::Up && presses[q].pointer_id
                == presses[m].pointer_id && presses[q].button == presses[m].button),
    ensures
        exists|i: int|
            0 <= i < release_phase(downs, drags, presses, pointer_map, locations).2.len() && drag_end_of(
                release_phase(downs, drags, presses, pointer_map, locations).2[i],
                drags[j],
            ),
{
    let p = presses[m].pointer_id;
    let b = presses[m].button;
    let before = presses.take(m);
    assert forall|q: int| 0 <= q < before.len() implies !(#[trigger] before[q].direction == PressDirection::Up
        && before[q].pointer_id == p && before[q].button == b) by {
        assert(before[q] == presses[q]);
    }
    lemma_release_keeps_other_buttons(downs, drags, before, pointer_map, locations, p, b);
    let pre = release_phase(downs, drags, before, pointer_map, locations);
    assert(pre.1.contains(drags[j]));
    let k = choose|k: int| 0 <= k < pre.1.len() && pre.1[k] == drags[j];
    let upto = presses.take(m + 1);
    assert(upto.drop_last() =~= before);
    assert(upto.last() == presses[m]);
    let loc = spec_pointer_location(pointer_map, locations, p).unwrap();
    let mid = release_phase(downs, drags, upto, pointer_map, locations);
    let ends = drag_end_events(pre.1, p, b, loc);
    assert(mid.2 == pre.2 + ends);
    lemma_drag_end_events(pre.1, p, b, loc);
    assert(in_group(pre.1[k].0, p, b));
    let i = choose|i: int| 0 <= i < ends.len() && drag_end_of(ends[i], pre.1[k]);
    assert(mid.2[pre.2.len() + i] == ends[i]);
    lemma_release_ends_prefix(downs, drags, presses, pointer_map, locations, m + 1);
    let r = release_phase(downs, drags, presses, pointer_map, locations).2;
    assert(r[pre.2.len() + i] == mid.2[pre.2.len() + i]);
}

/// The drag event is the one of the drag `e` at `loc`: on its entity, by its pointer button, from
/// its start position and its latest position.
pub open spec fn drag_event_of(g: Pointer<Drag>, e: (ButtonKey, DragEntry), loc: Location) -> bool {
    &&& e.0 == ButtonKey { pointer_id: g.pointer_id, button: g.event.button, entity: g.target }
    &&& g.event.start_pos == e.1.start_pos
    &&& g.event.previous_pos == e.1.latest_pos
    &&& g.pointer_location == loc
}

/// The drag events of a move of pointer `p` for button `b`: one for each drag of that pointer
/// button and no other, each from the drag's start position and its latest position before the
/// move.
pub proof fn lemma_drag_events(drags: DragEntries, p: PointerId, b: PointerButton, loc: Location)
    ensures
        forall|i: int|
            0 <= i < drag_events(drags, p, b, loc).len() ==> (#[trigger] drag_events(drags, p, b, loc)[i]).pointer_id == p
                && drag_events(drags, p, b, loc)[i].event.button == b && exists|j: int|
                0 <= j < drags.len() && drag_event_of(drag_events(drags, p, b, loc)[i], drags[j], loc),
        forall|j: int|
            0 <= j < drags.len() && in_group(#[trigger] drags[j].0, p, b) ==> exists|i: int|
                0 <= i < drag_events(drags, p, b, loc).len() && drag_event_of(drag_events(drags, p, b, loc)[i], drags[j], loc),
    decreases drags.len(),
{
    if drags.len() > 0 {
        let t = drags.drop_last();
        lemma_drag_events(t, p, b, loc);
        let r = drag_events(drags, p, b, loc);
        let r0 = drag_events(t, p, b, loc);
        let last = drags.len() - 1;
        assert(drags[last] == drags.last());
        assert forall|i: int| 0 <= i < r.len() implies (#[trigger] r[i]).pointer_id == p && r[i].event.button == b
            && exists|j: int| 0 <= j < drags.len() && drag_event_of(r[i], drags[j], loc) by {
            if i < r0.len() {
                assert(r[i] == r0[i]);
                let j = choose|j: int| 0 <= j < t.len() && drag_event_of(r0[i], t[j], loc);
                assert(drags[j] == t[j]);
            } else {
                assert(drag_event_of(r[i], drags[last], loc));
            }
        }
        assert forall|j: int| 0 <= j < drags.len() && in_group(#[trigger] drags[j].0, p, b) implies exists|i: int|
            0 <= i < r.len() && drag_event_of(r[i], drags[j], loc) by {
            if j < last {
                assert(drags[j] == t[j]);
                let i = choose|i: int| 0 <= i < r0.len() && drag_event_of(r0[i], t[j], loc);
                assert(r[i] == r0[i]);
            } else {
                assert(drag_event_of(r[r0.len() as int], drags[j], loc));
            }
        }
    }
}

/// The click is the one of the up event `u`: on its target, by its pointer and button, at its
/// location and with its hit.
pub open spec fn click_of(c: Pointer<Click>, u: Pointer<Up>) -> bool {
    &&& c.target == u.target
    &&& c.pointer_id == u.pointer_id
    &&& c.pointer_location == u.pointer_location
    &&& c.event.button == u.event.button
    &&& c.event.hit == u.event.hit
}

/// Some up event on an entity that the same pointer button is down on made the click.
pub open spec fn click_made(c: Pointer<Click>, ups: Seq<Pointer<Up>>, downs: Map<ButtonKey, Pointer<Down>>) -> bool {
    exists|i: int|
        0 <= i < ups.len() && click_of(c, ups[i]) && downs.contains_key(
            ButtonKey { pointer_id: ups[i].pointer_id, button: ups[i].event.button, entity: ups[i].target },
        )
}

/// Clicks: every click is made by an up event on an entity that the same pointer button went down
/// on, and every such up event makes one.
pub proof fn lemma_click_events(ups: Seq<Pointer<Up>>, downs: Map<ButtonKey, Pointer<Down>>)
    ensures
        forall|i: int|
            0 <= i < click_events(ups, downs).len() ==> click_made(#[trigger] click_events(ups, downs)[i], ups, downs),
        forall|i: int|
            0 <= i < ups.len() && downs.contains_key(
                ButtonKey { pointer_id: #[trigger] ups[i].pointer_id, button: ups[i].event.button, entity: ups[i].target },
            ) ==> exists|j: int| 0 <= j < click_events(ups, downs).len() && click_of(click_events(ups, downs)[j], ups[i]),
    decreases ups.len(),
{
    if ups.len() > 0 {
        let t = ups.drop_last();
        let last = ups.len() - 1;
        assert(ups[last] == ups.last());
        lemma_click_events(t, downs);
        let r = click_events(ups, downs);
        let r0 = click_events(t, downs);
        assert forall|i: int| 0 <= i < r.len() implies click_made(#[trigger] r[i], ups, downs) by {
            if i < r0.len() {
                assert(r[i] == r0[i]);
                assert(click_made(r0[i], t, downs));
                let k = choose|k: int|
                    0 <= k < t.len() && click_of(r0[i], t[k]) && downs.contains_key(
                        ButtonKey { pointer_id: t[k].pointer_id, button: t[k].event.button, entity: t[k].target },
                    );
                assert(t[k] == ups[k]);
                assert(click_of(r[i], ups[k]));
            } else {
                assert(click_of(r[i], ups[last]));
            }
        }
        assert forall|i: int|
            0 <= i < ups.len() && downs.contains_key(
                ButtonKey { pointer_id: #[trigger] ups[i].pointer_id, button: ups[i].event.button, entity: ups[i].target },
            ) implies exists|j: int| 0 <= j < r.len() && click_of(r[j], ups[i]) by {
            if i < last {
                assert(t[i] == ups[i]);
                let j = choose|j: int| 0 <= j < r0.len() && click_of(r0[j], t[i]);
                assert(r[j] == r0[j]);
            } else {
                assert(click_of(r[r0.len() as int], ups[i]));
            }
        }
    }
}

/// Removing a group keeps exactly the entries of the other groups, and keeps keys unique.
pub proof fn lemma_without_group<V>(s: Seq<(ButtonKey, V)>, p: PointerId, b: PointerButton)
    ensures
        forall|i: int|
            0 <= i < without_group(s, p, b).len() ==> !in_group(
                #[trigger] without_group(s, p, b)[i].0,
                p,
                b,
            ) && exists|j: int| 0 <= j < s.len() && s[j] == without_group(s, p, b)[i],
        forall|j: int|
            0 <= j < s.len() && !in_group(#[trigger] s[j].0, p, b) ==> exists|i: int|
                0 <= i < without_group(s, p, b).len() && without_group(s, p, b)[i] == s[j],
        no_dup_keys(s) ==> no_dup_keys(without_group(s, p, b)),
    decreases s.len(),
{
    if s.len() > 0 {
        let t = s.drop_last();
        lemma_without_group(t, p, b);
        let w = without_group(s, p, b);
        let wt = without_group(t, p, b);
        assert forall|i: int| 0 <= i < w.len() implies !in_group(#[trigger] w[i].0, p, b) && exists|
            j: int,
        | 0 <= j < s.len() && s[j] == w[i] by {
            if i < wt.len() {
                assert(w[i] == wt[i]);
                assert(!in_group(wt[i].0, p, b));
                let j = choose|j: int| 0 <= j < t.len() && t[j] == wt[i];
                assert(s[j] == t[j]);
            } else {
                assert(s[s.len() - 1] == w[i]);
            }
        }
        assert forall|j: int| 0 <= j < s.len() && !in_group(#[trigger] s[j].0, p, b) implies exists|
            i: int,
        | 0 <= i < w.len() && w[i] == s[j] by {
            if j < t.len() {
                assert(t[j] == s[j]);
                let i = choose|i: int| 0 <= i < wt.len() && wt[i] == t[j];
                assert(w[i] == wt[i]);
            } else {
                assert(w[w.len() - 1] == s[j]);
            }
        }
        if no_dup_keys(s) {
            assert(no_dup_keys(t));
            assert forall|a: int, c: int| 0 <= a < w.len() && 0 <= c < w.len() && a != c implies w[a].0
                != w[c].0 by {
                let ja = choose|j: int| 0 <= j < s.len() && s[j] == w[a];
                let jc = choose|j: int| 0 <= j < s.len() && s[j] == w[c];
                if ja == jc {
                    if a < wt.len() && c < wt.len() {
                        assert(w[a] == wt[a] && w[c] == wt[c]);
                        assert(!in_group(wt[a].0, p, b) && !in_group(wt[c].0, p, b));
                        let ta = choose|j: int| 0 <= j < t.len() && t[j] == wt[a];
                        let tc = choose|j: int| 0 <= j < t.len() && t[j] == wt[c];
                        assert(ta == tc);
                    } else {
                        let last = s.len() - 1;
                        let other = if a < wt.len() { a } else { c };
                        assert(w[other] == wt[other]);
                        assert(!in_group(wt[other].0, p, b));
                        let tj = choose|j: int| 0 <= j < t.len() && t[j] == wt[other];
                        assert(s[tj] == t[tj]);
                        assert(s[last].0 != s[tj].0);
                    }
                }
            }
        }
    }
}

/// The pointer button and entity of a drag start.
pub open spec fn start_key(s: Pointer<DragStart>) -> ButtonKey {
    ButtonKey { pointer_id: s.pointer_id, button: s.event.button, entity: s.target }
}

/// The drag start was made by one of the downs: a down of its pointer button on its target, at
/// its location and with its hit.
pub open spec fn started_by(s: Pointer<DragStart>, downs: DownEntries) -> bool {
    exists|k: int|
        0 <= k < downs.len() && #[trigger] downs[k].1.target == s.target && in_group(downs[k].0, s.pointer_id, s.event.button)
            && downs[k].1.pointer_location == s.pointer_location && downs[k].1.event.hit == s.event.hit
}

/// Starting drags appends one entry per drag start, for its pointer button and entity, from the
/// position of the start; the new keys are not among the entries before them.
proof fn lemma_start_drags_shape(drags: DragEntries, downs: DownEntries, p: PointerId, b: PointerButton)
    ensures
        ({
            let (d1, s1) = start_drags(drags, downs, p, b);
            &&& d1.len() == drags.len() + s1.len()
            &&& forall|j: int| 0 <= j < drags.len() ==> #[trigger] d1[j] == drags[j]
            &&& forall|i: int|
                0 <= i < s1.len() ==> (#[trigger] s1[i]).pointer_id == p && s1[i].event.button == b
                    && d1[drags.len() + i] == (
                    start_key(s1[i]),
                    DragEntry {
                        start_pos: s1[i].pointer_location.position,
                        latest_pos: s1[i].pointer_location.position,
                    },
                )
            &&& forall|i: int, j: int|
                #![trigger s1[i], d1[j]]
                0 <= i < s1.len() && 0 <= j < drags.len() + i ==> d1[j].0 != start_key(s1[i])
            &&& forall|i: int| 0 <= i < s1.len() ==> started_by(#[trigger] s1[i], downs)
        }),
    decreases downs.len(),
{
    if downs.len() > 0 {
        lemma_start_drags_shape(drags, downs.drop_last(), p, b);
        let (d0, s0) = start_drags(drags, downs.drop_last(), p, b);
        let (k, d) = downs.last();
        let key = ButtonKey { pointer_id: p, button: b, entity: d.target };
        if in_group(k, p, b) && key_position(d0, key) < 0 {
            lemma_key_position(d0, key);
            let (d1, s1) = start_drags(drags, downs, p, b);
            assert(d1 == d0.push((key, DragEntry { start_pos: d.pointer_location.position, latest_pos: d.pointer_location.position })));
            assert forall|j: int| 0 <= j < drags.len() implies #[trigger] d1[j] == drags[j] by {
                assert(d1[j] == d0[j]);
            }
            assert forall|i: int|
                0 <= i < s1.len() implies (#[trigger] s1[i]).pointer_id == p && s1[i].event.button == b
                    && d1[drags.len() + i] == (
                    start_key(s1[i]),
                    DragEntry {
                        start_pos: s1[i].pointer_location.position,
                        latest_pos: s1[i].pointer_location.position,
                    },
                ) by {
                if i < s0.len() {
                    assert(s1[i] == s0[i]);
                    assert(d1[drags.len() + i] == d0[drags.len() + i]);
                }
            }
            assert forall|i: int, j: int|
                #![trigger s1[i], d1[j]]
                0 <= i < s1.len() && 0 <= j < drags.len() + i implies d1[j].0 != start_key(s1[i]) by {
                if i < s0.len() {
                    assert(s1[i] == s0[i]);
                    assert(d1[j] == d0[j]);
                } else {
                    assert(d1[j] == d0[j]);
                }
            }
        }
        let s1 = start_drags(drags, downs, p, b).1;
        assert forall|i: int| 0 <= i < s1.len() implies started_by(#[trigger] s1[i], downs) by {
            if i < s0.len() {
                assert(s1[i] == s0[i]);
                let k = choose|k: int| 0 <= k < downs.len() - 1 && downs.drop_last()[k].1.target == s0[i].target
                    && in_group(downs.drop_last()[k].0, s0[i].pointer_id, s0[i].event.button)
                    && downs.drop_last()[k].1.pointer_location == s0[i].pointer_location
                    && downs.drop_last()[k].1.event.hit == s0[i].event.hit;
                assert(downs[k] == downs.drop_last()[k]);
            } else {
                assert(downs[downs.len() - 1] == downs.last());
            }
        }
    }
}

/// Advancing drags keeps every key and start position, and moves the latest position of the
/// drags of the pointer button.
proof fn lemma_advance_drags_shape(drags: DragEntries, p: PointerId, b: PointerButton, pos: Vec2Bits)
    ensures
        advance_drags(drags, p, b, pos).len() == drags.len(),
        forall|j: int|
            0 <= j < drags.len() ==> (#[trigger] advance_drags(drags, p, b, pos)[j]).0 == drags[j].0
                && advance_drags(drags, p, b, pos)[j].1.start_pos == drags[j].1.start_pos
                && advance_drags(drags, p, b, pos)[j].1.latest_pos == (if in_group(drags[j].0, p, b) {
                pos
            } else {
                drags[j].1.latest_pos
            }),
{
}

/// The position of the latest of the moves of pointer `p`, if it moved.
pub open spec fn last_move_position(moves: Seq<InputMove>, p: PointerId) -> Option<Vec2Bits>
    decreases moves.len(),
{
    if moves.len() == 0 {
        None
    } else if moves.last().pointer_id == p {
        Some(moves.last().location.position)
    } else {
        last_move_position(moves.drop_last(), p)
    }
}

/// One move for the buttons `bs`: the entries before keep their keys and start positions, and
/// those of the moving pointer with one of the buttons move to the new position; one entry is
/// appended per drag start, at the new position.
proof fn lemma_move_buttons_shape(drags: DragEntries, downs: DownEntries, m: InputMove, bs: Seq<PointerButton>)
    ensures
        ({
            let (d1, s1, _e) = move_buttons(drags, downs, m, bs);
            &&& d1.len() == drags.len() + s1.len()
            &&& forall|j: int|
                0 <= j < drags.len() ==> (#[trigger] d1[j]).0 == drags[j].0 && d1[j].1.start_pos
                    == drags[j].1.start_pos && d1[j].1.latest_pos == (if drags[j].0.pointer_id
                    == m.pointer_id && bs.contains(drags[j].0.button) {
                    m.location.position
                } else {
                    drags[j].1.latest_pos
                })
            &&& forall|i: int|
                0 <= i < s1.len() ==> (#[trigger] s1[i]).pointer_id == m.pointer_id && started_by(s1[i], downs)
                    && d1[drags.len() + i].0 == start_key(s1[i]) && d1[drags.len() + i].1.start_pos
                    == s1[i].pointer_location.position && d1[drags.len() + i].1.latest_pos
                    == m.location.position
            &&& forall|i: int, j: int|
                #![trigger s1[i], d1[j]]
                0 <= i < s1.len() && 0 <= j < drags.len() + i ==> d1[j].0 != start_key(s1[i])
        }),
    decreases bs.len(),
{
    if bs.len() > 0 {
        let t = bs.drop_last();
        let b = bs.last();
        lemma_move_buttons_shape(drags, downs, m, t);
        let (d0, s0, _e0) = move_buttons(drags, downs, m, t);
        lemma_start_drags_shape(d0, downs, m.pointer_id, b);
        let (dd, ss) = start_drags(d0, downs, m.pointer_id, b);
        lemma_advance_drags_shape(dd, m.pointer_id, b, m.location.position);
        let (d1, s1, _e1) = move_buttons(drags, downs, m, bs);
        assert(d1 == advance_drags(dd, m.pointer_id, b, m.location.position));
        assert(s1 == s0 + ss);
        assert(bs[bs.len() - 1] == b);
        assert forall|x: PointerButton| #[trigger] t.contains(x) implies bs.contains(x) by {
            let k = choose|k: int| 0 <= k < t.len() && t[k] == x;
            assert(bs[k] == t[k]);
        }
        assert forall|x: PointerButton| #[trigger] bs.contains(x) && x != b implies t.contains(x) by {
            let k = choose|k: int| 0 <= k < bs.len() && bs[k] == x;
            assert(t[k] == bs[k]);
        }
        assert forall|j: int|
            0 <= j < drags.len() implies (#[trigger] d1[j]).0 == drags[j].0 && d1[j].1.start_pos
                == drags[j].1.start_pos && d1[j].1.latest_pos == (if drags[j].0.pointer_id
                == m.pointer_id && bs.contains(drags[j].0.button) {
                m.location.position
            } else {
                drags[j].1.latest_pos
            }) by {
            assert(dd[j] == d0[j]);
        }
        assert forall|i: int|
            0 <= i < s1.len() implies (#[trigger] s1[i]).pointer_id == m.pointer_id && started_by(s1[i], downs)
                && d1[drags.len() + i].0 == start_key(s1[i]) && d1[drags.len() + i].1.start_pos
                == s1[i].pointer_location.position && d1[drags.len() + i].1.latest_pos
                == m.location.position by {
            if i < s0.len() {
                assert(s1[i] == s0[i]);
                assert(dd[drags.len() + i] == d0[drags.len() + i]);
            } else {
                let k = i - s0.len();
                assert(s1[i] == ss[k]);
                assert(dd[d0.len() + k].0 == start_key(ss[k]));
            }
        }
        assert forall|i: int, j: int|
            #![trigger s1[i], d1[j]]
            0 <= i < s1.len() && 0 <= j < drags.len() + i implies d1[j].0 != start_key(s1[i]) by {
            if i < s0.len() {
                assert(s1[i] == s0[i]);
                assert(dd[j] == d0[j]);
                assert(d0[j].0 != start_key(s0[i]));
            } else {
                let k = i - s0.len();
                assert(s1[i] == ss[k]);
                assert(dd[j].0 != start_key(ss[k]));
            }
        }
    }
}

/// Every pointer button is one of the three buttons.
proof fn lemma_all_buttons(b: PointerButton)
    ensures
        all_buttons().contains(b),
{
    match b {
        PointerButton::Primary => assert(all_buttons()[0] == b),
        PointerButton::Secondary => assert(all_buttons()[1] == b),
        PointerButton::Middle => assert(all_buttons()[2] == b),
    }
}

/// The moves of a frame: the entries before keep their keys and start positions, and move to the
/// latest position of their pointer if it moved; one entry is appended per drag start, from the
/// position of the start, and at the latest position of its pointer.
proof fn lemma_move_phase_shape(drags: DragEntries, downs: DownEntries, moves: Seq<InputMove>)
    ensures
        ({
            let (d1, s1, _e) = move_phase(drags, downs, moves);
            &&& d1.len() == drags.len() + s1.len()
            &&& forall|j: int|
                0 <= j < drags.len() ==> (#[trigger] d1[j]).0 == drags[j].0 && d1[j].1.start_pos
                    == drags[j].1.start_pos && d1[j].1.latest_pos == match last_move_position(
                    moves,
                    drags[j].0.pointer_id,
                ) {
                    Some(q) => q,
                    None => drags[j].1.latest_pos,
                }
            &&& forall|i: int|
                0 <= i < s1.len() ==> started_by(#[trigger] s1[i], downs) && d1[drags.len() + i].0
                    == start_key(s1[i]) && d1[drags.len() + i].1.start_pos == s1[i].pointer_location.position
                    && last_move_position(moves, s1[i].pointer_id) == Some(d1[drags.len() + i].1.latest_pos)
            &&& forall|i: int, j: int|
                #![trigger s1[i], d1[j]]
                0 <= i < s1.len() && 0 <= j < drags.len() + i ==> d1[j].0 != start_key(s1[i])
        }),
    decreases moves.len(),
{
    if moves.len() > 0 {
        let t = moves.drop_last();
        let m = moves.last();
        lemma_move_phase_shape(drags, downs, t);
        let (d0, s0, _e0) = move_phase(drags, downs, t);
        lemma_move_buttons_shape(d0, downs, m, all_buttons());
        let (dd, ss, _ee) = move_buttons(d0, downs, m, all_buttons());
        let (d1, s1, _e1) = move_phase(drags, downs, moves);
        assert(d1 == dd);
        assert(s1 == s0 + ss);
        assert forall|j: int|
            0 <= j < drags.len() implies (#[trigger] d1[j]).0 == drags[j].0 && d1[j].1.start_pos
                == drags[j].1.start_pos && d1[j].1.latest_pos == match last_move_position(
                moves,
                drags[j].0.pointer_id,
            ) {
                Some(q) => q,
                None => drags[j].1.latest_pos,
            } by {
            lemma_all_buttons(d0[j].0.button);
        }
        assert forall|i: int|
            0 <= i < s1.len() implies started_by(#[trigger] s1[i], downs) && d1[drags.len() + i].0
                == start_key(s1[i]) && d1[drags.len() + i].1.start_pos == s1[i].pointer_location.position
                && last_move_position(moves, s1[i].pointer_id) == Some(d1[drags.len() + i].1.latest_pos) by {
            if i < s0.len() {
                assert(s1[i] == s0[i]);
                lemma_all_buttons(d0[drags.len() + i].0.button);
            } else {
                let k = i - s0.len();
                assert(s1[i] == ss[k]);
            }
        }
        assert forall|i: int, j: int|
            #![trigger s1[i], d1[j]]
            0 <= i < s1.len() && 0 <= j < drags.len() + i implies d1[j].0 != start_key(s1[i]) by {
            if i < s0.len() {
                assert(s1[i] == s0[i]);
                assert(d0[j].0 != start_key(s0[i]));
            } else {
                let k = i - s0.len();
                assert(s1[i] == ss[k]);
                assert(dd[j].0 != start_key(ss[k]));
            }
        }
    }
}

/// Drags over the moves of a frame. A drag start is sent for a pointer button and an entity only
/// for a down of that pointer button on that entity, with the down's location and hit, and only
/// when that pointer button was not dragging the entity; no two drag starts of a frame are for
/// the same pointer button and entity. The drag is then recorded from the position of its start.
/// Every drag's latest position becomes the position of the latest move of its pointer, and a
/// drag whose pointer did not move keeps its positions.
pub proof fn lemma_drag_starts_and_positions(drags: DragEntries, downs: DownEntries, moves: Seq<InputMove>)
    ensures
        forall|i: int|
            0 <= i < move_phase(drags, downs, moves).1.len() ==> {
                let s = #[trigger] move_phase(drags, downs, moves).1[i];
                &&& started_by(s, downs)
                &&& forall|j: int| 0 <= j < drags.len() ==> drags[j].0 != start_key(s)
                &&& exists|j: int|
                    0 <= j < move_phase(drags, downs, moves).0.len() && move_phase(drags, downs, moves).0[j].0 == start_key(s)
                        && move_phase(drags, downs, moves).0[j].1.start_pos == s.pointer_location.position
            },
        forall|i: int, k: int|
            0 <= i < k < move_phase(drags, downs, moves).1.len() ==> start_key(
                #[trigger] move_phase(drags, downs, moves).1[i],
            ) != start_key(#[trigger] move_phase(drags, downs, moves).1[k]),
        forall|j: int|
            0 <= j < move_phase(drags, downs, moves).0.len() ==> match last_move_position(
                moves,
                (#[trigger] move_phase(drags, downs, moves).0[j]).0.pointer_id,
            ) {
                Some(q) => move_phase(drags, downs, moves).0[j].1.latest_pos == q,
                None => j < drags.len() && move_phase(drags, downs, moves).0[j] == drags[j],
            },
{
    lemma_move_phase_shape(drags, downs, moves);
    let (d1, s1, _e) = move_phase(drags, downs, moves);
    assert forall|i: int| 0 <= i < s1.len() implies {
        let s = #[trigger] s1[i];
        &&& started_by(s, downs)
        &&& forall|j: int| 0 <= j < drags.len() ==> drags[j].0 != start_key(s)
        &&& exists|j: int| 0 <= j < d1.len() && d1[j].0 == start_key(s) && d1[j].1.start_pos == s.pointer_location.position
    } by {
        assert forall|j: int| 0 <= j < drags.len() implies drags[j].0 != start_key(s1[i]) by {
            assert(d1[j].0 != start_key(s1[i]));
        }
        assert(d1[drags.len() + i].0 == start_key(s1[i]));
    }
    assert forall|i: int, k: int| 0 <= i < k < s1.len() implies start_key(#[trigger] s1[i]) != start_key(#[trigger] s1[k]) by {
        assert(d1[drags.len() + i].0 == start_key(s1[i]));
        assert(d1[drags.len() + i].0 != start_key(s1[k]));
    }
    assert forall|j: int| 0 <= j < d1.len() implies match last_move_position(moves, (#[trigger] d1[j]).0.pointer_id) {
        Some(q) => d1[j].1.latest_pos == q,
        None => j < drags.len() && d1[j] == drags[j],
    } by {
        if j >= drags.len() {
            let i = j - drags.len();
            assert(s1[i].pointer_id == start_key(s1[i]).pointer_id);
        } else {
            assert(d1[j].1 == drags[j].1 || last_move_position(moves, drags[j].0.pointer_id) is Some);
        }
    }
}

/// The inputs of one frame of clicks and drags: the down events, the input moves, the input
/// presses, and the pointers' entities and locations.
pub type DragFrame = (
    Seq<Pointer<Down>>,
    Seq<InputMove>,
    Seq<InputPress>,
    Map<PointerId, Entity>,
    Map<Entity, PointerLocation>,
);

/// One frame of [`send_click_and_drag_events`] on the downs and drags: the downs and drags after
/// it, and the drag starts it sends.
pub open spec fn drag_frame(downs: DownEntries, drags: DragEntries, f: DragFrame) -> (
    DownEntries,
    DragEntries,
    Seq<Pointer<DragStart>>,
) {
    let (d1, starts, _d) = move_phase(drags, downs, f.1);
    let (w, d2, _e) = release_phase(record_downs(downs, f.0), d1, f.2, f.3, f.4);
    (w, d2, starts)
}

/// The downs and drags after the frames, in order.
pub open spec fn run_drag_frames(downs: DownEntries, drags: DragEntries, frames: Seq<DragFrame>) -> (
    DownEntries,
    DragEntries,
)
    decreases frames.len(),
{
    if frames.len() == 0 {
        (downs, drags)
    } else {
        let (w, d) = run_drag_frames(downs, drags, frames.drop_last());
        let r = drag_frame(w, d, frames.last());
        (r.0, r.1)
    }
}

/// The drag starts sent in frame `i`.
pub open spec fn frame_drag_starts(downs: DownEntries, drags: DragEntries, frames: Seq<DragFrame>, i: int) -> Seq<
    Pointer<DragStart>,
> {
    let (w, d) = run_drag_frames(downs, drags, frames.take(i));
    drag_frame(w, d, frames[i]).2
}

/// The frame releases the pointer button of the key.
pub open spec fn releases(f: DragFrame, k: ButtonKey) -> bool {
    exists|m: int|
        0 <= m < f.2.len() && #[trigger] f.2[m].direction == PressDirection::Up && f.2[m].pointer_id
            == k.pointer_id && f.2[m].button == k.button
}

/// The state after frame `i` is one frame on the state before it.
proof fn lemma_run_drag_frames_step(downs: DownEntries, drags: DragEntries, frames: Seq<DragFrame>, i: int)
    requires
        0 <= i < frames.len(),
    ensures
        ({
            let (w, d) = run_drag_frames(downs, drags, frames.take(i));
            let r = drag_frame(w, d, frames[i]);
            run_drag_frames(downs, drags, frames.take(i + 1)) == (r.0, r.1)
        }),
{
    assert(frames.take(i + 1).drop_last() =~= frames.take(i));
    assert(frames.take(i + 1).last() == frames[i]);
}

/// A drag that a frame's moves leave in place stays through the frame, unchanged, unless the
/// frame releases its pointer button.
proof fn lemma_drag_frame_keeps(downs: DownEntries, drags: DragEntries, f: DragFrame, e: (ButtonKey, DragEntry))
    requires
        move_phase(drags, downs, f.1).0.contains(e),
        !releases(f, e.0),
    ensures
        drag_frame(downs, drags, f).1.contains(e),
{
    let d1 = move_phase(drags, downs, f.1).0;
    let k = e.0;
    let j = choose|j: int| 0 <= j < d1.len() && d1[j] == e;
    assert forall|m: int|
        0 <= m < f.2.len() implies !(#[trigger] f.2[m].direction == PressDirection::Up && f.2[m].pointer_id
        == k.pointer_id && f.2[m].button == k.button) by {}
    lemma_release_keeps_other_buttons(record_downs(downs, f.0), d1, f.2, f.3, f.4, k.pointer_id, k.button);
    assert(in_group(d1[j].0, k.pointer_id, k.button));
}

/// A drag stays from its start until its pointer button is released: after a drag start in frame
/// `i`, if no frame from `i` on releases its pointer button, the drags before frame `l` hold its
/// pointer button and entity with the position of the start, which is that of the down that
/// started it.
pub proof fn lemma_started_drag_stays(
    downs: DownEntries,
    drags: DragEntries,
    frames: Seq<DragFrame>,
    i: int,
    a: int,
    l: int,
)
    requires
        0 <= i < l <= frames.len(),
        0 <= a < frame_drag_starts(downs, drags, frames, i).len(),
        forall|m: int| i <= m < l ==> !releases(#[trigger] frames[m], start_key(frame_drag_starts(downs, drags, frames, i)[a])),
    ensures
        exists|j: int|
            0 <= j < run_drag_frames(downs, drags, frames.take(l)).1.len()
                && #[trigger] run_drag_frames(downs, drags, frames.take(l)).1[j].0 == start_key(
                frame_drag_starts(downs, drags, frames, i)[a],
            ) && run_drag_frames(downs, drags, frames.take(l)).1[j].1.start_pos == frame_drag_starts(
                downs,
                drags,
                frames,
                i,
            )[a].pointer_location.position,
    decreases l - i,
{
    let st = frame_drag_starts(downs, drags, frames, i)[a];
    let k = start_key(st);
    let prev = run_drag_frames(downs, drags, frames.take(l - 1));
    lemma_run_drag_frames_step(downs, drags, frames, l - 1);
    lemma_move_phase_shape(prev.1, prev.0, frames[l - 1].1);
    let d1 = move_phase(prev.1, prev.0, frames[l - 1].1).0;
    let mut jj: int = 0;
    if l - 1 == i {
        lemma_drag_starts_and_positions(prev.1, prev.0, frames[i].1);
        let s = move_phase(prev.1, prev.0, frames[i].1).1;
        assert(s[a] == st);
        jj = choose|j: int| 0 <= j < d1.len() && d1[j].0 == k && d1[j].1.start_pos == st.pointer_location.position;
    } else {
        lemma_started_drag_stays(downs, drags, frames, i, a, l - 1);
        let j = choose|j: int|
            0 <= j < prev.1.len() && #[trigger] prev.1[j].0 == k && prev.1[j].1.start_pos == st.pointer_location.position;
        assert(d1[j].0 == k);
        jj = j;
    }
    assert(d1.contains(d1[jj]));
    lemma_drag_frame_keeps(prev.0, prev.1, frames[l - 1], d1[jj]);
    let r = run_drag_frames(downs, drags, frames.take(l)).1;
    let q = choose|q: int| 0 <= q < r.len() && r[q] == d1[jj];
    assert(r[q].0 == k);
}

/// At most one drag start per pointer button and entity between releases: over any run of
/// frames, two drag starts of the same pointer button and entity in different frames have a
/// frame between them, from the first one's on, that releases that pointer button. (Within one
/// frame, no two drag starts share a pointer button and entity.)
pub proof fn lemma_one_drag_start_between_releases(
    downs: DownEntries,
    drags: DragEntries,
    frames: Seq<DragFrame>,
    i: int,
    a: int,
    j: int,
    b: int,
)
    requires
        0 <= i < j < frames.len(),
        0 <= a < frame_drag_starts(downs, drags, frames, i).len(),
        0 <= b < frame_drag_starts(downs, drags, frames, j).len(),
        start_key(frame_drag_starts(downs, drags, frames, i)[a]) == start_key(
            frame_drag_starts(downs, drags, frames, j)[b],
        ),
    ensures
        exists|m: int| i <= m < j && releases(#[trigger] frames[m], start_key(frame_drag_starts(downs, drags, frames, i)[a])),
{
    let k = start_key(frame_drag_starts(downs, drags, frames, i)[a]);
    if forall|m: int| i <= m < j ==> !releases(#[trigger] frames[m], k) {
        lemma_started_drag_stays(downs, drags, frames, i, a, j);
        let st = run_drag_frames(downs, drags, frames.take(j));
        lemma_drag_starts_and_positions(st.1, st.0, frames[j].1);
        let s = move_phase(st.1, st.0, frames[j].1).1;
        assert(s[b] == frame_drag_starts(downs, drags, frames, j)[b]);
        let p = choose|p: int| 0 <= p < st.1.len() && #[trigger] st.1[p].0 == k && st.1[p].1.start_pos
            == frame_drag_starts(downs, drags, frames, i)[a].pointer_location.position;
        assert(st.1[p].0 != start_key(s[b]));
    }
}

/// The events generated by [`send_click_and_drag_events`].
pub struct ClickDragEvents {
    pub clicks: Vec<Pointer<Click>>,
    pub drag_starts: Vec<Pointer<DragStart>>,
    pub drag_ends: Vec<Pointer<DragEnd>>,
    pub drags: Vec<Pointer<Drag>>,
}

/// Removes from `m` every entry of pointer `p` and button `b`, keeping the order of the others.
fn remove_group<V: Copy>(m: &mut VecMap<ButtonKey, V>, p: PointerId, b: PointerButton)
    requires
        old(m).wf(),
    ensures
        final(m).wf(),
        final(m).entries() == without_group(old(m).entries(), p, b),
{
    let mut kept: VecMap<ButtonKey, V> = VecMap::new();
    let ghost s = m.entries();
    let mut i: usize = 0;
    while i < m.len()
        invariant
            i <= s.len(),
            s == m.entries(),
            m.wf(),
            kept.wf(),
            kept.entries() == without_group(s.take(i as int), p, b),
        decreases s.len() - i,
    {
        let (k, v) = *m.entry_at(i);
        proof {
            assert(s.take(i + 1).drop_last() =~= s.take(i as int));
            assert(s.take(i + 1).last() == s[i as int]);
        }
        if !(k.pointer_id == p && k.button == b) {
            proof {
                lemma_without_group(s.take(i as int), p, b);
                kept.lemma_view();
                crate::map::lemma_entries_to_map_dom(kept.entries(), k);
                if kept@.contains_key(k) {
                    let a = choose|a: int| 0 <= a < kept.entries().len() && kept.entries()[a].0 == k;
                    let j = choose|j: int|
                        0 <= j < s.take(i as int).len() && s.take(i as int)[j] == kept.entries()[a];
                    assert(s[j].0 == s[i as int].0);
                }
            }
            kept.insert(k, v);
        }
        i = i + 1;
    }
    proof {
        assert(s.take(s.len() as int) =~= s);
    }
    *m = kept;
}

/// Records each down event under its pointer, button and target.
fn record_down_events(down_map: &mut DownMap, events: &Vec<Pointer<Down>>)
    requires
        old(down_map).wf(),
    ensures
        final(down_map).wf(),
        final(down_map).entries() == record_downs(old(down_map).entries(), events@),
{
    let ghost start = down_map.entries();
    let mut i: usize = 0;
    while i < events.len()
        invariant
            i <= events@.len(),
            down_map.wf(),
            down_map.entries() == record_downs(start, events@.take(i as int)),
        decreases events@.len() - i,
    {
        let d = events[i];
        down_map.insert(ButtonKey { pointer_id: d.pointer_id, button: d.event.button, entity: d.target }, d);
        proof {
            assert(events@.take(i + 1).drop_last() =~= events@.take(i as int));
        }
        i = i + 1;
    }
    proof {
        assert(events@.take(events@.len() as int) =~= events@);
    }
}

/// Sends a click for every up event on an entity that the same pointer button is down on.
fn send_clicks(ups: &Vec<Pointer<Up>>, down_map: &DownMap) -> (clicks: Vec<Pointer<Click>>)
    requires
        down_map.wf(),
    ensures
        clicks@ == click_events(ups@, down_map@),
{
    let mut clicks: Vec<Pointer<Click>> = Vec::new();
    let mut i: usize = 0;
    while i < ups.len()
        invariant
            i <= ups@.len(),
            down_map.wf(),
            clicks@ == click_events(ups@.take(i as int), down_map@),
        decreases ups@.len() - i,
    {
        let u = ups[i];
        proof {
            assert(ups@.take(i + 1).drop_last() =~= ups@.take(i as int));
        }
        if down_map.contains_key(&ButtonKey { pointer_id: u.pointer_id, button: u.event.button, entity: u.target }) {
            clicks.push(
                Pointer::new(
                    u.pointer_id,
                    u.pointer_location,
                    u.target,
                    Click { button: u.event.button, hit: u.event.hit },
                ),
            );
        }
        i = i + 1;
    }
    proof {
        assert(ups@.take(ups@.len() as int) =~= ups@);
    }
    clicks
}

/// Starts the drags of one pointer button on a move of the pointer.
fn start_button_drags(
    drag_map: &mut DragMap,
    down_map: &DownMap,
    p: PointerId,
    b: PointerButton,
    starts: &mut Vec<Pointer<DragStart>>,
)
    requires
        old(drag_map).0.wf(),
        down_map.wf(),
    ensures
        final(drag_map).0.wf(),
        final(drag_map).0.entries() == start_drags(old(drag_map).0.entries(), down_map.entries(), p, b).0,
        final(starts)@ == old(starts)@ + start_drags(
            old(drag_map).0.entries(),
            down_map.entries(),
            p,
            b,
        ).1,
{
    let ghost d0 = drag_map.0.entries();
    let ghost s0 = starts@;
    let ghost downs = down_map.entries();
    let mut i: usize = 0;
    while i < down_map.len()
        invariant
            i <= downs.len(),
            downs == down_map.entries(),
            down_map.wf(),
            drag_map.0.wf(),
            drag_map.0.entries() == start_drags(d0, downs.take(i as int), p, b).0,
            starts@ == s0 + start_drags(d0, downs.take(i as int), p, b).1,
        decreases downs.len() - i,
    {
        let (k, d) = *down_map.entry_at(i);
        proof {
            assert(downs.take(i + 1).drop_last() =~= downs.take(i as int));
            assert(downs.take(i + 1).last() == downs[i as int]);
            lemma_key_position(drag_map.0.entries(), ButtonKey { pointer_id: p, button: b, entity: d.target });
            drag_map.0.lemma_view();
            crate::map::lemma_entries_to_map_dom(drag_map.0.entries(), ButtonKey { pointer_id: p, button: b, entity: d.target });
        }
        if k.pointer_id == p && k.button == b && !drag_map.0.contains_key(&ButtonKey { pointer_id: p, button: b, entity: d.target }) {
            let pos = d.pointer_location.position;
            drag_map.0.insert(ButtonKey { pointer_id: p, button: b, entity: d.target }, DragEntry { start_pos: pos, latest_pos: pos });
            starts.push(
                Pointer::new(p, d.pointer_location, d.target, DragStart { button: b, hit: d.event.hit }),
            );
            proof {
                let prev = start_drags(d0, downs.take(i as int), p, b).1;
                assert(s0 + prev.push(starts@.last()) =~= (s0 + prev).push(starts@.last()));
            }
        }
        i = i + 1;
    }
    proof {
        assert(downs.take(downs.len() as int) =~= downs);
    }
}

/// Sends a drag event for every drag of one pointer button, and moves those drags to the new
/// location.
fn advance_button_drags(
    drag_map: &mut DragMap,
    p: PointerId,
    b: PointerButton,
    loc: Location,
    events: &mut Vec<Pointer<Drag>>,
)
    requires
        old(drag_map).0.wf(),
    ensures
        final(drag_map).0.wf(),
        final(drag_map).0.entries() == advance_drags(old(drag_map).0.entries(), p, b, loc.position),
        final(events)@ == old(events)@ + drag_events(old(drag_map).0.entries(), p, b, loc),
{
    let ghost d0 = drag_map.0.entries();
    let ghost e0 = events@;
    let mut i: usize = 0;
    while i < drag_map.0.len()
        invariant
            i <= d0.len(),
            drag_map.0.wf(),
            drag_map.0.entries().len() == d0.len(),
            forall|j: int|
                0 <= j < i ==> #[trigger] drag_map.0.entries()[j] == advance_drags(
                    d0,
                    p,
                    b,
                    loc.position,
                )[j],
            forall|j: int| i <= j < d0.len() ==> #[trigger] drag_map.0.entries()[j] == d0[j],
            events@ == e0 + drag_events(d0.take(i as int), p, b, loc),
        decreases d0.len() - i,
    {
        let (k, e) = *drag_map.0.entry_at(i);
        proof {
            assert(d0.take(i + 1).drop_last() =~= d0.take(i as int));
            assert(d0.take(i + 1).last() == d0[i as int]);
        }
        if k.pointer_id == p && k.button == b {
            events.push(
                Pointer::new(
                    p,
                    loc,
                    k.entity,
                    Drag { button: b, start_pos: e.start_pos, previous_pos: e.latest_pos },
                ),
            );
            drag_map.0.replace_at(i, DragEntry { start_pos: e.start_pos, latest_pos: loc.position });
            proof {
                let prev = drag_events(d0.take(i as int), p, b, loc);
                assert(e0 + prev.push(events@.last()) =~= (e0 + prev).push(events@.last()));
            }
        }
        i = i + 1;
    }
    proof {
        assert(d0.take(d0.len() as int) =~= d0);
        assert(drag_map.0.entries() =~= advance_drags(d0, p, b, loc.position));
    }
}

/// Ends the drags of one pointer button at `loc`.
fn end_button_drags(
    drag_map: &DragMap,
    p: PointerId,
    b: PointerButton,
    loc: Location,
    events: &mut Vec<Pointer<DragEnd>>,
)
    ensures
        final(events)@ == old(events)@ + drag_end_events(drag_map.0.entries(), p, b, loc),
{
    let ghost d0 = drag_map.0.entries();
    let ghost e0 = events@;
    let mut i: usize = 0;
    while i < drag_map.0.len()
        invariant
            i <= d0.len(),
            d0 == drag_map.0.entries(),
            events@ == e0 + drag_end_events(d0.take(i as int), p, b, loc),
        decreases d0.len() - i,
    {
        let (k, e) = *drag_map.0.entry_at(i);
        proof {
            assert(d0.take(i + 1).drop_last() =~= d0.take(i as int));
            assert(d0.take(i + 1).last() == d0[i as int]);
        }
        if k.pointer_id == p && k.button == b {
            events.push(
                Pointer::new(
                    p,
                    loc,
                    k.entity,
                    DragEnd { button: b, start_pos: e.start_pos, latest_pos: e.latest_pos },
                ),
            );
            proof {
                let prev = drag_end_events(d0.take(i as int), p, b, loc);
                assert(e0 + prev.push(events@.last()) =~= (e0 + prev).push(events@.last()));
            }
        }
        i = i + 1;
    }
    proof {
        assert(d0.take(d0.len() as int) =~= d0);
    }
}

/// Uses pointer events to determine when click and drag events occur.
///
/// In order: each input move starts a drag of every entity that a button of the pointer is down
/// on and that this button does not drag yet, then sends a drag event for every drag of the
/// pointer; each up event on an entity that the same pointer button is down on is a click; each
/// down event is recorded; each button release forgets the downs and drags of that pointer button
/// and sends a drag end event for each of those drags.
pub fn send_click_and_drag_events(
    pointer_down: &Vec<Pointer<Down>>,
    pointer_up: &Vec<Pointer<Up>>,
    input_move: &Vec<InputMove>,
    input_presses: &Vec<InputPress>,
    pointer_map: &PointerMap,
    pointers: &VecMap<Entity, PointerLocation>,
    down_map: &mut DownMap,
    drag_map: &mut DragMap,
) -> (out: ClickDragEvents)
    requires
        old(down_map).wf(),
        old(drag_map).0.wf(),
        pointers.wf(),
    ensures
        final(down_map).wf(),
        final(drag_map).0.wf(),
        out.drag_starts@ == move_phase(
            old(drag_map).0.entries(),
            old(down_map).entries(),
            input_move@,
        ).1,
        out.drags@ == move_phase(old(drag_map).0.entries(), old(down_map).entries(), input_move@).2,
        out.clicks@ == click_events(pointer_up@, old(down_map)@),
        final(down_map).entries() == release_phase(
            record_downs(old(down_map).entries(), pointer_down@),
            move_phase(old(drag_map).0.entries(), old(down_map).entries(), input_move@).0,
            input_presses@,
            pointer_map@,
            pointers@,
        ).0,
        final(drag_map).0.entries() == release_phase(
            record_downs(old(down_map).entries(), pointer_down@),
            move_phase(old(drag_map).0.entries(), old(down_map).entries(), input_move@).0,
            input_presses@,
            pointer_map@,
            pointers@,
        ).1,
        out.drag_ends@ == release_phase(
            record_downs(old(down_map).entries(), pointer_down@),
            move_phase(old(drag_map).0.entries(), old(down_map).entries(), input_move@).0,
            input_presses@,
            pointer_map@,
            pointers@,
        ).2,
        (final(down_map).entries(), final(drag_map).0.entries(), out.drag_starts@) == drag_frame(
            old(down_map).entries(),
            old(drag_map).0.entries(),
            (pointer_down@, input_move@, input_presses@, pointer_map@, pointers@),
        ),
{
    let ghost downs0 = down_map.entries();
    let ghost drags0 = drag_map.0.entries();
    // Triggers during movement even if not over an entity.
    let mut drag_starts: Vec<Pointer<DragStart>> = Vec::new();
    let mut drags: Vec<Pointer<Drag>> = Vec::new();
    let buttons = PointerButton::all_buttons();
    let mut i: usize = 0;
    while i < input_move.len()
        invariant
            i <= input_move@.len(),
            down_map.wf(),
            down_map.entries() == downs0,
            drag_map.0.wf(),
            buttons@ == all_buttons(),
            drag_map.0.entries() == move_phase(drags0, downs0, input_move@.take(i as int)).0,
            drag_starts@ == move_phase(drags0, downs0, input_move@.take(i as int)).1,
            drags@ == move_phase(drags0, downs0, input_move@.take(i as int)).2,
        decreases input_move@.len() - i,
    {
        let m = input_move[i];
        let ghost dm = drag_map.0.entries();
        let ghost sm = drag_starts@;
        let ghost em = drags@;
        let mut j: usize = 0;
        while j < buttons.len()
            invariant
                j <= buttons@.len(),
                buttons@ == all_buttons(),
                down_map.wf(),
                down_map.entries() == downs0,
                drag_map.0.wf(),
                drag_map.0.entries() == move_buttons(dm, downs0, m, buttons@.take(j as int)).0,
                drag_starts@ == sm + move_buttons(dm, downs0, m, buttons@.take(j as int)).1,
                drags@ == em + move_buttons(dm, downs0, m, buttons@.take(j as int)).2,
            decreases buttons@.len() - j,
        {
            let b = buttons[j];
            let ghost prev = move_buttons(dm, downs0, m, buttons@.take(j as int));
            start_button_drags(drag_map, down_map, m.pointer_id, b, &mut drag_starts);
            advance_button_drags(drag_map, m.pointer_id, b, m.location, &mut drags);
            proof {
                assert(buttons@.take(j + 1).drop_last() =~= buttons@.take(j as int));
                assert(buttons@.take(j + 1).last() == b);
                let s1 = start_drags(prev.0, downs0, m.pointer_id, b);
                assert(drag_starts@ =~= sm + (prev.1 + s1.1));
                assert(drags@ =~= em + (prev.2 + drag_events(s1.0, m.pointer_id, b, m.location)));
            }
            j = j + 1;
        }
        proof {
            assert(buttons@.take(buttons@.len() as int) =~= buttons@);
            assert(input_move@.take(i + 1).drop_last() =~= input_move@.take(i as int));
            assert(input_move@.take(i + 1).last() == m);
        }
        i = i + 1;
    }
    proof {
        assert(input_move@.take(input_move@.len() as int) =~= input_move@);
    }
    // Triggers when a button is released over an entity.
    let clicks = send_clicks(pointer_up, down_map);
    // Triggers when a button is pressed over an entity.
    record_down_events(down_map, pointer_down);
    // Triggered for all button releases.
    let ghost downs2 = down_map.entries();
    let ghost drags2 = drag_map.0.entries();
    let mut drag_ends: Vec<Pointer<DragEnd>> = Vec::new();
    let mut i: usize = 0;
    while i < input_presses.len()
        invariant
            i <= input_presses@.len(),
            down_map.wf(),
            drag_map.0.wf(),
            pointers.wf(),
            down_map.entries() == release_phase(
                downs2,
                drags2,
                input_presses@.take(i as int),
                pointer_map@,
                pointers@,
            ).0,
            drag_map.0.entries() == release_phase(
                downs2,
                drags2,
                input_presses@.take(i as int),
                pointer_map@,
                pointers@,
            ).1,
            drag_ends@ == release_phase(
                downs2,
                drags2,
                input_presses@.take(i as int),
                pointer_map@,
                pointers@,
            ).2,
        decreases input_presses@.len() - i,
    {
        let press = input_presses[i];
        proof {
            assert(input_presses@.take(i + 1).drop_last() =~= input_presses@.take(i as int));
            assert(input_presses@.take(i + 1).last() == press);
        }
        if press.direction == PressDirection::Up {
            remove_group(down_map, press.pointer_id, press.button);
            match pointer_location(pointer_map, pointers, press.pointer_id) {
                Some(loc) => {
                    end_button_drags(drag_map, press.pointer_id, press.button, loc, &mut drag_ends);
                },
                None => {
                    proof {
                        assert(drag_ends@ + Seq::<Pointer<DragEnd>>::empty() =~= drag_ends@);
                    }
                },
            }
            remove_group(&mut drag_map.0, press.pointer_id, press.button);
        }
        i = i + 1;
    }
    proof {
        assert(input_presses@.take(input_presses@.len() as int) =~= input_presses@);
    }
    ClickDragEvents { clicks, drag_starts, drag_ends, drags }
}


/// The entries of the drag-over map: (pointer, button, entity dragged over) to the hit data.
pub type DragOverEntries = Seq<(ButtonKey, HitData)>;

/// A drag enter event on the target of an over event for every entity that the pointer drags
/// with button `b`, other than the target itself.
pub open spec fn enter_events(drags: DragEntries, o: Pointer<Over>, b: PointerButton) -> Seq<
    Pointer<DragEnter>,
>
    decreases drags.len(),
{
    if drags.len() == 0 {
        Seq::empty()
    } else {
        let before = enter_events(drags.drop_last(), o, b);
        let k = drags.last().0;
        if in_group(k, o.pointer_id, b) && k.entity != o.target {
            before.push(
                Pointer {
                    target: o.target,
                    pointer_id: o.pointer_id,
                    pointer_location: o.pointer_location,
                    event: DragEnter { button: b, dragged: k.entity, hit: o.event.hit },
                },
            )
        } else {
            before
        }
    }
}

/// The over events in order, each for all buttons: the target of an over event on which some
/// drag entered is recorded as dragged over, with its hit data.
pub open spec fn enter_phase(dov: DragOverEntries, drags: DragEntries, overs: Seq<Pointer<Over>>, bs: Seq<PointerButton>) -> (
    DragOverEntries,
    Seq<Pointer<DragEnter>>,
)
    decreases overs.len(), bs.len(),
{
    if overs.len() == 0 {
        (dov, Seq::empty())
    } else if bs.len() == 0 {
        enter_phase(dov, drags, overs.drop_last(), all_buttons())
    } else {
        let (d0, e0) = enter_phase(dov, drags, overs, bs.drop_last());
        let o = overs.last();
        let b = bs.last();
        let es = enter_events(drags, o, b);
        (
            if es.len() > 0 {
                entries_insert(
                    d0,
                    ButtonKey { pointer_id: o.pointer_id, button: b, entity: o.target },
                    o.event.hit,
                )
            } else {
                d0
            },
            e0 + es,
        )
    }
}

/// A drag over event on the target of a move event for every entity that the pointer drags with
/// button `b`, other than the target itself.
pub open spec fn drag_over_events_of(drags: DragEntries, mv: Pointer<Move>, b: PointerButton) -> Seq<
    Pointer<DragOver>,
>
    decreases drags.len(),
{
    if drags.len() == 0 {
        Seq::empty()
    } else {
        let before = drag_over_events_of(drags.drop_last(), mv, b);
        let k = drags.last().0;
        if in_group(k, mv.pointer_id, b) && k.entity != mv.target {
            before.push(
                Pointer {
                    target: mv.target,
                    pointer_id: mv.pointer_id,
                    pointer_location: mv.pointer_location,
                    event: DragOver { button: b, dragged: k.entity, hit: mv.event.hit },
                },
            )
        } else {
            before
        }
    }
}

/// The drag over events of the move events in order, each for all buttons.
pub open spec fn drag_over_phase(drags: DragEntries, moves: Seq<Pointer<Move>>, bs: Seq<PointerButton>) -> Seq<
    Pointer<DragOver>,
>
    decreases moves.len(), bs.len(),
{
    if moves.len() == 0 {
        Seq::empty()
    } else if bs.len() == 0 {
        drag_over_phase(drags, moves.drop_last(), all_buttons())
    } else {
        drag_over_phase(drags, moves, bs.drop_last()) + drag_over_events_of(
            drags,
            moves.last(),
            bs.last(),
        )
    }
}

/// On a drag end, a drag leave event for every entity the pointer button dragged over.
pub open spec fn end_leave_events(dov: DragOverEntries, de: Pointer<DragEnd>) -> Seq<Pointer<DragLeave>>
    decreases dov.len(),
{
    if dov.len() == 0 {
        Seq::empty()
    } else {
        let before = end_leave_events(dov.drop_last(), de);
        let (k, hit) = dov.last();
        if in_group(k, de.pointer_id, de.event.button) {
            before.push(
                Pointer {
                    target: k.entity,
                    pointer_id: de.pointer_id,
                    pointer_location: de.pointer_location,
                    event: DragLeave { button: de.event.button, dragged: de.target, hit },
                },
            )
        } else {
            before
        }
    }
}

/// On a drag end, a drop event on every entity the pointer button dragged over.
pub open spec fn drop_events(dov: DragOverEntries, de: Pointer<DragEnd>) -> Seq<Pointer<Drop>>
    decreases dov.len(),
{
    if dov.len() == 0 {
        Seq::empty()
    } else {
        let before = drop_events(dov.drop_last(), de);
        let (k, hit) = dov.last();
        if in_group(k, de.pointer_id, de.event.button) {
            before.push(
                Pointer {
                    target: k.entity,
                    pointer_id: de.pointer_id,
                    pointer_location: de.pointer_location,
                    event: Drop { button: de.event.button, dropped: de.target, hit },
                },
            )
        } else {
            before
        }
    }
}

/// The drag end events in order: each drops the dragged entity on every entity its pointer
/// button dragged over, which are then no longer dragged over.
pub open spec fn drop_phase(dov: DragOverEntries, ends: Seq<Pointer<DragEnd>>) -> (
    DragOverEntries,
    Seq<Pointer<DragLeave>>,
    Seq<Pointer<Drop>>,
)
    decreases ends.len(),
{
    if ends.len() == 0 {
        (dov, Seq::empty(), Seq::empty())
    } else {
        let (d0, l0, p0) = drop_phase(dov, ends.drop_last());
        let de = ends.last();
        (
            without_group(d0, de.pointer_id, de.event.button),
            l0 + end_leave_events(d0, de),
            p0 + drop_events(d0, de),
        )
    }
}

/// On an out event from an entity the pointer button dragged over, a drag leave event for every
/// entity that the pointer button drags.
pub open spec fn out_leave_events(drags: DragEntries, o: Pointer<Out>, b: PointerButton) -> Seq<
    Pointer<DragLeave>,
>
    decreases drags.len(),
{
    if drags.len() == 0 {
        Seq::empty()
    } else {
        let before = out_leave_events(drags.drop_last(), o, b);
        let k = drags.last().0;
        if in_group(k, o.pointer_id, b) {
            before.push(
                Pointer {
                    target: o.target,
                    pointer_id: o.pointer_id,
                    pointer_location: o.pointer_location,
                    event: DragLeave { button: b, dragged: k.entity, hit: o.event.hit },
                },
            )
        } else {
            before
        }
    }
}

/// The out events in order, each for all buttons: an out event from an entity that the pointer
/// button dragged over makes the drags leave it.
pub open spec fn leave_phase(dov: DragOverEntries, drags: DragEntries, outs: Seq<Pointer<Out>>, bs: Seq<PointerButton>) -> (
    DragOverEntries,
    Seq<Pointer<DragLeave>>,
)
    decreases outs.len(), bs.len(),
{
    if outs.len() == 0 {
        (dov, Seq::empty())
    } else if bs.len() == 0 {
        leave_phase(dov, drags, outs.drop_last(), all_buttons())
    } else {
        let (d0, l0) = leave_phase(dov, drags, outs, bs.drop_last());
        let o = outs.last();
        let key = ButtonKey { pointer_id: o.pointer_id, button: bs.last(), entity: o.target };
        if key_position(d0, key) >= 0 {
            (entries_remove(d0, key), l0 + out_leave_events(drags, o, bs.last()))
        } else {
            (d0, l0)
        }
    }
}

/// The drag enter event is of the pointer button on the entity of the key.
pub open spec fn entered(en: Pointer<DragEnter>, k: ButtonKey) -> bool {
    en.pointer_id == k.pointer_id && en.event.button == k.button && en.target == k.entity
}

/// The drag enter events of an over event are all on its target, by its pointer and the button.
proof fn lemma_enter_events_fields(drags: DragEntries, o: Pointer<Over>, b: PointerButton)
    ensures
        forall|i: int|
            0 <= i < enter_events(drags, o, b).len() ==> entered(
                #[trigger] enter_events(drags, o, b)[i],
                ButtonKey { pointer_id: o.pointer_id, button: b, entity: o.target },
            ),
    decreases drags.len(),
{
    if drags.len() > 0 {
        lemma_enter_events_fields(drags.drop_last(), o, b);
        let before = enter_events(drags.drop_last(), o, b);
        assert forall|i: int| 0 <= i < enter_events(drags, o, b).len() implies entered(
            #[trigger] enter_events(drags, o, b)[i],
            ButtonKey { pointer_id: o.pointer_id, button: b, entity: o.target },
        ) by {
            if i < before.len() {
                assert(enter_events(drags, o, b)[i] == before[i]);
            }
        }
    }
}

/// A key is dragged over after the over events only if it was before, or a drag enter of its
/// pointer button on its entity was sent.
proof fn lemma_enter_phase_keys(dov: DragOverEntries, drags: DragEntries, overs: Seq<Pointer<Over>>, bs: Seq<PointerButton>)
    requires
        no_dup_keys(dov),
    ensures
        no_dup_keys(enter_phase(dov, drags, overs, bs).0),
        forall|k: ButtonKey|
            #[trigger] has_key(enter_phase(dov, drags, overs, bs).0, k) ==> has_key(dov, k) || exists|i: int|
                0 <= i < enter_phase(dov, drags, overs, bs).1.len() && entered(enter_phase(dov, drags, overs, bs).1[i], k),
    decreases overs.len(), bs.len(),
{
    if overs.len() == 0 {
    } else if bs.len() == 0 {
        lemma_enter_phase_keys(dov, drags, overs.drop_last(), all_buttons());
    } else {
        lemma_enter_phase_keys(dov, drags, overs, bs.drop_last());
        let (d0, e0) = enter_phase(dov, drags, overs, bs.drop_last());
        let o = overs.last();
        let b = bs.last();
        let es = enter_events(drags, o, b);
        let key0 = ButtonKey { pointer_id: o.pointer_id, button: b, entity: o.target };
        let (d1, e1) = enter_phase(dov, drags, overs, bs);
        assert(e1 == e0 + es);
        lemma_entries_insert_keys(d0, key0, o.event.hit);
        lemma_enter_events_fields(drags, o, b);
        assert forall|k: ButtonKey| #[trigger] has_key(d1, k) implies has_key(dov, k) || exists|i: int|
            0 <= i < e1.len() && entered(e1[i], k) by {
            if has_key(d0, k) {
                if !has_key(dov, k) {
                    let i = choose|i: int| 0 <= i < e0.len() && entered(e0[i], k);
                    assert(e1[i] == e0[i]);
                }
            } else {
                assert(es.len() > 0 && k == key0);
                assert(e1[e0.len() as int] == es[0]);
                assert(entered(es[0], key0));
            }
        }
    }
}

/// After the drag ends, only keys that were dragged over remain, none of a pointer button whose
/// drag ended.
proof fn lemma_drop_phase_keys(dov: DragOverEntries, ends: Seq<Pointer<DragEnd>>)
    requires
        no_dup_keys(dov),
    ensures
        no_dup_keys(drop_phase(dov, ends).0),
        forall|k: ButtonKey|
            #[trigger] has_key(drop_phase(dov, ends).0, k) ==> has_key(dov, k) && forall|i: int|
                0 <= i < ends.len() ==> !in_group(k, #[trigger] ends[i].pointer_id, ends[i].event.button),
    decreases ends.len(),
{
    if ends.len() > 0 {
        let t = ends.drop_last();
        lemma_drop_phase_keys(dov, t);
        let d0 = drop_phase(dov, t).0;
        let de = ends.last();
        lemma_without_group(d0, de.pointer_id, de.event.button);
        let w = drop_phase(dov, ends).0;
        assert(w == without_group(d0, de.pointer_id, de.event.button));
        assert forall|k: ButtonKey| #[trigger] has_key(w, k) implies has_key(dov, k) && forall|i: int|
            0 <= i < ends.len() ==> !in_group(k, #[trigger] ends[i].pointer_id, ends[i].event.button) by {
            let a = choose|a: int| 0 <= a < w.len() && w[a].0 == k;
            assert(!in_group(w[a].0, de.pointer_id, de.event.button));
            let j = choose|j: int| 0 <= j < d0.len() && d0[j] == w[a];
            assert(has_key(d0, k));
            assert forall|i: int| 0 <= i < ends.len() implies !in_group(k, #[trigger] ends[i].pointer_id, ends[i].event.button) by {
                if i < t.len() {
                    assert(ends[i] == t[i]);
                }
            }
        }
    }
}

/// After the out events, only keys that were dragged over remain, and none of a pointer with
/// one of the buttons on an entity it left; all buttons count for every out event but the last,
/// which counts for the buttons `bs`.
proof fn lemma_leave_phase_keys(dov: DragOverEntries, drags: DragEntries, outs: Seq<Pointer<Out>>, bs: Seq<PointerButton>)
    requires
        no_dup_keys(dov),
    ensures
        no_dup_keys(leave_phase(dov, drags, outs, bs).0),
        forall|k: ButtonKey| #[trigger] has_key(leave_phase(dov, drags, outs, bs).0, k) ==> has_key(dov, k),
        forall|i: int, b: PointerButton|
            0 <= i < outs.len() && (i < outs.len() - 1 || bs.contains(b)) ==> !(#[trigger] has_key(
                leave_phase(dov, drags, outs, bs).0,
                ButtonKey { pointer_id: outs[i].pointer_id, button: b, entity: outs[i].target },
            )),
    decreases outs.len(), bs.len(),
{
    if outs.len() == 0 {
    } else if bs.len() == 0 {
        let t = outs.drop_last();
        lemma_leave_phase_keys(dov, drags, t, all_buttons());
        let r = leave_phase(dov, drags, outs, bs).0;
        assert forall|i: int, b: PointerButton|
            0 <= i < outs.len() && (i < outs.len() - 1 || bs.contains(b)) implies !(#[trigger] has_key(
                r,
                ButtonKey { pointer_id: outs[i].pointer_id, button: b, entity: outs[i].target },
            )) by {
            lemma_all_buttons(b);
            assert(t[i] == outs[i]);
            assert(i < t.len());
        }
    } else {
        lemma_leave_phase_keys(dov, drags, outs, bs.drop_last());
        let (d0, _l0) = leave_phase(dov, drags, outs, bs.drop_last());
        let o = outs.last();
        let key0 = ButtonKey { pointer_id: o.pointer_id, button: bs.last(), entity: o.target };
        let r = leave_phase(dov, drags, outs, bs).0;
        lemma_entries_remove_keys(d0, key0);
        lemma_key_position(d0, key0);
        assert(r == d0 || r == entries_remove(d0, key0));
        assert forall|k: ButtonKey| #[trigger] has_key(r, k) implies has_key(d0, k) by {}
        assert(!has_key(r, key0));
        assert forall|i: int, b: PointerButton|
            0 <= i < outs.len() && (i < outs.len() - 1 || bs.contains(b)) implies !(#[trigger] has_key(
                r,
                ButtonKey { pointer_id: outs[i].pointer_id, button: b, entity: outs[i].target },
            )) by {
            let k = ButtonKey { pointer_id: outs[i].pointer_id, button: b, entity: outs[i].target };
            if i < outs.len() - 1 || bs.drop_last().contains(b) {
                assert(!has_key(d0, k));
            } else {
                let j = choose|j: int| 0 <= j < bs.len() && bs[j] == b;
                if j < bs.len() - 1 {
                    assert(bs.drop_last()[j] == b);
                }
                assert(k == key0);
            }
        }
    }
}

/// An entity is dragged over only after a drag enter: at the end of a frame, every entity that a
/// pointer button drags over was already dragged over before the frame or got a drag enter event
/// of that pointer button in the frame; and no drag end of that pointer button, and no out event
/// of that pointer from that entity, came in the frame.
pub proof fn lemma_drag_over_needs_enter(
    dov: DragOverEntries,
    drags: DragEntries,
    overs: Seq<Pointer<Over>>,
    ends: Seq<Pointer<DragEnd>>,
    outs: Seq<Pointer<Out>>,
)
    requires
        no_dup_keys(dov),
    ensures
        forall|k: ButtonKey|
            #[trigger] has_key(
                leave_phase(drop_phase(enter_phase(dov, drags, overs, all_buttons()).0, ends).0, drags, outs, all_buttons()).0,
                k,
            ) ==> {
                &&& has_key(dov, k) || exists|i: int|
                    0 <= i < enter_phase(dov, drags, overs, all_buttons()).1.len() && entered(
                        enter_phase(dov, drags, overs, all_buttons()).1[i],
                        k,
                    )
                &&& forall|i: int| 0 <= i < ends.len() ==> !in_group(k, #[trigger] ends[i].pointer_id, ends[i].event.button)
                &&& forall|i: int|
                    0 <= i < outs.len() ==> !(#[trigger] outs[i].pointer_id == k.pointer_id && outs[i].target == k.entity)
            },
{
    let e = enter_phase(dov, drags, overs, all_buttons());
    lemma_enter_phase_keys(dov, drags, overs, all_buttons());
    let d = drop_phase(e.0, ends).0;
    lemma_drop_phase_keys(e.0, ends);
    let r = leave_phase(d, drags, outs, all_buttons()).0;
    lemma_leave_phase_keys(d, drags, outs, all_buttons());
    assert forall|k: ButtonKey| #[trigger] has_key(r, k) implies {
        &&& has_key(dov, k) || exists|i: int| 0 <= i < e.1.len() && entered(e.1[i], k)
        &&& forall|i: int| 0 <= i < ends.len() ==> !in_group(k, #[trigger] ends[i].pointer_id, ends[i].event.button)
        &&& forall|i: int| 0 <= i < outs.len() ==> !(#[trigger] outs[i].pointer_id == k.pointer_id && outs[i].target == k.entity)
    } by {
        assert(has_key(d, k));
        assert(has_key(e.0, k));
        assert forall|i: int| 0 <= i < outs.len() implies !(#[trigger] outs[i].pointer_id == k.pointer_id && outs[i].target
            == k.entity) by {
            lemma_all_buttons(k.button);
            if outs[i].pointer_id == k.pointer_id && outs[i].target == k.entity {
                assert(k == ButtonKey { pointer_id: outs[i].pointer_id, button: k.button, entity: outs[i].target });
            }
        }
    }
}

/// The inputs of one frame of drag-over tracking: the drags, and the over, drag end and out
/// events.
pub type DragOverFrame = (DragEntries, Seq<Pointer<Over>>, Seq<Pointer<DragEnd>>, Seq<Pointer<Out>>);

/// One frame of [`send_drag_over_events`] on the drag-over entries: the entries after it, and the
/// drag enter events it sends.
pub open spec fn drag_over_frame(dov: DragOverEntries, f: DragOverFrame) -> (DragOverEntries, Seq<Pointer<DragEnter>>) {
    let e = enter_phase(dov, f.0, f.1, all_buttons());
    (leave_phase(drop_phase(e.0, f.2).0, f.0, f.3, all_buttons()).0, e.1)
}

/// The drag-over entries after the frames, in order.
pub open spec fn run_drag_over_frames(dov: DragOverEntries, frames: Seq<DragOverFrame>) -> DragOverEntries
    decreases frames.len(),
{
    if frames.len() == 0 {
        dov
    } else {
        drag_over_frame(run_drag_over_frames(dov, frames.drop_last()), frames.last()).0
    }
}

/// The frame neither ends the drags of the key's pointer button nor moves its pointer out of the
/// key's entity.
pub open spec fn keeps_drag_over(f: DragOverFrame, k: ButtonKey) -> bool {
    &&& forall|i: int| 0 <= i < f.2.len() ==> !in_group(k, #[trigger] f.2[i].pointer_id, f.2[i].event.button)
    &&& forall|i: int| 0 <= i < f.3.len() ==> !(#[trigger] f.3[i].pointer_id == k.pointer_id && f.3[i].target == k.entity)
}

/// A frame keeps the drag-over keys unique.
proof fn lemma_run_drag_over_frames_unique(dov: DragOverEntries, frames: Seq<DragOverFrame>)
    requires
        no_dup_keys(dov),
    ensures
        no_dup_keys(run_drag_over_frames(dov, frames)),
    decreases frames.len(),
{
    if frames.len() > 0 {
        lemma_run_drag_over_frames_unique(dov, frames.drop_last());
        let prev = run_drag_over_frames(dov, frames.drop_last());
        let f = frames.last();
        lemma_enter_phase_keys(prev, f.0, f.1, all_buttons());
        let e = enter_phase(prev, f.0, f.1, all_buttons());
        lemma_drop_phase_keys(e.0, f.2);
        lemma_leave_phase_keys(drop_phase(e.0, f.2).0, f.0, f.3, all_buttons());
    }
}

/// The drag enter events sent in frame `l`.
pub open spec fn frame_drag_enters(dov: DragOverEntries, frames: Seq<DragOverFrame>, l: int) -> Seq<Pointer<DragEnter>> {
    drag_over_frame(run_drag_over_frames(dov, frames.take(l)), frames[l]).1
}

/// Some of the drag enter events is of the key's pointer button on its entity.
pub open spec fn enters_key(enters: Seq<Pointer<DragEnter>>, k: ButtonKey) -> bool {
    exists|i: int| 0 <= i < enters.len() && entered(#[trigger] enters[i], k)
}

/// An entity is dragged over only after a drag enter, over any run of frames: if a pointer button
/// drags over an entity after the frames and did not before them, some frame sent a drag enter of
/// that pointer button on that entity, and from that frame on no frame ended the pointer button's
/// drags or moved the pointer out of the entity.
pub proof fn lemma_drag_over_since_enter(dov: DragOverEntries, frames: Seq<DragOverFrame>, k: ButtonKey)
    requires
        no_dup_keys(dov),
        has_key(run_drag_over_frames(dov, frames), k),
        !has_key(dov, k),
    ensures
        exists|l: int|
            0 <= l < frames.len() && #[trigger] enters_key(frame_drag_enters(dov, frames, l), k) && forall|m: int|
                l <= m < frames.len() ==> keeps_drag_over(#[trigger] frames[m], k),
    decreases frames.len(),
{
    let t = frames.drop_last();
    let f = frames.last();
    let last = frames.len() - 1;
    lemma_run_drag_over_frames_unique(dov, t);
    let prev = run_drag_over_frames(dov, t);
    lemma_drag_over_needs_enter(prev, f.0, f.1, f.2, f.3);
    assert(frames[last] == f);
    assert(frames.take(last) =~= t);
    assert(keeps_drag_over(f, k));
    let enters = drag_over_frame(prev, f).1;
    assert(frame_drag_enters(dov, frames, last) == enters);
    if enters_key(enters, k) {
        assert forall|m: int| last <= m < frames.len() implies keeps_drag_over(#[trigger] frames[m], k) by {}
    } else {
        assert(has_key(prev, k));
        lemma_drag_over_since_enter(dov, t, k);
        let l = choose|l: int|
            0 <= l < t.len() && #[trigger] enters_key(frame_drag_enters(dov, t, l), k) && forall|m: int|
                l <= m < t.len() ==> keeps_drag_over(#[trigger] t[m], k);
        assert(t.take(l) =~= frames.take(l));
        assert(t[l] == frames[l]);
        assert(frame_drag_enters(dov, t, l) == frame_drag_enters(dov, frames, l));
        assert forall|m: int| l <= m < frames.len() implies keeps_drag_over(#[trigger] frames[m], k) by {
            if m < t.len() {
                assert(t[m] == frames[m]);
            }
        }
    }
}

/// The drag over event is the one that the move event makes for a drag of `k`: on the move's
/// target, by its pointer, at its location and with its hit, of the button and entity of `k`,
/// which the pointer drags and which is not the target.
pub open spec fn drag_over_from(d: Pointer<DragOver>, mv: Pointer<Move>, k: ButtonKey) -> bool {
    &&& d.target == mv.target
    &&& d.pointer_id == mv.pointer_id
    &&& d.pointer_location == mv.pointer_location
    &&& d.event.hit == mv.event.hit
    &&& k.pointer_id == mv.pointer_id
    &&& d.event.button == k.button
    &&& d.event.dragged == k.entity
    &&& k.entity != mv.target
}

proof fn lemma_drag_over_events_of(drags: DragEntries, mv: Pointer<Move>, b: PointerButton)
    ensures
        forall|i: int|
            0 <= i < drag_over_events_of(drags, mv, b).len() ==> exists|j: int|
                0 <= j < drags.len() && drags[j].0.button == b && drag_over_from(
                    #[trigger] drag_over_events_of(drags, mv, b)[i],
                    mv,
                    drags[j].0,
                ),
        forall|j: int|
            0 <= j < drags.len() && in_group(#[trigger] drags[j].0, mv.pointer_id, b) && drags[j].0.entity
                != mv.target ==> exists|i: int|
                0 <= i < drag_over_events_of(drags, mv, b).len() && drag_over_from(
                    drag_over_events_of(drags, mv, b)[i],
                    mv,
                    drags[j].0,
                ),
    decreases drags.len(),
{
    if drags.len() > 0 {
        let t = drags.drop_last();
        lemma_drag_over_events_of(t, mv, b);
        let r = drag_over_events_of(drags, mv, b);
        let r0 = drag_over_events_of(t, mv, b);
        let last = drags.len() - 1;
        assert(drags[last] == drags.last());
        assert forall|i: int| 0 <= i < r.len() implies exists|j: int|
            0 <= j < drags.len() && drags[j].0.button == b && drag_over_from(#[trigger] r[i], mv, drags[j].0) by {
            if i < r0.len() {
                assert(r[i] == r0[i]);
                let j = choose|j: int| 0 <= j < t.len() && t[j].0.button == b && drag_over_from(r0[i], mv, t[j].0);
                assert(drags[j] == t[j]);
            } else {
                assert(drag_over_from(r[i], mv, drags[last].0));
            }
        }
        assert forall|j: int|
            0 <= j < drags.len() && in_group(#[trigger] drags[j].0, mv.pointer_id, b) && drags[j].0.entity
                != mv.target implies exists|i: int| 0 <= i < r.len() && drag_over_from(r[i], mv, drags[j].0) by {
            if j < last {
                assert(drags[j] == t[j]);
                let i = choose|i: int| 0 <= i < r0.len() && drag_over_from(r0[i], mv, t[j].0);
                assert(r[i] == r0[i]);
            } else {
                assert(drag_over_from(r[r0.len() as int], mv, drags[j].0));
            }
        }
    }
}

/// The drag over event is made by one of the move events for one of the drags.
pub open spec fn drag_over_made(d: Pointer<DragOver>, moves: Seq<Pointer<Move>>, drags: DragEntries) -> bool {
    exists|m: int, j: int| 0 <= m < moves.len() && 0 <= j < drags.len() && drag_over_from(d, moves[m], drags[j].0)
}

proof fn lemma_drag_over_phase_sound(drags: DragEntries, moves: Seq<Pointer<Move>>, bs: Seq<PointerButton>)
    ensures
        forall|i: int|
            0 <= i < drag_over_phase(drags, moves, bs).len() ==> drag_over_made(
                #[trigger] drag_over_phase(drags, moves, bs)[i],
                moves,
                drags,
            ),
    decreases moves.len(), bs.len(),
{
    let r = drag_over_phase(drags, moves, bs);
    if moves.len() == 0 {
    } else if bs.len() == 0 {
        let t = moves.drop_last();
        lemma_drag_over_phase_sound(drags, t, all_buttons());
        assert(r == drag_over_phase(drags, t, all_buttons()));
        assert forall|i: int| 0 <= i < r.len() implies drag_over_made(#[trigger] r[i], moves, drags) by {
            assert(drag_over_made(r[i], t, drags));
            let (m, j) = choose|m: int, j: int| 0 <= m < t.len() && 0 <= j < drags.len() && drag_over_from(r[i], t[m], drags[j].0);
            assert(t[m] == moves[m]);
            assert(drag_over_from(r[i], moves[m], drags[j].0));
        }
    } else {
        let tb = bs.drop_last();
        let b = bs.last();
        let mv = moves.last();
        let last = moves.len() - 1;
        assert(moves[last] == mv);
        lemma_drag_over_phase_sound(drags, moves, tb);
        lemma_drag_over_events_of(drags, mv, b);
        let r0 = drag_over_phase(drags, moves, tb);
        let es = drag_over_events_of(drags, mv, b);
        assert(r == r0 + es);
        assert forall|i: int| 0 <= i < r.len() implies drag_over_made(#[trigger] r[i], moves, drags) by {
            if i < r0.len() {
                assert(r[i] == r0[i]);
                assert(drag_over_made(r0[i], moves, drags));
            } else {
                let k = i - r0.len();
                assert(r[i] == es[k]);
                let j = choose|j: int| 0 <= j < drags.len() && drags[j].0.button == b && drag_over_from(es[k], mv, drags[j].0);
                assert(drag_over_from(r[i], moves[last], drags[j].0));
            }
        }
    }
}

#[verifier::spinoff_prover]
proof fn lemma_drag_over_phase_complete(drags: DragEntries, moves: Seq<Pointer<Move>>, bs: Seq<PointerButton>)
    ensures
        forall|m: int, j: int|
            0 <= m < moves.len() && 0 <= j < drags.len() && #[trigger] drags[j].0.pointer_id == #[trigger] moves[m].pointer_id
                && drags[j].0.entity != moves[m].target && (m < moves.len() - 1 || bs.contains(drags[j].0.button))
                ==> exists|i: int|
                0 <= i < drag_over_phase(drags, moves, bs).len() && drag_over_from(
                    drag_over_phase(drags, moves, bs)[i],
                    moves[m],
                    drags[j].0,
                ),
    decreases moves.len(), bs.len(),
{
    let r = drag_over_phase(drags, moves, bs);
    if moves.len() == 0 {
    } else if bs.len() == 0 {
        let t = moves.drop_last();
        lemma_drag_over_phase_complete(drags, t, all_buttons());
        assert(r == drag_over_phase(drags, t, all_buttons()));
        assert forall|m: int, j: int|
            0 <= m < moves.len() && 0 <= j < drags.len() && #[trigger] drags[j].0.pointer_id == #[trigger] moves[m].pointer_id
                && drags[j].0.entity != moves[m].target && (m < moves.len() - 1 || bs.contains(drags[j].0.button))
                implies exists|i: int| 0 <= i < r.len() && drag_over_from(r[i], moves[m], drags[j].0) by {
            assert(t[m] == moves[m]);
            lemma_all_buttons(drags[j].0.button);
            assert(t[m].pointer_id == drags[j].0.pointer_id);
        }
    } else {
        let tb = bs.drop_last();
        let b = bs.last();
        let mv = moves.last();
        let last = moves.len() - 1;
        assert(moves[last] == mv);
        lemma_drag_over_phase_complete(drags, moves, tb);
        lemma_drag_over_events_of(drags, mv, b);
        let r0 = drag_over_phase(drags, moves, tb);
        let es = drag_over_events_of(drags, mv, b);
        assert(r == r0 + es);
        assert forall|m: int, j: int|
            0 <= m < moves.len() && 0 <= j < drags.len() && #[trigger] drags[j].0.pointer_id == #[trigger] moves[m].pointer_id
                && drags[j].0.entity != moves[m].target && (m < moves.len() - 1 || bs.contains(drags[j].0.button))
                implies exists|i: int| 0 <= i < r.len() && drag_over_from(r[i], moves[m], drags[j].0) by {
            if m < moves.len() - 1 || tb.contains(drags[j].0.button) {
                let i = choose|i: int| 0 <= i < r0.len() && drag_over_from(r0[i], moves[m], drags[j].0);
                assert(r[i] == r0[i]);
            } else {
                let q = choose|q: int| 0 <= q < bs.len() && bs[q] == drags[j].0.button;
                if q < bs.len() - 1 {
                    assert(tb[q] == bs[q]);
                }
                assert(drags[j].0.button == b);
                assert(in_group(drags[j].0, mv.pointer_id, b));
                let i = choose|i: int| 0 <= i < es.len() && drag_over_from(es[i], mv, drags[j].0);
                assert(r[r0.len() + i] == es[i]);
            }
        }
    }
}

/// The drag over events: every one is made by a move event for a drag of the moving pointer,
/// on the move's target, which is never the dragged entity itself; and every move event makes one
/// for each drag of its pointer, with any button, of an entity other than the move's target.
pub proof fn lemma_drag_over_events(drags: DragEntries, moves: Seq<Pointer<Move>>)
    ensures
        forall|i: int|
            0 <= i < drag_over_phase(drags, moves, all_buttons()).len() ==> (#[trigger] drag_over_phase(
                drags,
                moves,
                all_buttons(),
            )[i]).event.dragged != drag_over_phase(drags, moves, all_buttons())[i].target && drag_over_made(
                drag_over_phase(drags, moves, all_buttons())[i],
                moves,
                drags,
            ),
        forall|m: int, j: int|
            0 <= m < moves.len() && 0 <= j < drags.len() && #[trigger] drags[j].0.pointer_id == #[trigger] moves[m].pointer_id
                && drags[j].0.entity != moves[m].target ==> exists|i: int|
                0 <= i < drag_over_phase(drags, moves, all_buttons()).len() && drag_over_from(
                    drag_over_phase(drags, moves, all_buttons())[i],
                    moves[m],
                    drags[j].0,
                ),
{
    lemma_drag_over_phase_sound(drags, moves, all_buttons());
    lemma_drag_over_phase_complete(drags, moves, all_buttons());
    let r = drag_over_phase(drags, moves, all_buttons());
    assert forall|i: int| 0 <= i < r.len() implies (#[trigger] r[i]).event.dragged != r[i].target by {
        assert(drag_over_made(r[i], moves, drags));
        let (m, j) = choose|m: int, j: int| 0 <= m < moves.len() && 0 <= j < drags.len() && drag_over_from(r[i], moves[m], drags[j].0);
    }
    assert forall|m: int, j: int|
        0 <= m < moves.len() && 0 <= j < drags.len() && #[trigger] drags[j].0.pointer_id == #[trigger] moves[m].pointer_id
            && drags[j].0.entity != moves[m].target implies exists|i: int|
            0 <= i < r.len() && drag_over_from(r[i], moves[m], drags[j].0) by {
        lemma_all_buttons(drags[j].0.button);
    }
}

/// The drag enter event is the one that the over event makes for a drag of `k`: on the over
/// event's target, by its pointer, at its location and with its hit, of the button and entity of
/// `k`, which the pointer drags and which is not the target.
pub open spec fn drag_enter_from(d: Pointer<DragEnter>, mv: Pointer<Over>, k: ButtonKey) -> bool {
    &&& d.target == mv.target
    &&& d.pointer_id == mv.pointer_id
    &&& d.pointer_location == mv.pointer_location
    &&& d.event.hit == mv.event.hit
    &&& k.pointer_id == mv.pointer_id
    &&& d.event.button == k.button
    &&& d.event.dragged == k.entity
    &&& k.entity != mv.target
}

proof fn lemma_enter_events_of(drags: DragEntries, mv: Pointer<Over>, b: PointerButton)
    ensures
        forall|i: int|
            0 <= i < enter_events(drags, mv, b).len() ==> exists|j: int|
                0 <= j < drags.len() && drags[j].0.button == b && drag_enter_from(
                    #[trigger] enter_events(drags, mv, b)[i],
                    mv,
                    drags[j].0,
                ),
        forall|j: int|
            0 <= j < drags.len() && in_group(#[trigger] drags[j].0, mv.pointer_id, b) && drags[j].0.entity
                != mv.target ==> exists|i: int|
                0 <= i < enter_events(drags, mv, b).len() && drag_enter_from(
                    enter_events(drags, mv, b)[i],
                    mv,
                    drags[j].0,
                ),
    decreases drags.len(),
{
    if drags.len() > 0 {
        let t = drags.drop_last();
        lemma_enter_events_of(t, mv, b);
        let r = enter_events(drags, mv, b);
        let r0 = enter_events(t, mv, b);
        let last = drags.len() - 1;
        assert(drags[last] == drags.last());
        assert forall|i: int| 0 <= i < r.len() implies exists|j: int|
            0 <= j < drags.len() && drags[j].0.button == b && drag_enter_from(#[trigger] r[i], mv, drags[j].0) by {
            if i < r0.len() {
                assert(r[i] == r0[i]);
                let j = choose|j: int| 0 <= j < t.len() && t[j].0.button == b && drag_enter_from(r0[i], mv, t[j].0);
                assert(drags[j] == t[j]);
            } else {
                assert(drag_enter_from(r[i], mv, drags[last].0));
            }
        }
        assert forall|j: int|
            0 <= j < drags.len() && in_group(#[trigger] drags[j].0, mv.pointer_id, b) && drags[j].0.entity
                != mv.target implies exists|i: int| 0 <= i < r.len() && drag_enter_from(r[i], mv, drags[j].0) by {
            if j < last {
                assert(drags[j] == t[j]);
                let i = choose|i: int| 0 <= i < r0.len() && drag_enter_from(r0[i], mv, t[j].0);
                assert(r[i] == r0[i]);
            } else {
                assert(drag_enter_from(r[r0.len() as int], mv, drags[j].0));
            }
        }
    }
}

/// The drag enter event is made by one of the over events for one of the drags.
pub open spec fn drag_enter_made(d: Pointer<DragEnter>, moves: Seq<Pointer<Over>>, drags: DragEntries) -> bool {
    exists|m: int, j: int| 0 <= m < moves.len() && 0 <= j < drags.len() && drag_enter_from(d, moves[m], drags[j].0)
}

proof fn lemma_enter_phase_sound(dov: DragOverEntries, drags: DragEntries, moves: Seq<Pointer<Over>>, bs: Seq<PointerButton>)
    ensures
        forall|i: int|
            0 <= i < enter_phase(dov, drags, moves, bs).1.len() ==> drag_enter_made(
                #[trigger] enter_phase(dov, drags, moves, bs).1[i],
                moves,
                drags,
            ),
    decreases moves.len(), bs.len(),
{
    let r = enter_phase(dov, drags, moves, bs).1;
    if moves.len() == 0 {
    } else if bs.len() == 0 {
        let t = moves.drop_last();
        lemma_enter_phase_sound(dov, drags, t, all_buttons());
        assert(r == enter_phase(dov, drags, t, all_buttons()).1);
        assert forall|i: int| 0 <= i < r.len() implies drag_enter_made(#[trigger] r[i], moves, drags) by {
            assert(drag_enter_made(r[i], t, drags));
            let (m, j) = choose|m: int, j: int| 0 <= m < t.len() && 0 <= j < drags.len() && drag_enter_from(r[i], t[m], drags[j].0);
            assert(t[m] == moves[m]);
            assert(drag_enter_from(r[i], moves[m], drags[j].0));
        }
    } else {
        let tb = bs.drop_last();
        let b = bs.last();
        let mv = moves.last();
        let last = moves.len() - 1;
        assert(moves[last] == mv);
        lemma_enter_phase_sound(dov, drags, moves, tb);
        lemma_enter_events_of(drags, mv, b);
        let r0 = enter_phase(dov, drags, moves, tb).1;
        let es = enter_events(drags, mv, b);
        assert(r == r0 + es);
        assert forall|i: int| 0 <= i < r.len() implies drag_enter_made(#[trigger] r[i], moves, drags) by {
            if i < r0.len() {
                assert(r[i] == r0[i]);
                assert(drag_enter_made(r0[i], moves, drags));
            } else {
                let k = i - r0.len();
                assert(r[i] == es[k]);
                let j = choose|j: int| 0 <= j < drags.len() && drags[j].0.button == b && drag_enter_from(es[k], mv, drags[j].0);
                assert(drag_enter_from(r[i], moves[last], drags[j].0));
            }
        }
    }
}

#[verifier::spinoff_prover]
proof fn lemma_enter_phase_complete(dov: DragOverEntries, drags: DragEntries, moves: Seq<Pointer<Over>>, bs: Seq<PointerButton>)
    ensures
        forall|m: int, j: int|
            0 <= m < moves.len() && 0 <= j < drags.len() && #[trigger] drags[j].0.pointer_id == #[trigger] moves[m].pointer_id
                && drags[j].0.entity != moves[m].target && (m < moves.len() - 1 || bs.contains(drags[j].0.button))
                ==> exists|i: int|
                0 <= i < enter_phase(dov, drags, moves, bs).1.len() && drag_enter_from(
                    enter_phase(dov, drags, moves, bs).1[i],
                    moves[m],
                    drags[j].0,
                ),
    decreases moves.len(), bs.len(),
{
    let r = enter_phase(dov, drags, moves, bs).1;
    if moves.len() == 0 {
    } else if bs.len() == 0 {
        let t = moves.drop_last();
        lemma_enter_phase_complete(dov, drags, t, all_buttons());
        assert(r == enter_phase(dov, drags, t, all_buttons()).1);
        assert forall|m: int, j: int|
            0 <= m < moves.len() && 0 <= j < drags.len() && #[trigger] drags[j].0.pointer_id == #[trigger] moves[m].pointer_id
                && drags[j].0.entity != moves[m].target && (m < moves.len() - 1 || bs.contains(drags[j].0.button))
                implies exists|i: int| 0 <= i < r.len() && drag_enter_from(r[i], moves[m], drags[j].0) by {
            assert(t[m] == moves[m]);
            lemma_all_buttons(drags[j].0.button);
            assert(t[m].pointer_id == drags[j].0.pointer_id);
        }
    } else {
        let tb = bs.drop_last();
        let b = bs.last();
        let mv = moves.last();
        let last = moves.len() - 1;
        assert(moves[last] == mv);
        lemma_enter_phase_complete(dov, drags, moves, tb);
        lemma_enter_events_of(drags, mv, b);
        let r0 = enter_phase(dov, drags, moves, tb).1;
        let es = enter_events(drags, mv, b);
        assert(r == r0 + es);
        assert forall|m: int, j: int|
            0 <= m < moves.len() && 0 <= j < drags.len() && #[trigger] drags[j].0.pointer_id == #[trigger] moves[m].pointer_id
                && drags[j].0.entity != moves[m].target && (m < moves.len() - 1 || bs.contains(drags[j].0.button))
                implies exists|i: int| 0 <= i < r.len() && drag_enter_from(r[i], moves[m], drags[j].0) by {
            if m < moves.len() - 1 || tb.contains(drags[j].0.button) {
                let i = choose|i: int| 0 <= i < r0.len() && drag_enter_from(r0[i], moves[m], drags[j].0);
                assert(r[i] == r0[i]);
            } else {
                let q = choose|q: int| 0 <= q < bs.len() && bs[q] == drags[j].0.button;
                if q < bs.len() - 1 {
                    assert(tb[q] == bs[q]);
                }
                assert(drags[j].0.button == b);
                assert(in_group(drags[j].0, mv.pointer_id, b));
                let i = choose|i: int| 0 <= i < es.len() && drag_enter_from(es[i], mv, drags[j].0);
                assert(r[r0.len() + i] == es[i]);
            }
        }
    }
}

/// The drag enter events: every one is made by an over event for a drag of its pointer, on the
/// over event's target, which is never the dragged entity itself; and every over event makes one
/// for each drag of its pointer, with any button, of an entity other than its target.
pub proof fn lemma_drag_enter_events(dov: DragOverEntries, drags: DragEntries, moves: Seq<Pointer<Over>>)
    ensures
        forall|i: int|
            0 <= i < enter_phase(dov, drags, moves, all_buttons()).1.len() ==> (#[trigger] enter_phase(
                dov,
                drags,
                moves,
                all_buttons(),
            ).1[i]).event.dragged != enter_phase(dov, drags, moves, all_buttons()).1[i].target && drag_enter_made(
                enter_phase(dov, drags, moves, all_buttons()).1[i],
                moves,
                drags,
            ),
        forall|m: int, j: int|
            0 <= m < moves.len() && 0 <= j < drags.len() && #[trigger] drags[j].0.pointer_id == #[trigger] moves[m].pointer_id
                && drags[j].0.entity != moves[m].target ==> exists|i: int|
                0 <= i < enter_phase(dov, drags, moves, all_buttons()).1.len() && drag_enter_from(
                    enter_phase(dov, drags, moves, all_buttons()).1[i],
                    moves[m],
                    drags[j].0,
                ),
{
    lemma_enter_phase_sound(dov, drags, moves, all_buttons());
    lemma_enter_phase_complete(dov, drags, moves, all_buttons());
    let r = enter_phase(dov, drags, moves, all_buttons()).1;
    assert forall|i: int| 0 <= i < r.len() implies (#[trigger] r[i]).event.dragged != r[i].target by {
        assert(drag_enter_made(r[i], moves, drags));
        let (m, j) = choose|m: int, j: int| 0 <= m < moves.len() && 0 <= j < drags.len() && drag_enter_from(r[i], moves[m], drags[j].0);
    }
    assert forall|m: int, j: int|
        0 <= m < moves.len() && 0 <= j < drags.len() && #[trigger] drags[j].0.pointer_id == #[trigger] moves[m].pointer_id
            && drags[j].0.entity != moves[m].target implies exists|i: int|
            0 <= i < r.len() && drag_enter_from(r[i], moves[m], drags[j].0) by {
        lemma_all_buttons(drags[j].0.button);
    }
}

/// The drop is the one of drag end `de` on the dragged-over entry `e`: on the entity dragged
/// over, of the entity whose drag ended, by its pointer button, with the entry's hit data.
pub open spec fn drop_of(d: Pointer<Drop>, de: Pointer<DragEnd>, e: (ButtonKey, HitData)) -> bool {
    &&& e.0 == ButtonKey { pointer_id: de.pointer_id, button: de.event.button, entity: d.target }
    &&& d.pointer_id == de.pointer_id
    &&& d.pointer_location == de.pointer_location
    &&& d.event.button == de.event.button
    &&& d.event.dropped == de.target
    &&& d.event.hit == e.1
}

/// The drops of a drag end: one on each entity that its pointer button dragged over, and no other.
pub proof fn lemma_drop_events(dov: DragOverEntries, de: Pointer<DragEnd>)
    ensures
        forall|i: int|
            0 <= i < drop_events(dov, de).len() ==> exists|j: int|
                0 <= j < dov.len() && drop_of(#[trigger] drop_events(dov, de)[i], de, dov[j]),
        forall|j: int|
            0 <= j < dov.len() && in_group(#[trigger] dov[j].0, de.pointer_id, de.event.button) ==> exists|i: int|
                0 <= i < drop_events(dov, de).len() && drop_of(drop_events(dov, de)[i], de, dov[j]),
    decreases dov.len(),
{
    if dov.len() > 0 {
        let t = dov.drop_last();
        lemma_drop_events(t, de);
        let r = drop_events(dov, de);
        let r0 = drop_events(t, de);
        let last = dov.len() - 1;
        assert(dov[last] == dov.last());
        assert forall|i: int| 0 <= i < r.len() implies exists|j: int| 0 <= j < dov.len() && drop_of(#[trigger] r[i], de, dov[j]) by {
            if i < r0.len() {
                assert(r[i] == r0[i]);
                let j = choose|j: int| 0 <= j < t.len() && drop_of(r0[i], de, t[j]);
                assert(dov[j] == t[j]);
            } else {
                assert(drop_of(r[i], de, dov[last]));
            }
        }
        assert forall|j: int| 0 <= j < dov.len() && in_group(#[trigger] dov[j].0, de.pointer_id, de.event.button) implies exists|
            i: int,
        | 0 <= i < r.len() && drop_of(r[i], de, dov[j]) by {
            if j < last {
                assert(dov[j] == t[j]);
                let i = choose|i: int| 0 <= i < r0.len() && drop_of(r0[i], de, t[j]);
                assert(r[i] == r0[i]);
            } else {
                assert(drop_of(r[r0.len() as int], de, dov[j]));
            }
        }
    }
}

/// The drag leave is the one of drag end `de` on the dragged-over entry `e`: on the entity dragged
/// over, of the entity whose drag ended, by its pointer button, with the entry's hit data.
pub open spec fn end_leave_of(l: Pointer<DragLeave>, de: Pointer<DragEnd>, e: (ButtonKey, HitData)) -> bool {
    &&& e.0 == ButtonKey { pointer_id: de.pointer_id, button: de.event.button, entity: l.target }
    &&& l.pointer_id == de.pointer_id
    &&& l.pointer_location == de.pointer_location
    &&& l.event.button == de.event.button
    &&& l.event.dragged == de.target
    &&& l.event.hit == e.1
}

/// The drag leaves of a drag end: one on each entity that its pointer button dragged over, and no
/// other.
pub proof fn lemma_end_leave_events(dov: DragOverEntries, de: Pointer<DragEnd>)
    ensures
        forall|i: int|
            0 <= i < end_leave_events(dov, de).len() ==> exists|j: int|
                0 <= j < dov.len() && end_leave_of(#[trigger] end_leave_events(dov, de)[i], de, dov[j]),
        forall|j: int|
            0 <= j < dov.len() && in_group(#[trigger] dov[j].0, de.pointer_id, de.event.button) ==> exists|i: int|
                0 <= i < end_leave_events(dov, de).len() && end_leave_of(end_leave_events(dov, de)[i], de, dov[j]),
    decreases dov.len(),
{
    if dov.len() > 0 {
        let t = dov.drop_last();
        lemma_end_leave_events(t, de);
        let r = end_leave_events(dov, de);
        let r0 = end_leave_events(t, de);
        let last = dov.len() - 1;
        assert(dov[last] == dov.last());
        assert forall|i: int| 0 <= i < r.len() implies exists|j: int| 0 <= j < dov.len() && end_leave_of(#[trigger] r[i], de, dov[j]) by {
            if i < r0.len() {
                assert(r[i] == r0[i]);
                let j = choose|j: int| 0 <= j < t.len() && end_leave_of(r0[i], de, t[j]);
                assert(dov[j] == t[j]);
            } else {
                assert(end_leave_of(r[i], de, dov[last]));
            }
        }
        assert forall|j: int| 0 <= j < dov.len() && in_group(#[trigger] dov[j].0, de.pointer_id, de.event.button) implies exists|
            i: int,
        | 0 <= i < r.len() && end_leave_of(r[i], de, dov[j]) by {
            if j < last {
                assert(dov[j] == t[j]);
                let i = choose|i: int| 0 <= i < r0.len() && end_leave_of(r0[i], de, t[j]);
                assert(r[i] == r0[i]);
            } else {
                assert(end_leave_of(r[r0.len() as int], de, dov[j]));
            }
        }
    }
}

/// The events generated by [`send_drag_over_events`].
pub struct DragOverEvents {
    pub drag_enters: Vec<Pointer<DragEnter>>,
    pub drag_overs: Vec<Pointer<DragOver>>,
    pub drag_leaves: Vec<Pointer<DragLeave>>,
    pub drops: Vec<Pointer<Drop>>,
}

fn emit_enters(drag_map: &DragMap, o: Pointer<Over>, b: PointerButton, out: &mut Vec<Pointer<DragEnter>>)
    ensures
        final(out)@ == old(out)@ + enter_events(drag_map.0.entries(), o, b),
{
    let ghost d = drag_map.0.entries();
    let ghost e0 = out@;
    let mut i: usize = 0;
    while i < drag_map.0.len()
        invariant
            i <= d.len(),
            d == drag_map.0.entries(),
            out@ == e0 + enter_events(d.take(i as int), o, b),
        decreases d.len() - i,
    {
        let k = drag_map.0.entry_at(i).0;
        proof {
            assert(d.take(i + 1).drop_last() =~= d.take(i as int));
            assert(d.take(i + 1).last() == d[i as int]);
        }
        if k.pointer_id == o.pointer_id && k.button == b && k.entity != o.target {
            out.push(
                Pointer::new(
                    o.pointer_id,
                    o.pointer_location,
                    o.target,
                    DragEnter { button: b, dragged: k.entity, hit: o.event.hit },
                ),
            );
            proof {
                let prev = enter_events(d.take(i as int), o, b);
                assert(e0 + prev.push(out@.last()) =~= (e0 + prev).push(out@.last()));
            }
        }
        i = i + 1;
    }
    proof {
        assert(d.take(d.len() as int) =~= d);
    }
}

fn emit_drag_overs(drag_map: &DragMap, mv: Pointer<Move>, b: PointerButton, out: &mut Vec<Pointer<DragOver>>)
    ensures
        final(out)@ == old(out)@ + drag_over_events_of(drag_map.0.entries(), mv, b),
{
    let ghost d = drag_map.0.entries();
    let ghost e0 = out@;
    let mut i: usize = 0;
    while i < drag_map.0.len()
        invariant
            i <= d.len(),
            d == drag_map.0.entries(),
            out@ == e0 + drag_over_events_of(d.take(i as int), mv, b),
        decreases d.len() - i,
    {
        let k = drag_map.0.entry_at(i).0;
        proof {
            assert(d.take(i + 1).drop_last() =~= d.take(i as int));
            assert(d.take(i + 1).last() == d[i as int]);
        }
        if k.pointer_id == mv.pointer_id && k.button == b && k.entity != mv.target {
            out.push(
                Pointer::new(
                    mv.pointer_id,
                    mv.pointer_location,
                    mv.target,
                    DragOver { button: b, dragged: k.entity, hit: mv.event.hit },
                ),
            );
            proof {
                let prev = drag_over_events_of(d.take(i as int), mv, b);
                assert(e0 + prev.push(out@.last()) =~= (e0 + prev).push(out@.last()));
            }
        }
        i = i + 1;
    }
    proof {
        assert(d.take(d.len() as int) =~= d);
    }
}

fn emit_leaves_and_drops(
    dov: &VecMap<ButtonKey, HitData>,
    de: Pointer<DragEnd>,
    leaves: &mut Vec<Pointer<DragLeave>>,
    drops: &mut Vec<Pointer<Drop>>,
)
    ensures
        final(leaves)@ == old(leaves)@ + end_leave_events(dov.entries(), de),
        final(drops)@ == old(drops)@ + drop_events(dov.entries(), de),
{
    let ghost d = dov.entries();
    let ghost l0 = leaves@;
    let ghost p0 = drops@;
    let mut i: usize = 0;
    while i < dov.len()
        invariant
            i <= d.len(),
            d == dov.entries(),
            leaves@ == l0 + end_leave_events(d.take(i as int), de),
            drops@ == p0 + drop_events(d.take(i as int), de),
        decreases d.len() - i,
    {
        let (k, hit) = *dov.entry_at(i);
        proof {
            assert(d.take(i + 1).drop_last() =~= d.take(i as int));
            assert(d.take(i + 1).last() == d[i as int]);
        }
        if k.pointer_id == de.pointer_id && k.button == de.event.button {
            leaves.push(
                Pointer::new(
                    de.pointer_id,
                    de.pointer_location,
                    k.entity,
                    DragLeave { button: de.event.button, dragged: de.target, hit },
                ),
            );
            drops.push(
                Pointer::new(
                    de.pointer_id,
                    de.pointer_location,
                    k.entity,
                    Drop { button: de.event.button, dropped: de.target, hit },
                ),
            );
            proof {
                let pl = end_leave_events(d.take(i as int), de);
                assert(l0 + pl.push(leaves@.last()) =~= (l0 + pl).push(leaves@.last()));
                let pd = drop_events(d.take(i as int), de);
                assert(p0 + pd.push(drops@.last()) =~= (p0 + pd).push(drops@.last()));
            }
        }
        i = i + 1;
    }
    proof {
        assert(d.take(d.len() as int) =~= d);
    }
}

fn emit_out_leaves(drag_map: &DragMap, o: Pointer<Out>, b: PointerButton, out: &mut Vec<Pointer<DragLeave>>)
    ensures
        final(out)@ == old(out)@ + out_leave_events(drag_map.0.entries(), o, b),
{
    let ghost d = drag_map.0.entries();
    let ghost e0 = out@;
    let mut i: usize = 0;
    while i < drag_map.0.len()
        invariant
            i <= d.len(),
            d == drag_map.0.entries(),
            out@ == e0 + out_leave_events(d.take(i as int), o, b),
        decreases d.len() - i,
    {
        let k = drag_map.0.entry_at(i).0;
        proof {
            assert(d.take(i + 1).drop_last() =~= d.take(i as int));
            assert(d.take(i + 1).last() == d[i as int]);
        }
        if k.pointer_id == o.pointer_id && k.button == b {
            out.push(
                Pointer::new(
                    o.pointer_id,
                    o.pointer_location,
                    o.target,
                    DragLeave { button: b, dragged: k.entity, hit: o.event.hit },
                ),
            );
            proof {
                let prev = out_leave_events(d.take(i as int), o, b);
                assert(e0 + prev.push(out@.last()) =~= (e0 + prev).push(out@.last()));
            }
        }
        i = i + 1;
    }
    proof {
        assert(d.take(d.len() as int) =~= d);
    }
}

/// Uses pointer events to determine when drag-over events occur.
///
/// In order: an over event on an entity other than one the pointer button drags sends a drag
/// enter event for each such drag, and the entity becomes dragged over; a move event sends a drag
/// over event for each drag of the pointer button other than of the target; a drag end sends,
/// for every entity the pointer button dragged over, a drag leave and a drop event, and forgets
/// them; an out event from an entity the pointer button dragged over forgets it and sends a drag
/// leave event for each drag of the pointer button.
pub fn send_drag_over_events(
    drag_map: &DragMap,
    pointer_over: &Vec<Pointer<Over>>,
    pointer_move: &Vec<Pointer<Move>>,
    pointer_out: &Vec<Pointer<Out>>,
    pointer_drag_end: &Vec<Pointer<DragEnd>>,
    drag_over_map: &mut VecMap<ButtonKey, HitData>,
) -> (out: DragOverEvents)
    requires
        old(drag_over_map).wf(),
    ensures
        final(drag_over_map).wf(),
        out.drag_enters@ == enter_phase(
            old(drag_over_map).entries(),
            drag_map.0.entries(),
            pointer_over@,
            all_buttons(),
        ).1,
        out.drag_overs@ == drag_over_phase(drag_map.0.entries(), pointer_move@, all_buttons()),
        out.drag_leaves@ == drop_phase(
            enter_phase(
                old(drag_over_map).entries(),
                drag_map.0.entries(),
                pointer_over@,
                all_buttons(),
            ).0,
            pointer_drag_end@,
        ).1 + leave_phase(
            drop_phase(
                enter_phase(
                    old(drag_over_map).entries(),
                    drag_map.0.entries(),
                    pointer_over@,
                    all_buttons(),
                ).0,
                pointer_drag_end@,
            ).0,
            drag_map.0.entries(),
            pointer_out@,
            all_buttons(),
        ).1,
        out.drops@ == drop_phase(
            enter_phase(
                old(drag_over_map).entries(),
                drag_map.0.entries(),
                pointer_over@,
                all_buttons(),
            ).0,
            pointer_drag_end@,
        ).2,
        final(drag_over_map).entries() == leave_phase(
            drop_phase(
                enter_phase(
                    old(drag_over_map).entries(),
                    drag_map.0.entries(),
                    pointer_over@,
                    all_buttons(),
                ).0,
                pointer_drag_end@,
            ).0,
            drag_map.0.entries(),
            pointer_out@,
            all_buttons(),
        ).0,
        (final(drag_over_map).entries(), out.drag_enters@) == drag_over_frame(
            old(drag_over_map).entries(),
            (drag_map.0.entries(), pointer_over@, pointer_drag_end@, pointer_out@),
        ),
{
    let buttons = PointerButton::all_buttons();
    let ghost drags = drag_map.0.entries();
    let ghost dov0 = drag_over_map.entries();
    // Fire drag enter events.
    let mut drag_enters: Vec<Pointer<DragEnter>> = Vec::new();
    let mut i: usize = 0;
    while i < pointer_over.len()
        invariant
            i <= pointer_over@.len(),
            buttons@ == all_buttons(),
            drags == drag_map.0.entries(),
            drag_over_map.wf(),
            drag_over_map.entries() == enter_phase(dov0, drags, pointer_over@.take(i as int), all_buttons()).0,
            drag_enters@ == enter_phase(dov0, drags, pointer_over@.take(i as int), all_buttons()).1,
        decreases pointer_over@.len() - i,
    {
        let o = pointer_over[i];
        let ghost ovs = pointer_over@.take(i + 1);
        proof {
            assert(ovs.drop_last() =~= pointer_over@.take(i as int));
            assert(ovs.last() == o);
            assert(all_buttons().take(0) =~= Seq::<PointerButton>::empty());
        }
        let mut j: usize = 0;
        while j < buttons.len()
            invariant
                j <= buttons@.len(),
                buttons@ == all_buttons(),
                ovs.len() > 0,
                ovs.last() == o,
                drags == drag_map.0.entries(),
                drag_over_map.wf(),
                drag_over_map.entries() == enter_phase(dov0, drags, ovs, buttons@.take(j as int)).0,
                drag_enters@ == enter_phase(dov0, drags, ovs, buttons@.take(j as int)).1,
            decreases buttons@.len() - j,
        {
            let b = buttons[j];
            proof {
                assert(buttons@.take(j + 1).drop_last() =~= buttons@.take(j as int));
                assert(buttons@.take(j + 1).last() == b);
            }
            let before = drag_enters.len();
            let ghost e0 = drag_enters@;
            emit_enters(drag_map, o, b, &mut drag_enters);
            if drag_enters.len() > before {
                drag_over_map.insert(
                    ButtonKey { pointer_id: o.pointer_id, button: b, entity: o.target },
                    o.event.hit,
                );
            }
            j = j + 1;
        }
        proof {
            assert(buttons@.take(buttons@.len() as int) =~= buttons@);
        }
        i = i + 1;
    }
    proof {
        assert(pointer_over@.take(pointer_over@.len() as int) =~= pointer_over@);
    }
    // Fire drag over events.
    let mut drag_overs: Vec<Pointer<DragOver>> = Vec::new();
    let mut i: usize = 0;
    while i < pointer_move.len()
        invariant
            i <= pointer_move@.len(),
            buttons@ == all_buttons(),
            drags == drag_map.0.entries(),
            drag_overs@ == drag_over_phase(drags, pointer_move@.take(i as int), all_buttons()),
        decreases pointer_move@.len() - i,
    {
        let mv = pointer_move[i];
        let ghost mvs = pointer_move@.take(i + 1);
        proof {
            assert(mvs.drop_last() =~= pointer_move@.take(i as int));
            assert(mvs.last() == mv);
            assert(all_buttons().take(0) =~= Seq::<PointerButton>::empty());
        }
        let mut j: usize = 0;
        while j < buttons.len()
            invariant
                j <= buttons@.len(),
                buttons@ == all_buttons(),
                mvs.len() > 0,
                mvs.last() == mv,
                drags == drag_map.0.entries(),
                drag_overs@ == drag_over_phase(drags, mvs, buttons@.take(j as int)),
            decreases buttons@.len() - j,
        {
            let b = buttons[j];
            proof {
                assert(buttons@.take(j + 1).drop_last() =~= buttons@.take(j as int));
                assert(buttons@.take(j + 1).last() == b);
            }
            emit_drag_overs(drag_map, mv, b, &mut drag_overs);
            j = j + 1;
        }
        proof {
            assert(buttons@.take(buttons@.len() as int) =~= buttons@);
        }
        i = i + 1;
    }
    proof {
        assert(pointer_move@.take(pointer_move@.len() as int) =~= pointer_move@);
    }
    // Fire drag leave and drop events when the pointer stops dragging.
    let ghost dov1 = drag_over_map.entries();
    let mut drag_leaves: Vec<Pointer<DragLeave>> = Vec::new();
    let mut drops: Vec<Pointer<Drop>> = Vec::new();
    let mut i: usize = 0;
    while i < pointer_drag_end.len()
        invariant
            i <= pointer_drag_end@.len(),
            drag_over_map.wf(),
            drag_over_map.entries() == drop_phase(dov1, pointer_drag_end@.take(i as int)).0,
            drag_leaves@ == drop_phase(dov1, pointer_drag_end@.take(i as int)).1,
            drops@ == drop_phase(dov1, pointer_drag_end@.take(i as int)).2,
        decreases pointer_drag_end@.len() - i,
    {
        let de = pointer_drag_end[i];
        proof {
            assert(pointer_drag_end@.take(i + 1).drop_last() =~= pointer_drag_end@.take(i as int));
            assert(pointer_drag_end@.take(i + 1).last() == de);
        }
        emit_leaves_and_drops(drag_over_map, de, &mut drag_leaves, &mut drops);
        remove_group(drag_over_map, de.pointer_id, de.event.button);
        i = i + 1;
    }
    proof {
        assert(pointer_drag_end@.take(pointer_drag_end@.len() as int) =~= pointer_drag_end@);
    }
    // Fire drag leave events when the pointer goes out of the target.
    let ghost dov2 = drag_over_map.entries();
    let ghost l2 = drag_leaves@;
    let mut i: usize = 0;
    while i < pointer_out.len()
        invariant
            i <= pointer_out@.len(),
            buttons@ == all_buttons(),
            drags == drag_map.0.entries(),
            drag_over_map.wf(),
            drag_over_map.entries() == leave_phase(dov2, drags, pointer_out@.take(i as int), all_buttons()).0,
            drag_leaves@ == l2 + leave_phase(dov2, drags, pointer_out@.take(i as int), all_buttons()).1,
        decreases pointer_out@.len() - i,
    {
        let o = pointer_out[i];
        let ghost os = pointer_out@.take(i + 1);
        proof {
            assert(os.drop_last() =~= pointer_out@.take(i as int));
            assert(os.last() == o);
            assert(all_buttons().take(0) =~= Seq::<PointerButton>::empty());
        }
        let mut j: usize = 0;
        while j < buttons.len()
            invariant
                j <= buttons@.len(),
                buttons@ == all_buttons(),
                os.len() > 0,
                os.last() == o,
                drags == drag_map.0.entries(),
                drag_over_map.wf(),
                drag_over_map.entries() == leave_phase(dov2, drags, os, buttons@.take(j as int)).0,
                drag_leaves@ == l2 + leave_phase(dov2, drags, os, buttons@.take(j as int)).1,
            decreases buttons@.len() - j,
        {
            let b = buttons[j];
            proof {
                assert(buttons@.take(j + 1).drop_last() =~= buttons@.take(j as int));
                assert(buttons@.take(j + 1).last() == b);
            }
            let key = ButtonKey { pointer_id: o.pointer_id, button: b, entity: o.target };
            proof {
                lemma_key_position(drag_over_map.entries(), key);
                drag_over_map.lemma_view();
                crate::map::lemma_entries_to_map_dom(drag_over_map.entries(), key);
            }
            let ghost lb = drag_leaves@;
            match drag_over_map.remove(&key) {
                Some(_) => {
                    emit_out_leaves(drag_map, o, b, &mut drag_leaves);
                    proof {
                        let prev = leave_phase(dov2, drags, os, buttons@.take(j as int)).1;
                        assert(l2 + (prev + out_leave_events(drags, o, b)) =~= (l2 + prev)
                            + out_leave_events(drags, o, b));
                    }
                },
                None => {},
            }
            j = j + 1;
        }
        proof {
            assert(buttons@.take(buttons@.len() as int) =~= buttons@);
        }
        i = i + 1;
    }
    proof {
        assert(pointer_out@.take(pointer_out@.len() as int) =~= pointer_out@);
    }
    DragOverEvents { drag_enters, drag_overs, drag_leaves, drops }
}


} // verus!
