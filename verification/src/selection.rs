//! Multiselect: which entities are selected, and the select and deselect events that change it.
use crate::events::{Click, Down, Pointer};
use crate::map::{entries_to_map, lemma_entries_to_map_index, no_dup_keys, MapKey, VecMap};
use crate::pointer::{
    Entity, InputPress, Location, PointerButton, PointerId, PointerLocation, PressDirection,
};
use vstd::prelude::*;

verus! {

/// Runtime settings for selection.
#[derive(Clone, Copy, PartialEq, Eq, Structural, Debug)]
pub struct SelectionSettings {
    /// A pointer clicks and nothing is beneath it, should everything be deselected?
    pub click_nothing_deselect_all: bool,
    /// When true, `Ctrl` and `Shift` inputs will trigger multiselect.
    pub use_multiselect_default_inputs: bool,
}

impl Default for SelectionSettings {
    fn default() -> (s: SelectionSettings)
        ensures
            s.click_nothing_deselect_all && s.use_multiselect_default_inputs,
    {
        SelectionSettings { click_nothing_deselect_all: true, use_multiselect_default_inputs: true }
    }
}

/// Input state that defines whether or not the multiselect button is active. This is often the
/// `Ctrl` or `Shift` keys.
#[derive(Clone, Copy, PartialEq, Eq, Structural, Debug)]
pub struct PointerMultiselect {
    /// `true` if the multiselect button(s) is active.
    pub is_pressed: bool,
}

/// Tracks the current selection state of the entity.
#[derive(Clone, Copy, PartialEq, Eq, Structural, Debug)]
pub struct PickSelection {
    /// `true` if this entity is selected.
    pub is_selected: bool,
}

/// Fires when an entity has been selected
#[derive(Clone, Copy, PartialEq, Eq, Structural, Debug)]
pub struct Select;

/// Fires when an entity has been deselected
#[derive(Clone, Copy, PartialEq, Eq, Structural, Debug)]
pub struct Deselect;

/// Marker for pickable entities that should not trigger a deselection when picked, such as gizmos
/// or other pickable UI entities.
#[derive(Clone, Copy, PartialEq, Eq, Structural, Debug)]
pub struct NoDeselect;

/// Sets the multiselect state of every pointer to whether a multiselect key is pressed (both
/// control and both shift keys, read by the caller).
pub fn multiselect_events(is_multiselect_pressed: bool, pointers: &mut Vec<PointerMultiselect>)
    ensures
        final(pointers)@.len() == old(pointers)@.len(),
        forall|i: int|
            0 <= i < final(pointers)@.len() ==> (#[trigger] final(pointers)@[i]).is_pressed
                == is_multiselect_pressed,
{
    let mut i: usize = 0;
    while i < pointers.len()
        invariant
            i <= pointers@.len(),
            pointers@.len() == old(pointers)@.len(),
            forall|j: int| 0 <= j < i ==> (#[trigger] pointers@[j]).is_pressed == is_multiselect_pressed,
        decreases pointers@.len() - i,
    {
        pointers.set(i, PointerMultiselect { is_pressed: is_multiselect_pressed });
        i = i + 1;
    }
}

/// The pointers with their multiselect state and location.
pub type SelectionPointers = Seq<(PointerId, PointerMultiselect, PointerLocation)>;

/// The multiselect state of the first pointer with id `id`, or `false` if there is none.
pub open spec fn multiselect_of(pointers: SelectionPointers, id: PointerId) -> bool
    decreases pointers.len(),
{
    if pointers.len() == 0 {
        false
    } else if pointers[0].0 == id {
        pointers[0].1.is_pressed
    } else {
        multiselect_of(pointers.drop_first(), id)
    }
}

/// The multiselect state and location of the first pointer with id `id` that has a location.
pub open spec fn located_pointer(pointers: SelectionPointers, id: PointerId) -> Option<(bool, Location)>
    decreases pointers.len(),
{
    if pointers.len() == 0 {
        None
    } else if pointers[0].0 == id && pointers[0].2.location is Some {
        Some((pointers[0].1.is_pressed, pointers[0].2.location.unwrap()))
    } else {
        located_pointer(pointers.drop_first(), id)
    }
}

/// A deselect event, by pointer `id` at `loc`, for every selected entity other than `except`.
pub open spec fn deselect_selected(
    selectables: Seq<(Entity, PickSelection)>,
    id: PointerId,
    loc: Location,
    except: Option<Entity>,
) -> Seq<Pointer<Deselect>>
    decreases selectables.len(),
{
    if selectables.len() == 0 {
        Seq::empty()
    } else {
        let before = deselect_selected(selectables.drop_last(), id, loc, except);
        let (e, s) = selectables.last();
        if s.is_selected && except != Some(e) {
            before.push(Pointer { target: e, pointer_id: id, pointer_location: loc, event: Deselect })
        } else {
            before
        }
    }
}

/// The deselections of the down events: a down event of a pointer without multiselect on a target
/// that may deselect deselects every other selected entity.
pub open spec fn down_deselections(
    downs: Seq<Pointer<Down>>,
    pointers: SelectionPointers,
    no_deselect: Map<Entity, NoDeselect>,
    selectables: Seq<(Entity, PickSelection)>,
) -> Seq<Pointer<Deselect>>
    decreases downs.len(),
{
    if downs.len() == 0 {
        Seq::empty()
    } else {
        let d = downs.last();
        down_deselections(downs.drop_last(), pointers, no_deselect, selectables) + if !multiselect_of(
            pointers,
            d.pointer_id,
        ) && !no_deselect.contains_key(d.target) {
            deselect_selected(selectables, d.pointer_id, d.pointer_location, Some(d.target))
        } else {
            Seq::empty()
        }
    }
}

/// Some down event is of pointer `id`.
pub open spec fn pointer_went_down(downs: Seq<Pointer<Down>>, id: PointerId) -> bool {
    exists|i: int| 0 <= i < downs.len() && downs[i].pointer_id == id
}

/// The deselections of primary presses on nothing: a primary button press of a located pointer
/// without multiselect that went down on no entity deselects every selected entity.
pub open spec fn nothing_deselections(
    presses: Seq<InputPress>,
    downs: Seq<Pointer<Down>>,
    pointers: SelectionPointers,
    selectables: Seq<(Entity, PickSelection)>,
) -> Seq<Pointer<Deselect>>
    decreases presses.len(),
{
    if presses.len() == 0 {
        Seq::empty()
    } else {
        let p = presses.last();
        let target = located_pointer(pointers, p.pointer_id);
        nothing_deselections(presses.drop_last(), downs, pointers, selectables) + if p.button
            == PointerButton::Primary && p.direction == PressDirection::Down && target is Some
            && !pointer_went_down(downs, p.pointer_id) && !target.unwrap().0 {
            deselect_selected(selectables, p.pointer_id, target.unwrap().1, None)
        } else {
            Seq::empty()
        }
    }
}

/// The selections of the clicks: a click on a selectable entity selects it if it is not
/// selected; with multiselect, a click on a selected entity deselects it instead.
pub open spec fn click_selections(
    clicks: Seq<Pointer<Click>>,
    pointers: SelectionPointers,
    selectables: Map<Entity, PickSelection>,
) -> Seq<Pointer<Select>>
    decreases clicks.len(),
{
    if clicks.len() == 0 {
        Seq::empty()
    } else {
        let c = clicks.last();
        let before = click_selections(clicks.drop_last(), pointers, selectables);
        if selectables.contains_key(c.target) && !selectables[c.target].is_selected {
            before.push(
                Pointer {
                    target: c.target,
                    pointer_id: c.pointer_id,
                    pointer_location: c.pointer_location,
                    event: Select,
                },
            )
        } else {
            before
        }
    }
}

/// The deselections of the clicks: with multiselect, a click on a selected entity deselects it.
pub open spec fn click_deselections(
    clicks: Seq<Pointer<Click>>,
    pointers: SelectionPointers,
    selectables: Map<Entity, PickSelection>,
) -> Seq<Pointer<Deselect>>
    decreases clicks.len(),
{
    if clicks.len() == 0 {
        Seq::empty()
    } else {
        let c = clicks.last();
        let before = click_deselections(clicks.drop_last(), pointers, selectables);
        if selectables.contains_key(c.target) && selectables[c.target].is_selected
            && multiselect_of(pointers, c.pointer_id) {
            before.push(
                Pointer {
                    target: c.target,
                    pointer_id: c.pointer_id,
                    pointer_location: c.pointer_location,
                    event: Deselect,
                },
            )
        } else {
            before
        }
    }
}

/// The select and deselect events of [`send_selection_events`].
pub struct SelectionEvents {
    pub selections: Vec<Pointer<Select>>,
    pub deselections: Vec<Pointer<Deselect>>,
}

fn find_multiselect(pointers: &Vec<(PointerId, PointerMultiselect, PointerLocation)>, id: PointerId) -> (b: bool)
    ensures
        b == multiselect_of(pointers@, id),
{
    let mut i: usize = 0;
    proof {
        assert(pointers@.skip(0) =~= pointers@);
    }
    while i < pointers.len()
        invariant
            i <= pointers@.len(),
            multiselect_of(pointers@, id) == multiselect_of(pointers@.skip(i as int), id),
        decreases pointers@.len() - i,
    {
        proof {
            assert(pointers@.skip(i as int).drop_first() =~= pointers@.skip(i + 1));
            assert(pointers@.skip(i as int)[0] == pointers@[i as int]);
        }
        if pointers[i].0 == id {
            return pointers[i].1.is_pressed;
        }
        i = i + 1;
    }
    false
}

fn find_located(pointers: &Vec<(PointerId, PointerMultiselect, PointerLocation)>, id: PointerId) -> (r: Option<(bool, Location)>)
    ensures
        r == located_pointer(pointers@, id),
{
    let mut i: usize = 0;
    proof {
        assert(pointers@.skip(0) =~= pointers@);
    }
    while i < pointers.len()
        invariant
            i <= pointers@.len(),
            located_pointer(pointers@, id) == located_pointer(pointers@.skip(i as int), id),
        decreases pointers@.len() - i,
    {
        proof {
            assert(pointers@.skip(i as int).drop_first() =~= pointers@.skip(i + 1));
            assert(pointers@.skip(i as int)[0] == pointers@[i as int]);
        }
        let (pid, multi, loc) = pointers[i];
        if pid == id {
            match loc.location {
                Some(l) => {
                    return Some((multi.is_pressed, l));
                },
                None => {},
            }
        }
        i = i + 1;
    }
    None
}

fn push_deselect_selected(
    out: &mut Vec<Pointer<Deselect>>,
    selectables: &VecMap<Entity, PickSelection>,
    id: PointerId,
    loc: Location,
    except: Option<Entity>,
)
    ensures
        final(out)@ == old(out)@ + deselect_selected(selectables.entries(), id, loc, except),
{
    let ghost s = selectables.entries();
    let ghost o0 = out@;
    let mut i: usize = 0;
    while i < selectables.len()
        invariant
            i <= s.len(),
            s == selectables.entries(),
            out@ == o0 + deselect_selected(s.take(i as int), id, loc, except),
        decreases s.len() - i,
    {
        let (e, sel) = *selectables.entry_at(i);
        proof {
            assert(s.take(i + 1).drop_last() =~= s.take(i as int));
            assert(s.take(i + 1).last() == s[i as int]);
        }
        let is_except = match except {
            Some(x) => x == e,
            None => false,
        };
        if sel.is_selected && !is_except {
            out.push(Pointer::new(id, loc, e, Deselect));
            proof {
                let prev = deselect_selected(s.take(i as int), id, loc, except);
                assert(o0 + prev.push(out@.last()) =~= (o0 + prev).push(out@.last()));
            }
        }
        i = i + 1;
    }
    proof {
        assert(s.take(s.len() as int) =~= s);
    }
}

fn went_down(downs: &Vec<Pointer<Down>>, id: PointerId) -> (b: bool)
    ensures
        b == pointer_went_down(downs@, id),
{
    let mut i: usize = 0;
    while i < downs.len()
        invariant
            i <= downs@.len(),
            forall|j: int| 0 <= j < i ==> downs@[j].pointer_id != id,
        decreases downs@.len() - i,
    {
        if downs[i].pointer_id == id {
            proof {
                assert(downs@[i as int].pointer_id == id);
            }
            return true;
        }
        i = i + 1;
    }
    false
}

/// Determines which entities have been selected or deselected, and sends the corresponding
/// [`Select`] and [`Deselect`] events.
///
/// - A down event of a pointer without multiselect, on a target that may deselect, deselects
///   every other selected entity.
/// - If enabled in the settings, a primary press of a pointer without multiselect that went down
///   on no entity deselects every selected entity.
/// - A click on a selectable entity selects it when it is not selected; with multiselect, a click
///   on a selected entity deselects it.
pub fn send_selection_events(
    settings: &SelectionSettings,
    pointer_down: &Vec<Pointer<Down>>,
    presses: &Vec<InputPress>,
    pointer_click: &Vec<Pointer<Click>>,
    pointers: &Vec<(PointerId, PointerMultiselect, PointerLocation)>,
    no_deselect: &VecMap<Entity, NoDeselect>,
    selectables: &VecMap<Entity, PickSelection>,
) -> (out: SelectionEvents)
    requires
        selectables.wf(),
    ensures
        out.selections@ == click_selections(pointer_click@, pointers@, selectables@),
        out.deselections@ == down_deselections(
            pointer_down@,
            pointers@,
            no_deselect@,
            selectables.entries(),
        ) + (if settings.click_nothing_deselect_all {
            nothing_deselections(presses@, pointer_down@, pointers@, selectables.entries())
        } else {
            Seq::empty()
        }) + click_deselections(pointer_click@, pointers@, selectables@),
{
    let mut deselections: Vec<Pointer<Deselect>> = Vec::new();
    let mut i: usize = 0;
    while i < pointer_down.len()
        invariant
            i <= pointer_down@.len(),
            deselections@ == down_deselections(
                pointer_down@.take(i as int),
                pointers@,
                no_deselect@,
                selectables.entries(),
            ),
        decreases pointer_down@.len() - i,
    {
        let d = pointer_down[i];
        proof {
            assert(pointer_down@.take(i + 1).drop_last() =~= pointer_down@.take(i as int));
            assert(pointer_down@.take(i + 1).last() == d);
        }
        let multiselect = find_multiselect(pointers, d.pointer_id);
        let target_can_deselect = !no_deselect.contains_key(&d.target);
        if !multiselect && target_can_deselect {
            push_deselect_selected(
                &mut deselections,
                selectables,
                d.pointer_id,
                d.pointer_location,
                Some(d.target),
            );
        } else {
            proof {
                assert(deselections@ + Seq::<Pointer<Deselect>>::empty() =~= deselections@);
            }
        }
        i = i + 1;
    }
    proof {
        assert(pointer_down@.take(pointer_down@.len() as int) =~= pointer_down@);
    }
    let ghost after_downs = deselections@;
    if settings.click_nothing_deselect_all {
        let mut i: usize = 0;
        while i < presses.len()
            invariant
                i <= presses@.len(),
                deselections@ == after_downs + nothing_deselections(
                    presses@.take(i as int),
                    pointer_down@,
                    pointers@,
                    selectables.entries(),
                ),
            decreases presses@.len() - i,
        {
            let p = presses[i];
            proof {
                assert(presses@.take(i + 1).drop_last() =~= presses@.take(i as int));
                assert(presses@.take(i + 1).last() == p);
            }
            let ghost prev = nothing_deselections(
                presses@.take(i as int),
                pointer_down@,
                pointers@,
                selectables.entries(),
            );
            let mut done = false;
            if p.is_just_down(PointerButton::Primary) {
                match find_located(pointers, p.pointer_id) {
                    Some((multiselect, location)) => {
                        if !went_down(pointer_down, p.pointer_id) && !multiselect {
                            push_deselect_selected(
                                &mut deselections,
                                selectables,
                                p.pointer_id,
                                location,
                                None,
                            );
                            proof {
                                let ds = deselect_selected(
                                    selectables.entries(),
                                    p.pointer_id,
                                    location,
                                    None,
                                );
                                assert(after_downs + (prev + ds) =~= (after_downs + prev) + ds);
                            }
                            done = true;
                        }
                    },
                    None => {},
                }
            }
            if !done {
                proof {
                    assert(prev + Seq::<Pointer<Deselect>>::empty() =~= prev);
                }
            }
            i = i + 1;
        }
        proof {
            assert(presses@.take(presses@.len() as int) =~= presses@);
        }
    } else {
        proof {
            assert(deselections@ + Seq::<Pointer<Deselect>>::empty() =~= deselections@);
        }
    }
    let ghost after_presses = deselections@;
    let mut selections: Vec<Pointer<Select>> = Vec::new();
    let mut i: usize = 0;
    while i < pointer_click.len()
        invariant
            i <= pointer_click@.len(),
            selectables.wf(),
            selections@ == click_selections(pointer_click@.take(i as int), pointers@, selectables@),
            deselections@ == after_presses + click_deselections(
                pointer_click@.take(i as int),
                pointers@,
                selectables@,
            ),
        decreases pointer_click@.len() - i,
    {
        let c = pointer_click[i];
        proof {
            assert(pointer_click@.take(i + 1).drop_last() =~= pointer_click@.take(i as int));
            assert(pointer_click@.take(i + 1).last() == c);
        }
        let multiselect = find_multiselect(pointers, c.pointer_id);
        match selectables.get(&c.target) {
            Some(selection) => {
                if multiselect {
                    if selection.is_selected {
                        deselections.push(
                            Pointer::new(c.pointer_id, c.pointer_location, c.target, Deselect),
                        );
                        proof {
                            let prev = click_deselections(
                                pointer_click@.take(i as int),
                                pointers@,
                                selectables@,
                            );
                            assert(after_presses + prev.push(deselections@.last()) =~= (
                            after_presses + prev).push(deselections@.last()));
                        }
                    } else {
                        selections.push(Pointer::new(c.pointer_id, c.pointer_location, c.target, Select));
                    }
                } else if !selection.is_selected {
                    selections.push(Pointer::new(c.pointer_id, c.pointer_location, c.target, Select));
                }
            },
            None => {},
        }
        i = i + 1;
    }
    proof {
        assert(pointer_click@.take(pointer_click@.len() as int) =~= pointer_click@);
    }
    SelectionEvents { selections, deselections }
}

/// Some event in the list targets entity `e`.
pub open spec fn targets<E>(events: Seq<Pointer<E>>, e: Entity) -> bool {
    exists|i: int| 0 <= i < events.len() && events[i].target == e
}

/// Update entity selection state from the select and deselect events: an entity that a deselect
/// event targets ends up deselected, otherwise an entity that a select event targets ends up
/// selected, and every other entity keeps its state.
pub fn update_state_from_events(
    selectables: &mut VecMap<Entity, PickSelection>,
    selections: &Vec<Pointer<Select>>,
    deselections: &Vec<Pointer<Deselect>>,
)
    requires
        old(selectables).wf(),
    ensures
        final(selectables).wf(),
        forall|e: Entity| #[trigger]
            final(selectables)@.contains_key(e) <==> old(selectables)@.contains_key(e),
        forall|e: Entity|
            #[trigger] old(selectables)@.contains_key(e) ==> final(selectables)@[e].is_selected == (
            if targets(deselections@, e) {
                false
            } else if targets(selections@, e) {
                true
            } else {
                old(selectables)@[e].is_selected
            }),
{
    let ghost start = selectables@;
    let mut i: usize = 0;
    while i < selections.len()
        invariant
            i <= selections@.len(),
            selectables.wf(),
            forall|e: Entity| #[trigger] selectables@.contains_key(e) <==> start.contains_key(e),
            forall|e: Entity|
                #[trigger] selectables@.contains_key(e) ==> selectables@[e].is_selected == (
                if exists|j: int| 0 <= j < i && selections@[j].target == e {
                    true
                } else {
                    start[e].is_selected
                }),
        decreases selections@.len() - i,
    {
        let t = selections[i].target;
        if selectables.contains_key(&t) {
            selectables.insert(t, PickSelection { is_selected: true });
        }
        proof {
            assert forall|e: Entity| #[trigger] selectables@.contains_key(e) implies selectables@[e].is_selected
                == (if exists|j: int| 0 <= j < i + 1 && selections@[j].target == e {
                true
            } else {
                start[e].is_selected
            }) by {
                if e == t {
                    assert(selections@[i as int].target == e);
                } else if exists|j: int| 0 <= j < i + 1 && selections@[j].target == e {
                    let j = choose|j: int| 0 <= j < i + 1 && selections@[j].target == e;
                    assert(j < i);
                }
            }
        }
        i = i + 1;
    }
    let ghost mid = selectables@;
    proof {
        assert forall|e: Entity| #[trigger] mid.contains_key(e) implies mid[e].is_selected == (
        if targets(selections@, e) {
            true
        } else {
            start[e].is_selected
        }) by {
            if targets(selections@, e) {
                let j = choose|j: int| 0 <= j < selections@.len() && selections@[j].target == e;
                assert(selections@[j].target == e);
            }
        }
    }
    let mut i: usize = 0;
    while i < deselections.len()
        invariant
            i <= deselections@.len(),
            selectables.wf(),
            forall|e: Entity| #[trigger] selectables@.contains_key(e) <==> start.contains_key(e),
            forall|e: Entity| #[trigger] mid.contains_key(e) <==> start.contains_key(e),
            forall|e: Entity|
                #[trigger] mid.contains_key(e) ==> mid[e].is_selected == (if targets(selections@, e) {
                    true
                } else {
                    start[e].is_selected
                }),
            forall|e: Entity|
                #[trigger] selectables@.contains_key(e) ==> selectables@[e].is_selected == (
                if exists|j: int| 0 <= j < i && deselections@[j].target == e {
                    false
                } else {
                    mid[e].is_selected
                }),
        decreases deselections@.len() - i,
    {
        let t = deselections[i].target;
        if selectables.contains_key(&t) {
            selectables.insert(t, PickSelection { is_selected: false });
        }
        proof {
            assert forall|e: Entity| #[trigger] selectables@.contains_key(e) implies selectables@[e].is_selected
                == (if exists|j: int| 0 <= j < i + 1 && deselections@[j].target == e {
                false
            } else {
                mid[e].is_selected
            }) by {
                if e == t {
                    assert(deselections@[i as int].target == e);
                } else if exists|j: int| 0 <= j < i + 1 && deselections@[j].target == e {
                    let j = choose|j: int| 0 <= j < i + 1 && deselections@[j].target == e;
                    assert(j < i);
                }
            }
        }
        i = i + 1;
    }
    proof {
        assert forall|e: Entity| #[trigger] start.contains_key(e) implies selectables@[e].is_selected
            == (if targets(deselections@, e) {
            false
        } else if targets(selections@, e) {
            true
        } else {
            start[e].is_selected
        }) by {
            assert(selectables@.contains_key(e));
            assert(mid.contains_key(e));
            if targets(deselections@, e) {
                let j = choose|j: int|
                    0 <= j < deselections@.len() && deselections@[j].target == e;
                assert(deselections@[j].target == e);
                assert(exists|j: int| 0 <= j < i && deselections@[j].target == e);
            } else {
                assert(!exists|j: int| 0 <= j < i && deselections@[j].target == e);
            }
        }
    }
}


/// An entity is selected in the entries.
pub open spec fn selected_in(s: Seq<(Entity, PickSelection)>, e: Entity) -> bool {
    exists|k: int| 0 <= k < s.len() && s[k].0 == e && #[trigger] s[k].1.is_selected
}

proof fn lemma_targets_concat<E>(a: Seq<Pointer<E>>, b: Seq<Pointer<E>>, e: Entity)
    ensures
        targets(a + b, e) <==> (targets(a, e) || targets(b, e)),
{
    if targets(a + b, e) {
        let i = choose|i: int| 0 <= i < (a + b).len() && (a + b)[i].target == e;
        if i < a.len() {
            assert(a[i] == (a + b)[i]);
        } else {
            assert(b[i - a.len()] == (a + b)[i]);
        }
    }
    if targets(a, e) {
        let i = choose|i: int| 0 <= i < a.len() && a[i].target == e;
        assert((a + b)[i] == a[i]);
    }
    if targets(b, e) {
        let i = choose|i: int| 0 <= i < b.len() && b[i].target == e;
        assert((a + b)[a.len() + i] == b[i]);
    }
}

proof fn lemma_targets_push<E>(a: Seq<Pointer<E>>, x: Pointer<E>, e: Entity)
    ensures
        targets(a.push(x), e) <==> (targets(a, e) || x.target == e),
{
    if targets(a.push(x), e) {
        let i = choose|i: int| 0 <= i < a.push(x).len() && a.push(x)[i].target == e;
        if i < a.len() {
            assert(a[i] == a.push(x)[i]);
        }
    }
    if targets(a, e) {
        let i = choose|i: int| 0 <= i < a.len() && a[i].target == e;
        assert(a.push(x)[i] == a[i]);
    }
    if x.target == e {
        assert(a.push(x)[a.len() as int] == x);
    }
}

/// Only selected entities are deselected by a deselect-all.
proof fn lemma_deselect_selected_targets(
    s: Seq<(Entity, PickSelection)>,
    id: PointerId,
    loc: Location,
    except: Option<Entity>,
    e: Entity,
)
    requires
        targets(deselect_selected(s, id, loc, except), e),
    ensures
        selected_in(s, e),
    decreases s.len(),
{
    let t = s.drop_last();
    let (x, sel) = s.last();
    let before = deselect_selected(t, id, loc, except);
    if sel.is_selected && except != Some(x) {
        lemma_targets_push(
            before,
            Pointer { target: x, pointer_id: id, pointer_location: loc, event: Deselect },
            e,
        );
    }
    if targets(before, e) {
        lemma_deselect_selected_targets(t, id, loc, except, e);
        let k = choose|k: int| 0 <= k < t.len() && t[k].0 == e && #[trigger] t[k].1.is_selected;
        assert(s[k] == t[k]);
    } else {
        assert(s[s.len() - 1] == (x, sel));
    }
}

proof fn lemma_down_deselections_targets(
    downs: Seq<Pointer<Down>>,
    pointers: SelectionPointers,
    no_deselect: Map<Entity, NoDeselect>,
    s: Seq<(Entity, PickSelection)>,
    e: Entity,
)
    requires
        targets(down_deselections(downs, pointers, no_deselect, s), e),
    ensures
        selected_in(s, e),
    decreases downs.len(),
{
    let d = downs.last();
    let before = down_deselections(downs.drop_last(), pointers, no_deselect, s);
    let here = if !multiselect_of(pointers, d.pointer_id) && !no_deselect.contains_key(d.target) {
        deselect_selected(s, d.pointer_id, d.pointer_location, Some(d.target))
    } else {
        Seq::empty()
    };
    lemma_targets_concat(before, here, e);
    if targets(before, e) {
        lemma_down_deselections_targets(downs.drop_last(), pointers, no_deselect, s, e);
    } else {
        lemma_deselect_selected_targets(s, d.pointer_id, d.pointer_location, Some(d.target), e);
    }
}

proof fn lemma_nothing_deselections_targets(
    presses: Seq<InputPress>,
    downs: Seq<Pointer<Down>>,
    pointers: SelectionPointers,
    s: Seq<(Entity, PickSelection)>,
    e: Entity,
)
    requires
        targets(nothing_deselections(presses, downs, pointers, s), e),
    ensures
        selected_in(s, e),
    decreases presses.len(),
{
    let p = presses.last();
    let target = located_pointer(pointers, p.pointer_id);
    let before = nothing_deselections(presses.drop_last(), downs, pointers, s);
    let here = if p.button == PointerButton::Primary && p.direction == PressDirection::Down
        && target is Some && !pointer_went_down(downs, p.pointer_id) && !target.unwrap().0 {
        deselect_selected(s, p.pointer_id, target.unwrap().1, None)
    } else {
        Seq::empty()
    };
    lemma_targets_concat(before, here, e);
    if targets(before, e) {
        lemma_nothing_deselections_targets(presses.drop_last(), downs, pointers, s, e);
    } else {
        lemma_deselect_selected_targets(s, p.pointer_id, target.unwrap().1, None, e);
    }
}

proof fn lemma_click_deselections_targets(
    clicks: Seq<Pointer<Click>>,
    pointers: SelectionPointers,
    m: Map<Entity, PickSelection>,
    e: Entity,
)
    requires
        targets(click_deselections(clicks, pointers, m), e),
    ensures
        m.contains_key(e) && m[e].is_selected,
    decreases clicks.len(),
{
    let c = clicks.last();
    let before = click_deselections(clicks.drop_last(), pointers, m);
    if m.contains_key(c.target) && m[c.target].is_selected && multiselect_of(pointers, c.pointer_id) {
        lemma_targets_push(
            before,
            Pointer { target: c.target, pointer_id: c.pointer_id, pointer_location: c.pointer_location, event: Deselect },
            e,
        );
    }
    if targets(before, e) {
        lemma_click_deselections_targets(clicks.drop_last(), pointers, m, e);
    }
}

proof fn lemma_click_selections_targets(
    clicks: Seq<Pointer<Click>>,
    pointers: SelectionPointers,
    m: Map<Entity, PickSelection>,
    i: int,
)
    requires
        0 <= i < clicks.len(),
        m.contains_key(clicks[i].target),
        !m[clicks[i].target].is_selected,
    ensures
        targets(click_selections(clicks, pointers, m), clicks[i].target),
    decreases clicks.len(),
{
    let c = clicks.last();
    let e = clicks[i].target;
    let before = click_selections(clicks.drop_last(), pointers, m);
    if m.contains_key(c.target) && !m[c.target].is_selected {
        lemma_targets_push(
            before,
            Pointer { target: c.target, pointer_id: c.pointer_id, pointer_location: c.pointer_location, event: Select },
            e,
        );
    }
    if i < clicks.len() - 1 {
        assert(clicks.drop_last()[i] == clicks[i]);
        lemma_click_selections_targets(clicks.drop_last(), pointers, m, i);
    }
}

/// The multiselect state of a pointer is that of the first entry with its id, and `false` when
/// no entry has it.
pub proof fn lemma_multiselect_of(pointers: SelectionPointers, id: PointerId)
    ensures
        (forall|k: int| 0 <= k < pointers.len() ==> #[trigger] pointers[k].0 != id) ==> !multiselect_of(pointers, id),
        forall|k: int|
            0 <= k < pointers.len() && #[trigger] pointers[k].0 == id && (forall|q: int| 0 <= q < k ==> pointers[q].0 != id)
                ==> multiselect_of(pointers, id) == pointers[k].1.is_pressed,
    decreases pointers.len(),
{
    if pointers.len() > 0 {
        let t = pointers.drop_first();
        lemma_multiselect_of(t, id);
        assert forall|k: int| 0 <= k < t.len() implies #[trigger] t[k] == pointers[k + 1] by {}
        if (forall|k: int| 0 <= k < pointers.len() ==> #[trigger] pointers[k].0 != id) {
            assert(pointers[0].0 != id);
            assert forall|k: int| 0 <= k < t.len() implies #[trigger] t[k].0 != id by {
                assert(pointers[k + 1].0 != id);
            }
        }
        assert forall|k: int|
            0 <= k < pointers.len() && #[trigger] pointers[k].0 == id && (forall|q: int| 0 <= q < k ==> pointers[q].0 != id)
                implies multiselect_of(pointers, id) == pointers[k].1.is_pressed by {
            if k > 0 {
                assert(pointers[0].0 != id);
                assert(t[k - 1] == pointers[k]);
                assert forall|q: int| 0 <= q < k - 1 implies t[q].0 != id by {
                    assert(t[q] == pointers[q + 1]);
                }
            }
        }
    }
}

/// The click made a deselect event `d`: on its target, by its pointer, at its location.
pub open spec fn deselect_from(d: Pointer<Deselect>, c: Pointer<Click>) -> bool {
    d.target == c.target && d.pointer_id == c.pointer_id && d.pointer_location == c.pointer_location
}

/// The click made a select event `s`: on its target, by its pointer, at its location.
pub open spec fn select_from(s: Pointer<Select>, c: Pointer<Click>) -> bool {
    s.target == c.target && s.pointer_id == c.pointer_id && s.pointer_location == c.pointer_location
}

#[verifier::spinoff_prover]
/// Some click by a pointer with multiselect pressed, on a selected entity, made the deselect
/// event.
pub open spec fn deselect_made(
    d: Pointer<Deselect>,
    clicks: Seq<Pointer<Click>>,
    pointers: SelectionPointers,
    m: Map<Entity, PickSelection>,
) -> bool {
    exists|i: int|
        0 <= i < clicks.len() && deselect_from(d, clicks[i]) && m.contains_key(clicks[i].target)
            && m[clicks[i].target].is_selected && multiselect_of(pointers, clicks[i].pointer_id)
}

/// Some click on a selectable entity that is not selected made the select event.
pub open spec fn select_made(s: Pointer<Select>, clicks: Seq<Pointer<Click>>, m: Map<Entity, PickSelection>) -> bool {
    exists|i: int|
        0 <= i < clicks.len() && select_from(s, clicks[i]) && m.contains_key(clicks[i].target)
            && !m[clicks[i].target].is_selected
}

/// The deselections of clicks: a click deselects its target only if the target is selected and
/// the click's pointer has multiselect pressed, and then it does. Without multiselect, no click
/// deselects its target.
pub proof fn lemma_click_deselection_events(
    clicks: Seq<Pointer<Click>>,
    pointers: SelectionPointers,
    m: Map<Entity, PickSelection>,
)
    ensures
        forall|j: int|
            0 <= j < click_deselections(clicks, pointers, m).len() ==> deselect_made(
                #[trigger] click_deselections(clicks, pointers, m)[j],
                clicks,
                pointers,
                m,
            ),
        forall|i: int|
            0 <= i < clicks.len() && m.contains_key(#[trigger] clicks[i].target) && m[clicks[i].target].is_selected
                && multiselect_of(pointers, clicks[i].pointer_id) ==> exists|j: int|
                0 <= j < click_deselections(clicks, pointers, m).len() && deselect_from(
                    click_deselections(clicks, pointers, m)[j],
                    clicks[i],
                ),
    decreases clicks.len(),
{
    if clicks.len() > 0 {
        let t = clicks.drop_last();
        let c = clicks.last();
        let last = clicks.len() - 1;
        assert(clicks[last] == c);
        lemma_click_deselection_events(t, pointers, m);
        let d = click_deselections(clicks, pointers, m);
        let d0 = click_deselections(t, pointers, m);
        let s = click_selections(clicks, pointers, m);
        let s0 = click_selections(t, pointers, m);
        assert forall|j: int| 0 <= j < d.len() implies deselect_made(#[trigger] d[j], clicks, pointers, m) by {
            if j < d0.len() {
                assert(d[j] == d0[j]);
                assert(deselect_made(d0[j], t, pointers, m));
                let i = choose|i: int|
                    0 <= i < t.len() && deselect_from(d0[j], t[i]) && m.contains_key(t[i].target)
                        && m[t[i].target].is_selected && multiselect_of(pointers, t[i].pointer_id);
                assert(t[i] == clicks[i]);
                assert(deselect_from(d[j], clicks[i]));
            } else {
                assert(deselect_from(d[j], clicks[last]));
            }
        }
        assert forall|i: int|
            0 <= i < clicks.len() && m.contains_key(#[trigger] clicks[i].target) && m[clicks[i].target].is_selected
                && multiselect_of(pointers, clicks[i].pointer_id) implies exists|j: int|
                0 <= j < d.len() && deselect_from(d[j], clicks[i]) by {
            if i < last {
                assert(t[i] == clicks[i]);
                let j = choose|j: int| 0 <= j < d0.len() && deselect_from(d0[j], t[i]);
                assert(d[j] == d0[j]);
            } else {
                assert(deselect_from(d[d0.len() as int], clicks[i]));
            }
        }
    }
}

#[verifier::spinoff_prover]
/// The selections of clicks: a click selects its target only if the target is selectable and not
/// selected, and then it does, with or without multiselect.
pub proof fn lemma_click_selection_events(
    clicks: Seq<Pointer<Click>>,
    pointers: SelectionPointers,
    m: Map<Entity, PickSelection>,
)
    ensures
        forall|j: int|
            0 <= j < click_selections(clicks, pointers, m).len() ==> select_made(
                #[trigger] click_selections(clicks, pointers, m)[j],
                clicks,
                m,
            ),
        forall|i: int|
            0 <= i < clicks.len() && m.contains_key(#[trigger] clicks[i].target) && !m[clicks[i].target].is_selected
                ==> exists|j: int|
                0 <= j < click_selections(clicks, pointers, m).len() && select_from(
                    click_selections(clicks, pointers, m)[j],
                    clicks[i],
                ),
    decreases clicks.len(),
{
    if clicks.len() > 0 {
        let t = clicks.drop_last();
        let c = clicks.last();
        let last = clicks.len() - 1;
        assert(clicks[last] == c);
        lemma_click_selection_events(t, pointers, m);
        let d = click_deselections(clicks, pointers, m);
        let d0 = click_deselections(t, pointers, m);
        let s = click_selections(clicks, pointers, m);
        let s0 = click_selections(t, pointers, m);
        assert forall|j: int| 0 <= j < s.len() implies select_made(#[trigger] s[j], clicks, m) by {
            if j < s0.len() {
                assert(s[j] == s0[j]);
                assert(select_made(s0[j], t, m));
                let i = choose|i: int|
                    0 <= i < t.len() && select_from(s0[j], t[i]) && m.contains_key(t[i].target) && !m[t[i].target].is_selected;
                assert(t[i] == clicks[i]);
                assert(select_from(s[j], clicks[i]));
            } else {
                assert(select_from(s[j], clicks[last]));
            }
        }
        assert forall|i: int|
            0 <= i < clicks.len() && m.contains_key(#[trigger] clicks[i].target) && !m[clicks[i].target].is_selected
                implies exists|j: int| 0 <= j < s.len() && select_from(s[j], clicks[i]) by {
            if i < last {
                assert(t[i] == clicks[i]);
                let j = choose|j: int| 0 <= j < s0.len() && select_from(s0[j], t[i]);
                assert(s[j] == s0[j]);
            } else {
                assert(select_from(s[s0.len() as int], clicks[i]));
            }
        }
    }
}

/// Clicking an unselected entity selects it: the click yields a select event for it, and no
/// deselect event of the same frame targets it (deselections only target selected entities), so
/// that updating the selection state from the events leaves it selected.
pub proof fn lemma_click_selects_unselected(
    settings: SelectionSettings,
    downs: Seq<Pointer<Down>>,
    presses: Seq<InputPress>,
    clicks: Seq<Pointer<Click>>,
    pointers: SelectionPointers,
    no_deselect: Map<Entity, NoDeselect>,
    selectables: Seq<(Entity, PickSelection)>,
    i: int,
)
    requires
        no_dup_keys(selectables),
        0 <= i < clicks.len(),
        entries_to_map(selectables).contains_key(clicks[i].target),
        !entries_to_map(selectables)[clicks[i].target].is_selected,
    ensures
        targets(click_selections(clicks, pointers, entries_to_map(selectables)), clicks[i].target),
        !targets(
            down_deselections(downs, pointers, no_deselect, selectables) + (if settings.click_nothing_deselect_all {
                nothing_deselections(presses, downs, pointers, selectables)
            } else {
                Seq::empty()
            }) + click_deselections(clicks, pointers, entries_to_map(selectables)),
            clicks[i].target,
        ),
{
    let e = clicks[i].target;
    let m = entries_to_map(selectables);
    lemma_click_selections_targets(clicks, pointers, m, i);
    let a = down_deselections(downs, pointers, no_deselect, selectables);
    let b = if settings.click_nothing_deselect_all {
        nothing_deselections(presses, downs, pointers, selectables)
    } else {
        Seq::empty()
    };
    let c = click_deselections(clicks, pointers, m);
    lemma_targets_concat(a + b, c, e);
    lemma_targets_concat(a, b, e);
    assert(!selected_in(selectables, e)) by {
        if selected_in(selectables, e) {
            let k = choose|k: int| 0 <= k < selectables.len() && selectables[k].0 == e && #[trigger] selectables[k].1.is_selected;
            lemma_entries_to_map_index(selectables, k);
        }
    }
    if targets(a, e) {
        lemma_down_deselections_targets(downs, pointers, no_deselect, selectables, e);
    }
    if targets(b, e) {
        lemma_nothing_deselections_targets(presses, downs, pointers, selectables, e);
    }
    if targets(c, e) {
        lemma_click_deselections_targets(clicks, pointers, m, e);
    }
}

} // verus!

