//! Determines which entities are being hovered by which pointers.
//!
//! "Hovering" is not the same as being under a pointer: a pointer is over an entity if it is
//! within its bounds, and hovers it only if it is over it *and* no entity between it and the
//! pointer blocks it.
use crate::backend::{HitData, PointerHits};
use crate::events::PointerCancel;
use crate::float_ord::{order_key, spec_order_key};
use crate::map::{
    entries_to_map, lemma_entries_to_map_dom, lemma_entries_to_map_insert_at,
    lemma_entries_to_map_update, no_dup_keys, VecMap,
};
use crate::pointer::{Entity, PointerId};
use crate::settings::{spec_blocks, spec_emits, Pickable};
use vstd::prelude::*;

verus! {

/// A pick key: the order key of the pick layer, then the order key of the depth, then the id of
/// the picked entity, so that picks of different entities at the same layer and depth are all
/// kept.
pub type PickKey = (u32, u32, u64);

/// A pick under a pointer: its key, and the entity with its hit data.
pub type PickEntry = (PickKey, (Entity, HitData));

/// The walk order of picks: higher layers first; within a layer, nearer picks first; at equal
/// depth, by entity id.
pub open spec fn walk_before(a: PickKey, b: PickKey) -> bool {
    a.0 > b.0 || (a.0 == b.0 && (a.1 < b.1 || (a.1 == b.1 && a.2 < b.2)))
}

/// Every pick comes strictly before the next in walk order.
pub open spec fn walk_sorted(s: Seq<PickEntry>) -> bool {
    forall|i: int, j: int| 0 <= i < j < s.len() ==> walk_before(s[i].0, s[j].0)
}

fn exec_walk_before(a: PickKey, b: PickKey) -> (r: bool)
    ensures
        r == walk_before(a, b),
{
    a.0 > b.0 || (a.0 == b.0 && (a.1 < b.1 || (a.1 == b.1 && a.2 < b.2)))
}

/// The picks under one pointer, keyed by layer, depth and entity and kept in walk order. A later
/// pick of the same entity at the same layer and depth replaces an earlier one.
pub struct LayerMap {
    entries: Vec<PickEntry>,
}

impl View for LayerMap {
    type V = Map<PickKey, (Entity, HitData)>;

    closed spec fn view(&self) -> Map<PickKey, (Entity, HitData)> {
        entries_to_map(self.entries@)
    }
}

impl LayerMap {
    /// The picks in walk order.
    pub closed spec fn entries(&self) -> Seq<PickEntry> {
        self.entries@
    }

    /// The picks are kept in strict walk order.
    pub open spec fn wf(&self) -> bool {
        walk_sorted(self.entries())
    }

    /// The view of a layer map is the map of its entries.
    pub proof fn lemma_view(&self)
        requires
            self.wf(),
        ensures
            self@ == entries_to_map(self.entries()),
            no_dup_keys(self.entries()),
    {
        assert forall|i: int, j: int|
            0 <= i < self.entries().len() && 0 <= j < self.entries().len() && i != j implies self.entries()[i].0
            != self.entries()[j].0 by {
            if i < j {
                assert(walk_before(self.entries()[i].0, self.entries()[j].0));
            } else {
                assert(walk_before(self.entries()[j].0, self.entries()[i].0));
            }
        }
    }

    /// An empty map of picks.
    pub fn new() -> (m: LayerMap)
        ensures
            m.wf(),
            m@ == Map::<PickKey, (Entity, HitData)>::empty(),
            m.entries() == Seq::<PickEntry>::empty(),
    {
        LayerMap { entries: Vec::new() }
    }

    /// The number of picks.
    pub fn len(&self) -> (n: usize)
        ensures
            n == self.entries().len(),
    {
        self.entries.len()
    }

    /// The pick at position `i` of the walk order.
    pub fn entry_at(&self, i: usize) -> (e: PickEntry)
        requires
            i < self.entries().len(),
        ensures
            e == self.entries()[i as int],
    {
        self.entries[i]
    }

    /// Records a pick under `key`, replacing any pick with the same key.
    pub fn insert(&mut self, key: PickKey, value: (Entity, HitData))
        requires
            old(self).wf(),
        ensures
            final(self).wf(),
            final(self)@ == old(self)@.insert(key, value),
    {
        proof {
            self.lemma_view();
        }
        let mut i: usize = 0;
        while i < self.entries.len() && exec_walk_before(self.entries[i].0, key)
            invariant
                i <= self.entries@.len(),
                forall|j: int| 0 <= j < i ==> walk_before(#[trigger] self.entries@[j].0, key),
            decreases self.entries@.len() - i,
        {
            i = i + 1;
        }
        let ghost s = self.entries@;
        if i < self.entries.len() && self.entries[i].0.0 == key.0 && self.entries[i].0.1 == key.1
            && self.entries[i].0.2 == key.2 {
            proof {
                lemma_entries_to_map_update(s, i as int, value);
                assert(s.update(i as int, (s[i as int].0, value)) == s.update(i as int, (key, value)));
            }
            self.entries.set(i, (key, value));
        } else {
            proof {
                if i < s.len() {
                    assert(!walk_before(s[i as int].0, key));
                    assert(s[i as int].0 != key);
                    assert(walk_before(key, s[i as int].0));
                }
                assert forall|j: int| 0 <= j < s.len() implies s[j].0 != key by {
                    if j < i {
                        assert(walk_before(s[j].0, key));
                    } else {
                        assert(walk_before(key, s[i as int].0));
                        if j > i {
                            assert(walk_before(s[i as int].0, s[j].0));
                        }
                    }
                }
                lemma_entries_to_map_insert_at(s, i as int, key, value);
            }
            self.entries.insert(i, (key, value));
            proof {
                let t = self.entries@;
                assert forall|a: int, b: int| 0 <= a < b < t.len() implies walk_before(
                    t[a].0,
                    t[b].0,
                ) by {
                    if b < i {
                        assert(t[a] == s[a] && t[b] == s[b]);
                    } else if b == i {
                        assert(t[a] == s[a]);
                    } else if a < i {
                        assert(t[a] == s[a] && t[b] == s[b - 1]);
                        assert(walk_before(s[a].0, key));
                        assert(walk_before(key, s[i as int].0));
                        if b - 1 > i {
                            assert(walk_before(s[i as int].0, s[b - 1].0));
                        }
                    } else if a == i {
                        assert(t[b] == s[b - 1]);
                        assert(walk_before(key, s[i as int].0));
                        if b - 1 > i {
                            assert(walk_before(s[i as int].0, s[b - 1].0));
                        }
                    } else {
                        assert(t[a] == s[a - 1] && t[b] == s[b - 1]);
                    }
                }
            }
        }
    }
}

/// Maps pointers to the picks under them, sorted by layer then depth.
pub type OverMap = VecMap<PointerId, LayerMap>;

/// Maps pointers to the entities they are hovering over.
pub struct HoverMap(pub VecMap<PointerId, VecMap<Entity, HitData>>);

/// The previous state of the hover map, used to track changes to hover state.
pub struct PreviousHoverMap(pub VecMap<PointerId, VecMap<Entity, HitData>>);

/// A nested map of pointers to entity maps is well formed at both levels.
pub open spec fn nested_wf(m: VecMap<PointerId, VecMap<Entity, HitData>>) -> bool {
    &&& m.wf()
    &&& forall|p: PointerId| #[trigger] m@.contains_key(p) ==> m@[p].wf()
}

/// The mathematical view of a nested map of pointers to entity maps.
pub open spec fn nested_view(m: VecMap<PointerId, VecMap<Entity, HitData>>) -> Map<
    PointerId,
    Map<Entity, HitData>,
> {
    Map::new(|p: PointerId| m@.contains_key(p), |p: PointerId| m@[p]@)
}

/// The over map is well formed at both levels.
pub open spec fn over_wf(m: OverMap) -> bool {
    &&& m.wf()
    &&& forall|p: PointerId| #[trigger] m@.contains_key(p) ==> m@[p].wf()
}

impl HoverMap {
    /// The hovered entities of each pointer.
    pub open spec fn spec_view(&self) -> Map<PointerId, Map<Entity, HitData>> {
        nested_view(self.0)
    }

    /// An empty hover map.
    pub fn new() -> (m: HoverMap)
        ensures
            nested_wf(m.0),
            m.0.entries().len() == 0,
            m.spec_view() == Map::<PointerId, Map<Entity, HitData>>::empty(),
    {
        let m = HoverMap(VecMap::new());
        proof {
            assert(nested_view(m.0) =~= Map::<PointerId, Map<Entity, HitData>>::empty());
        }
        m
    }
}

impl PreviousHoverMap {
    /// The hovered entities of each pointer in the previous frame.
    pub open spec fn spec_view(&self) -> Map<PointerId, Map<Entity, HitData>> {
        nested_view(self.0)
    }

    /// An empty previous hover map.
    pub fn new() -> (m: PreviousHoverMap)
        ensures
            nested_wf(m.0),
            m.0.entries().len() == 0,
            m.spec_view() == Map::<PointerId, Map<Entity, HitData>>::empty(),
    {
        let m = PreviousHoverMap(VecMap::new());
        proof {
            assert(nested_view(m.0) =~= Map::<PointerId, Map<Entity, HitData>>::empty());
        }
        m
    }
}

/// Whether a pointer is among the cancelled ones.
pub open spec fn is_cancelled(cancels: Seq<PointerCancel>, p: PointerId) -> bool {
    exists|i: int| 0 <= i < cancels.len() && cancels[i].pointer_id == p
}

/// The keyed picks of one backend report.
pub open spec fn keyed_picks(picks: Seq<(Entity, HitData)>, order: u32) -> Seq<PickEntry> {
    picks.map_values(
        |pick: (Entity, HitData)|
            ((spec_order_key(order) as u32, spec_order_key(pick.1.depth) as u32, pick.0.bits), pick),
    )
}

/// All keyed picks reported for pointer `p` by the reports, in report order, leaving out every
/// report of a cancelled pointer.
pub open spec fn pointer_picks(hits: Seq<PointerHits>, cancels: Seq<PointerCancel>, p: PointerId) -> Seq<
    PickEntry,
>
    decreases hits.len(),
{
    if hits.len() == 0 {
        Seq::empty()
    } else {
        let before = pointer_picks(hits.drop_last(), cancels, p);
        let h = hits.last();
        if h.pointer == p && !is_cancelled(cancels, p) {
            before + keyed_picks(h.picks@, h.order)
        } else {
            before
        }
    }
}

/// The picks of `base` after recording each of `s` in order, a later pick replacing an earlier one
/// with the same key.
pub open spec fn record_picks(base: Map<PickKey, (Entity, HitData)>, s: Seq<PickEntry>) -> Map<
    PickKey,
    (Entity, HitData),
>
    decreases s.len(),
{
    if s.len() == 0 {
        base
    } else {
        record_picks(base, s.drop_last()).insert(s.last().0, s.last().1)
    }
}

/// Every keyed pick is keyed by the id of its entity.
pub open spec fn keyed_by_entity(s: Seq<PickEntry>) -> bool {
    forall|k: int| 0 <= k < s.len() ==> (#[trigger] s[k]).0.2 == s[k].1.0.bits
}

proof fn lemma_pointer_picks_contain(hits: Seq<PointerHits>, cancels: Seq<PointerCancel>, p: PointerId, i: int, k: int)
    requires
        0 <= i < hits.len(),
        hits[i].pointer == p,
        !is_cancelled(cancels, p),
        0 <= k < hits[i].picks@.len(),
    ensures
        exists|m: int|
            0 <= m < pointer_picks(hits, cancels, p).len() && (#[trigger] pointer_picks(hits, cancels, p)[m]).1
                == hits[i].picks@[k],
        keyed_by_entity(pointer_picks(hits, cancels, p)),
    decreases hits.len(),
{
    lemma_pointer_picks_keyed(hits, cancels, p);
    let t = hits.drop_last();
    let before = pointer_picks(t, cancels, p);
    let h = hits.last();
    if i < hits.len() - 1 {
        assert(t[i] == hits[i]);
        lemma_pointer_picks_contain(t, cancels, p, i, k);
        let m = choose|m: int| 0 <= m < before.len() && (#[trigger] before[m]).1 == hits[i].picks@[k];
        if h.pointer == p {
            assert(pointer_picks(hits, cancels, p)[m] == before[m]);
        }
    } else {
        let kp = keyed_picks(h.picks@, h.order);
        assert(pointer_picks(hits, cancels, p)[before.len() + k] == kp[k]);
    }
}

proof fn lemma_pointer_picks_keyed(hits: Seq<PointerHits>, cancels: Seq<PointerCancel>, p: PointerId)
    ensures
        keyed_by_entity(pointer_picks(hits, cancels, p)),
    decreases hits.len(),
{
    if hits.len() > 0 {
        let t = hits.drop_last();
        lemma_pointer_picks_keyed(t, cancels, p);
        let before = pointer_picks(t, cancels, p);
        let h = hits.last();
        if h.pointer == p && !is_cancelled(cancels, p) {
            let kp = keyed_picks(h.picks@, h.order);
            let all = before + kp;
            assert forall|k: int| 0 <= k < all.len() implies (#[trigger] all[k]).0.2 == all[k].1.0.bits by {
                if k < before.len() {
                    assert(all[k] == before[k]);
                } else {
                    assert(all[k] == kp[k - before.len()]);
                }
            }
        }
    }
}

proof fn lemma_record_picks_keeps(base: Map<PickKey, (Entity, HitData)>, s: Seq<PickEntry>, m: int)
    requires
        0 <= m < s.len(),
        keyed_by_entity(s),
    ensures
        record_picks(base, s).contains_key(s[m].0),
        record_picks(base, s)[s[m].0].0 == s[m].1.0,
    decreases s.len(),
{
    let t = s.drop_last();
    if m < s.len() - 1 {
        assert(t[m] == s[m]);
        assert(keyed_by_entity(t)) by {
            assert forall|k: int| 0 <= k < t.len() implies (#[trigger] t[k]).0.2 == t[k].1.0.bits by {
                assert(t[k] == s[k]);
            }
        }
        lemma_record_picks_keeps(base, t, m);
        if s.last().0 == s[m].0 {
            assert(s[s.len() - 1].0.2 == s[s.len() - 1].1.0.bits);
            assert(s[m].0.2 == s[m].1.0.bits);
        }
    }
}

/// Every pick survives in the picks of its pointer: whatever the uncancelled reports of a pointer
/// contain, each picked entity is recorded under the key of its layer, depth and entity, also
/// where several entities share a layer and depth.
pub proof fn lemma_every_pick_recorded(hits: Seq<PointerHits>, cancels: Seq<PointerCancel>, p: PointerId, i: int, k: int)
    requires
        0 <= i < hits.len(),
        hits[i].pointer == p,
        !is_cancelled(cancels, p),
        0 <= k < hits[i].picks@.len(),
    ensures
        exists|key: PickKey|
            #[trigger] record_picks(Map::empty(), pointer_picks(hits, cancels, p)).contains_key(key) && record_picks(
                Map::empty(),
                pointer_picks(hits, cancels, p),
            )[key].0 == hits[i].picks@[k].0,
{
    lemma_pointer_picks_contain(hits, cancels, p, i, k);
    let s = pointer_picks(hits, cancels, p);
    let m = choose|m: int| 0 <= m < s.len() && (#[trigger] s[m]).1 == hits[i].picks@[k];
    lemma_record_picks_keeps(Map::empty(), s, m);
}

/// Some report that is not cancelled is about pointer `p`.
pub open spec fn reported(hits: Seq<PointerHits>, cancels: Seq<PointerCancel>, p: PointerId) -> bool {
    exists|i: int| 0 <= i < hits.len() && hits[i].pointer == p && !is_cancelled(cancels, p)
}

/// The optional [`Pickable`] of an entity.
pub open spec fn pickable_of(pickables: Map<Entity, Pickable>, e: Entity) -> Option<Pickable> {
    if pickables.contains_key(e) {
        Some(pickables[e])
    } else {
        None
    }
}

/// The position of the first pick in walk order that blocks the picks below it, or the number of
/// picks if none does.
pub open spec fn first_blocker(s: Seq<PickEntry>, pickables: Map<Entity, Pickable>) -> nat
    decreases s.len(),
{
    if s.len() == 0 {
        0
    } else if spec_blocks(pickable_of(pickables, s[0].1.0)) {
        0
    } else {
        1 + first_blocker(s.drop_first(), pickables)
    }
}

/// The picks of `s` whose entity emits events, in order.
pub open spec fn emitting(s: Seq<PickEntry>, pickables: Map<Entity, Pickable>) -> Seq<(Entity, HitData)>
    decreases s.len(),
{
    if s.len() == 0 {
        Seq::empty()
    } else {
        let before = emitting(s.drop_last(), pickables);
        if spec_emits(pickable_of(pickables, s.last().1.0)) {
            before.push(s.last().1)
        } else {
            before
        }
    }
}

/// The number of picks, in walk order, that a pointer reaches: all picks up to and including the
/// first one that blocks.
pub open spec fn reached(s: Seq<PickEntry>, pickables: Map<Entity, Pickable>) -> int {
    if first_blocker(s, pickables) < s.len() {
        (first_blocker(s, pickables) + 1) as int
    } else {
        s.len() as int
    }
}

/// The entities hovered through a pointer's picks in walk order: the emitting entities among the
/// picks it reaches, each with the hit data of its last such pick.
pub open spec fn hovered(s: Seq<PickEntry>, pickables: Map<Entity, Pickable>) -> Map<Entity, HitData> {
    entries_to_map(emitting(s.take(reached(s, pickables)), pickables))
}

/// The picks before the first blocker do not block, and the first blocker does.
pub proof fn lemma_first_blocker(s: Seq<PickEntry>, pickables: Map<Entity, Pickable>)
    ensures
        first_blocker(s, pickables) <= s.len(),
        forall|i: int|
            0 <= i < first_blocker(s, pickables) ==> !spec_blocks(
                #[trigger] pickable_of(pickables, s[i].1.0),
            ),
        first_blocker(s, pickables) < s.len() ==> spec_blocks(
            pickable_of(pickables, s[first_blocker(s, pickables) as int].1.0),
        ),
    decreases s.len(),
{
    if s.len() > 0 && !spec_blocks(pickable_of(pickables, s[0].1.0)) {
        let t = s.drop_first();
        lemma_first_blocker(t, pickables);
        assert forall|i: int| 0 <= i < first_blocker(s, pickables) implies !spec_blocks(
            #[trigger] pickable_of(pickables, s[i].1.0),
        ) by {
            if i > 0 {
                assert(s[i] == t[i - 1]);
            }
        }
        if first_blocker(s, pickables) < s.len() {
            assert(s[first_blocker(s, pickables) as int] == t[first_blocker(t, pickables) as int]);
        }
    }
}

/// Every pick kept by `emitting` is an emitting pick of the walk.
pub proof fn lemma_emitting_picks(s: Seq<PickEntry>, pickables: Map<Entity, Pickable>, k: int)
    requires
        0 <= k < emitting(s, pickables).len(),
    ensures
        exists|i: int|
            0 <= i < s.len() && #[trigger] s[i].1 == emitting(s, pickables)[k] && spec_emits(
                pickable_of(pickables, s[i].1.0),
            ),
    decreases s.len(),
{
    let t = s.drop_last();
    let before = emitting(t, pickables);
    if k < before.len() {
        lemma_emitting_picks(t, pickables, k);
        let i = choose|i: int|
            0 <= i < t.len() && #[trigger] t[i].1 == emitting(t, pickables)[k] && spec_emits(
                pickable_of(pickables, t[i].1.0),
            );
        assert(s[i] == t[i]);
        if spec_emits(pickable_of(pickables, s.last().1.0)) {
            assert(emitting(s, pickables)[k] == before[k]);
        }
    } else {
        assert(s[s.len() - 1].1 == emitting(s, pickables)[k]);
    }
}

/// Picking respects [`Pickable`]: an entity that a pointer hovers emits events, and it was
/// picked at or above the first pick that blocks the picks below it. In particular an entity
/// whose `Pickable` neither blocks nor emits is never hovered, and nothing below a blocking pick
/// is.
pub proof fn lemma_hover_respects_pickable(s: Seq<PickEntry>, pickables: Map<Entity, Pickable>, e: Entity)
    requires
        hovered(s, pickables).contains_key(e),
    ensures
        spec_emits(pickable_of(pickables, e)),
        exists|i: int|
            0 <= i < s.len() && #[trigger] s[i].1.0 == e && forall|j: int|
                0 <= j < i ==> !spec_blocks(#[trigger] pickable_of(pickables, s[j].1.0)),
{
    let r = reached(s, pickables);
    let t = s.take(r);
    let em = emitting(t, pickables);
    lemma_entries_to_map_dom(em, e);
    let k = choose|k: int| 0 <= k < em.len() && em[k].0 == e;
    lemma_emitting_picks(t, pickables, k);
    let i = choose|i: int|
        0 <= i < t.len() && #[trigger] t[i].1 == em[k] && spec_emits(pickable_of(pickables, t[i].1.0));
    lemma_first_blocker(s, pickables);
    assert(s[i] == t[i]);
    assert(i <= first_blocker(s, pickables));
    assert forall|j: int| 0 <= j < i implies !spec_blocks(#[trigger] pickable_of(pickables, s[j].1.0)) by {}
}

/// Camera order and depth decide what a pointer hovers: an entity is hovered only through a pick
/// that no pick of a higher layer, and no nearer pick of the same layer, blocks.
pub proof fn lemma_hover_respects_order(picks: LayerMap, pickables: Map<Entity, Pickable>, e: Entity)
    requires
        picks.wf(),
        hovered(picks.entries(), pickables).contains_key(e),
    ensures
        exists|i: int|
            0 <= i < picks.entries().len() && #[trigger] picks.entries()[i].1.0 == e && forall|j: int|
                0 <= j < picks.entries().len() && walk_before(picks.entries()[j].0, picks.entries()[i].0)
                    ==> !spec_blocks(#[trigger] pickable_of(pickables, picks.entries()[j].1.0)),
{
    let s = picks.entries();
    lemma_hover_respects_pickable(s, pickables, e);
    let i = choose|i: int|
        0 <= i < s.len() && #[trigger] s[i].1.0 == e && forall|j: int|
            0 <= j < i ==> !spec_blocks(#[trigger] pickable_of(pickables, s[j].1.0));
    assert forall|j: int|
        0 <= j < s.len() && walk_before(s[j].0, s[i].0) implies !spec_blocks(
        #[trigger] pickable_of(pickables, s[j].1.0),
    ) by {
        if j > i {
            assert(walk_before(s[i].0, s[j].0));
        }
    }
}

/// Clear the hover and over maps for a new frame, reusing their keys: the current hover map becomes
/// the previous one, and only the active pointers keep (empty) entries.
fn reset_maps(
    hover_map: &mut HoverMap,
    previous_hover_map: &mut PreviousHoverMap,
    over_map: &mut OverMap,
    pointers: &Vec<PointerId>,
)
    requires
        nested_wf(old(hover_map).0),
        over_wf(*old(over_map)),
    ensures
        nested_wf(final(hover_map).0),
        nested_wf(final(previous_hover_map).0),
        over_wf(*final(over_map)),
        final(previous_hover_map).spec_view() == old(hover_map).spec_view(),
        forall|p: PointerId|
            #[trigger] final(hover_map).0@.contains_key(p) <==> (old(
                previous_hover_map,
            ).0@.contains_key(p) && pointers@.contains(p)),
        forall|p: PointerId|
            #[trigger] final(hover_map).0@.contains_key(p) ==> final(hover_map).0@[p]@ == Map::<
                Entity,
                HitData,
            >::empty(),
        forall|p: PointerId|
            #[trigger] final(over_map)@.contains_key(p) <==> (old(over_map)@.contains_key(p)
                && pointers@.contains(p)),
        forall|p: PointerId|
            #[trigger] final(over_map)@.contains_key(p) ==> final(over_map)@[p]@ == Map::<
                PickKey,
                (Entity, HitData),
            >::empty(),
{
    core::mem::swap(&mut previous_hover_map.0, &mut hover_map.0);
    let mut new_hover: VecMap<PointerId, VecMap<Entity, HitData>> = VecMap::new();
    let mut i: usize = 0;
    while i < hover_map.0.len()
        invariant
            i <= hover_map.0.entries().len(),
            new_hover.wf(),
            forall|p: PointerId| #[trigger]
                new_hover@.contains_key(p) ==> new_hover@[p].wf() && new_hover@[p]@ == Map::<
                    Entity,
                    HitData,
                >::empty(),
            forall|p: PointerId|
                #[trigger] new_hover@.contains_key(p) <==> (exists|j: int|
                    0 <= j < i && hover_map.0.entries()[j].0 == p) && pointers@.contains(p),
        decreases hover_map.0.entries().len() - i,
    {
        let p = hover_map.0.entry_at(i).0;
        if contains_pointer(pointers, &p) {
            new_hover.insert(p, VecMap::new());
        }
        i = i + 1;
    }
    proof {
        assert forall|p: PointerId| #[trigger]
            new_hover@.contains_key(p) <==> (hover_map.0@.contains_key(p) && pointers@.contains(
                p,
            )) by {
            hover_map.0.lemma_view();
            lemma_entries_to_map_dom(hover_map.0.entries(), p);
        }
    }
    hover_map.0 = new_hover;
    let mut new_over: OverMap = VecMap::new();
    let mut i: usize = 0;
    while i < over_map.len()
        invariant
            over_map.wf(),
            i <= over_map.entries().len(),
            new_over.wf(),
            forall|p: PointerId| #[trigger]
                new_over@.contains_key(p) ==> new_over@[p].wf() && new_over@[p]@ == Map::<
                    PickKey,
                    (Entity, HitData),
                >::empty(),
            forall|p: PointerId|
                #[trigger] new_over@.contains_key(p) <==> (exists|j: int|
                    0 <= j < i && over_map.entries()[j].0 == p) && pointers@.contains(p),
        decreases over_map.entries().len() - i,
    {
        let p = over_map.entry_at(i).0;
        if contains_pointer(pointers, &p) {
            new_over.insert(p, LayerMap::new());
        }
        i = i + 1;
    }
    proof {
        assert forall|p: PointerId| #[trigger]
            new_over@.contains_key(p) <==> (over_map@.contains_key(p) && pointers@.contains(p)) by {
            over_map.lemma_view();
            lemma_entries_to_map_dom(over_map.entries(), p);
        }
        assert(nested_view(previous_hover_map.0) =~= nested_view(old(hover_map).0));
    }
    *over_map = new_over;
}


/// The picks of pointer `p` before new reports are recorded: its current picks, if it has any.
pub open spec fn base_picks(over: Map<PointerId, LayerMap>, p: PointerId) -> Map<PickKey, (Entity, HitData)> {
    if over.contains_key(p) {
        over[p]@
    } else {
        Map::empty()
    }
}

/// The entities a pointer hovers through its picks in an over map, if it has any.
pub open spec fn hovered_in(over: Map<PointerId, LayerMap>, p: PointerId, pickables: Map<Entity, Pickable>) -> Map<
    Entity,
    HitData,
> {
    if over.contains_key(p) {
        hovered(over[p].entries(), pickables)
    } else {
        Map::empty()
    }
}

/// The hovered entities of a pointer before the new ones are added: its current ones, if any.
pub open spec fn base_hover(hover: Map<PointerId, Map<Entity, HitData>>, p: PointerId) -> Map<Entity, HitData> {
    if hover.contains_key(p) {
        hover[p]
    } else {
        Map::empty()
    }
}

/// A pointer that no uncancelled report is about has no picks.
pub proof fn lemma_unreported_no_picks(hits: Seq<PointerHits>, cancels: Seq<PointerCancel>, p: PointerId)
    requires
        !reported(hits, cancels, p),
    ensures
        pointer_picks(hits, cancels, p) == Seq::<PickEntry>::empty(),
    decreases hits.len(),
{
    if hits.len() > 0 {
        let t = hits.drop_last();
        if reported(t, cancels, p) {
            let k = choose|k: int| 0 <= k < t.len() && t[k].pointer == p && !is_cancelled(cancels, p);
            assert(hits[k].pointer == p);
        }
        lemma_unreported_no_picks(t, cancels, p);
        if hits.last().pointer == p && !is_cancelled(cancels, p) {
            assert(hits[hits.len() - 1].pointer == p);
        }
    }
}

/// Build an ordered map of the entities that are under each pointer, from the backend reports of
/// pointers that were not cancelled.
fn build_over_map(hits: &Vec<PointerHits>, over_map: &mut OverMap, cancels: &Vec<PointerCancel>)
    requires
        over_wf(*old(over_map)),
    ensures
        over_wf(*final(over_map)),
        forall|p: PointerId|
            #[trigger] final(over_map)@.contains_key(p) <==> (old(over_map)@.contains_key(p)
                || reported(hits@, cancels@, p)),
        forall|p: PointerId|
            #[trigger] final(over_map)@.contains_key(p) ==> final(over_map)@[p]@ == record_picks(
                base_picks(old(over_map)@, p),
                pointer_picks(hits@, cancels@, p),
            ),
{
    let ghost start = over_map@;
    let mut i: usize = 0;
    while i < hits.len()
        invariant
            i <= hits@.len(),
            over_wf(*over_map),
            forall|p: PointerId|
                #[trigger] over_map@.contains_key(p) <==> (start.contains_key(p) || reported(
                    hits@.take(i as int),
                    cancels@,
                    p,
                )),
            forall|p: PointerId|
                #[trigger] over_map@.contains_key(p) ==> over_map@[p]@ == record_picks(
                    base_picks(start, p),
                    pointer_picks(hits@.take(i as int), cancels@, p),
                ),
        decreases hits@.len() - i,
    {
        let hit = &hits[i];
        let pointer = hit.pointer;
        let ghost t0 = hits@.take(i as int);
        let ghost t1 = hits@.take(i + 1);
        proof {
            assert(hits@.take(i + 1).drop_last() =~= hits@.take(i as int));
            assert(hits@.take(i + 1).last() == hits@[i as int]);
        }
        if !contains_cancel(cancels, &pointer) {
            let ghost prefix = pointer_picks(hits@.take(i as int), cancels@, pointer);
            proof {
                if !over_map@.contains_key(pointer) {
                    lemma_unreported_no_picks(hits@.take(i as int), cancels@, pointer);
                }
            }
            let mut layers = match over_map.remove(&pointer) {
                Some(l) => l,
                None => LayerMap::new(),
            };
            proof {
                assert(hit.picks@.take(0) =~= Seq::<(Entity, HitData)>::empty());
                assert(keyed_picks(hit.picks@.take(0), hit.order) =~= Seq::<PickEntry>::empty());
                assert(prefix + keyed_picks(hit.picks@.take(0), hit.order) =~= prefix);
            }
            let layer = order_key(hit.order);
            let mut j: usize = 0;
            while j < hit.picks.len()
                invariant
                    j <= hit.picks@.len(),
                    layers.wf(),
                    layer as int == spec_order_key(hit.order),
                    layers@ == record_picks(
                        base_picks(start, pointer),
                        prefix + keyed_picks(hit.picks@.take(j as int), hit.order),
                    ),
                decreases hit.picks@.len() - j,
            {
                let pick = hit.picks[j];
                let depth = order_key(pick.1.depth);
                layers.insert((layer, depth, pick.0.bits), pick);
                proof {
                    let a = prefix + keyed_picks(hit.picks@.take(j as int), hit.order);
                    let b = prefix + keyed_picks(hit.picks@.take(j + 1), hit.order);
                    assert(b =~= a.push(((layer, depth, pick.0.bits), pick)));
                    assert(b.drop_last() =~= a);
                }
                j = j + 1;
            }
            proof {
                assert(hit.picks@.take(hit.picks@.len() as int) =~= hit.picks@);
                assert(pointer_picks(hits@.take(i + 1), cancels@, pointer) == prefix + keyed_picks(
                    hit.picks@,
                    hit.order,
                ));
            }
            over_map.insert(pointer, layers);
            proof {
                assert forall|p: PointerId| #[trigger]
                    over_map@.contains_key(p) <==> (start.contains_key(p) || reported(
                        hits@.take(i + 1),
                        cancels@,
                        p,
                    )) by {
                    if reported(hits@.take(i + 1), cancels@, p) && p != pointer {
                        let k = choose|k: int|
                            0 <= k < t1.len() && t1[k].pointer == p
                                && !is_cancelled(cancels@, p);
                        assert(t0[k].pointer == p);
                    }
                    if p == pointer {
                        assert(hits@.take(i + 1)[i as int].pointer == p);
                    }
                    if reported(hits@.take(i as int), cancels@, p) {
                        let k = choose|k: int|
                            0 <= k < t0.len() && t0[k].pointer
                                == p && !is_cancelled(cancels@, p);
                        assert(t1[k].pointer == p);
                    }
                }
                assert forall|p: PointerId| #[trigger] over_map@.contains_key(p) implies over_map@[p]@
                    == record_picks(base_picks(start, p), pointer_picks(hits@.take(i + 1), cancels@, p))
                    && over_map@[p].wf() by {
                    if p != pointer {
                        assert(pointer_picks(hits@.take(i + 1), cancels@, p) == pointer_picks(
                            hits@.take(i as int),
                            cancels@,
                            p,
                        ));
                    }
                }
            }
        } else {
            proof {
                assert forall|p: PointerId| #[trigger] over_map@.contains_key(p) implies over_map@[p]@
                    == record_picks(base_picks(start, p), pointer_picks(hits@.take(i + 1), cancels@, p)) by {
                    assert(pointer_picks(hits@.take(i + 1), cancels@, p) == pointer_picks(
                        hits@.take(i as int),
                        cancels@,
                        p,
                    ));
                }
                assert forall|p: PointerId| #[trigger]
                    over_map@.contains_key(p) <==> (start.contains_key(p) || reported(
                        hits@.take(i + 1),
                        cancels@,
                        p,
                    )) by {
                    if reported(hits@.take(i + 1), cancels@, p) {
                        let k = choose|k: int|
                            0 <= k < t1.len() && t1[k].pointer == p
                                && !is_cancelled(cancels@, p);
                        if k < i {
                            assert(t0[k].pointer == p);
                        }
                    }
                    if reported(hits@.take(i as int), cancels@, p) {
                        let k = choose|k: int|
                            0 <= k < t0.len() && t0[k].pointer
                                == p && !is_cancelled(cancels@, p);
                        assert(t1[k].pointer == p);
                    }
                }
            }
        }
        i = i + 1;
    }
    proof {
        assert(hits@.take(hits@.len() as int) =~= hits@);
    }
}

/// Adds the entities that a pointer hovers through its picks to `set`.
fn walk_hover(set: &mut VecMap<Entity, HitData>, layers: &LayerMap, pickables: &VecMap<Entity, Pickable>)
    requires
        old(set).wf(),
        pickables.wf(),
    ensures
        final(set).wf(),
        final(set)@ == old(set)@.union_prefer_right(hovered(layers.entries(), pickables@)),
{
    let ghost s = layers.entries();
    let ghost pk = pickables@;
    let ghost base = set@;
    proof {
        lemma_first_blocker(s, pk);
    }
    let mut i: usize = 0;
    let mut done = false;
    while i < layers.len() && !done
        invariant
            i <= s.len(),
            s == layers.entries(),
            pk == pickables@,
            pickables.wf(),
            set.wf(),
            first_blocker(s, pk) <= s.len(),
            forall|k: int|
                0 <= k < first_blocker(s, pk) ==> !spec_blocks(#[trigger] pickable_of(pk, s[k].1.0)),
            first_blocker(s, pk) < s.len() ==> spec_blocks(
                pickable_of(pk, s[first_blocker(s, pk) as int].1.0),
            ),
            !done ==> i <= first_blocker(s, pk) && set@ == base.union_prefer_right(
                entries_to_map(emitting(s.take(i as int), pk)),
            ),
            done ==> first_blocker(s, pk) < s.len() && set@ == base.union_prefer_right(
                entries_to_map(emitting(s.take((first_blocker(s, pk) + 1) as int), pk)),
            ),
        decreases s.len() - i,
    {
        let (_, (entity, hit)) = layers.entry_at(i);
        proof {
            assert(s.take(i + 1).drop_last() =~= s.take(i as int));
            assert(s.take(i + 1).last() == s[i as int]);
        }
        let ghost before = set@;
        let (emit, block) = match pickables.get(&entity) {
            Some(p) => (p.should_emit_events, p.should_block_lower),
            None => (true, true),
        };
        if emit {
            set.insert(entity, hit);
        }
        proof {
            let m = entries_to_map(emitting(s.take(i as int), pk));
            assert(pickable_of(pk, entity) matches Some(p) ==> p.should_emit_events == emit
                && p.should_block_lower == block);
            assert(pickable_of(pk, entity) is None ==> emit && block);
            assert(spec_emits(pickable_of(pk, entity)) == emit);
            assert(spec_blocks(pickable_of(pk, entity)) == block);
            assert(s[i as int].1 == (entity, hit));
            if emit {
                let e0 = emitting(s.take(i as int), pk);
                assert(emitting(s.take(i + 1), pk) == e0.push((entity, hit)));
                assert(e0.push((entity, hit)).drop_last() =~= e0);
                assert(entries_to_map(e0.push((entity, hit))) == m.insert(entity, hit));
                assert(base.union_prefer_right(m).insert(entity, hit) =~= base.union_prefer_right(
                    m.insert(entity, hit),
                ));
            } else {
                assert(emitting(s.take(i + 1), pk) == emitting(s.take(i as int), pk));
            }
            if block {
                if (i as int) < first_blocker(s, pk) {
                    assert(!spec_blocks(pickable_of(pk, s[i as int].1.0)));
                }
                assert(first_blocker(s, pk) == i);
            } else {
                if i as int == first_blocker(s, pk) {
                    assert(spec_blocks(pickable_of(pk, s[i as int].1.0)));
                }
            }
        }
        if block {
            done = true;
        }
        i = i + 1;
    }
    proof {
        if done {
            assert(reached(s, pk) == first_blocker(s, pk) + 1);
        } else {
            assert(i == s.len());
            assert(reached(s, pk) == s.len());
            assert(s.take(s.len() as int) =~= s);
        }
    }
}

/// Build the set of hovered entities of each active pointer, accounting for layer, depth and
/// [`Pickable`]: each pointer hovers the emitting entities among its picks in walk order, down to
/// and including the first pick that blocks the ones below it.
fn build_hover_map(
    pointers: &Vec<PointerId>,
    pickables: &VecMap<Entity, Pickable>,
    over_map: &OverMap,
    hover_map: &mut HoverMap,
)
    requires
        nested_wf(old(hover_map).0),
        over_wf(*over_map),
        pickables.wf(),
    ensures
        nested_wf(final(hover_map).0),
        forall|p: PointerId|
            #[trigger] final(hover_map).0@.contains_key(p) <==> (old(hover_map).0@.contains_key(p)
                || pointers@.contains(p)),
        forall|p: PointerId|
            #[trigger] final(hover_map).0@.contains_key(p) ==> final(hover_map).0@[p]@ == (if pointers@.contains(
                p,
            ) {
                base_hover(old(hover_map).spec_view(), p).union_prefer_right(
                    hovered_in(over_map@, p, pickables@),
                )
            } else {
                old(hover_map).0@[p]@
            }),
{
    let ghost start = hover_map.spec_view();
    let ghost start_dom = hover_map.0@;
    let mut i: usize = 0;
    while i < pointers.len()
        invariant
            i <= pointers@.len(),
            nested_wf(hover_map.0),
            over_wf(*over_map),
            pickables.wf(),
            start == nested_view(old(hover_map).0),
            forall|p: PointerId| #[trigger]
                start.contains_key(p) <==> old(hover_map).0@.contains_key(p),
            forall|p: PointerId|
                #[trigger] hover_map.0@.contains_key(p) <==> (start.contains_key(p)
                    || pointers@.take(i as int).contains(p)),
            forall|p: PointerId|
                #[trigger] hover_map.0@.contains_key(p) ==> hover_map.0@[p]@ == (if pointers@.take(
                    i as int,
                ).contains(p) {
                    base_hover(start, p).union_prefer_right(hovered_in(over_map@, p, pickables@))
                } else {
                    start[p]
                }),
        decreases pointers@.len() - i,
    {
        let p = pointers[i];
        let ghost t0 = pointers@.take(i as int);
        let ghost t1 = pointers@.take(i + 1);
        proof {
            assert(pointers@.take(i + 1) =~= pointers@.take(i as int).push(p));
        }
        let mut set = match hover_map.0.remove(&p) {
            Some(s) => s,
            None => VecMap::new(),
        };
        let ghost before = set@;
        match over_map.get(&p) {
            Some(layers) => {
                walk_hover(&mut set, layers, pickables);
            },
            None => {
                proof {
                    assert(before.union_prefer_right(Map::<Entity, HitData>::empty()) =~= before);
                }
            },
        }
        proof {
            let w = hovered_in(over_map@, p, pickables@);
            assert(set@ == before.union_prefer_right(w));
            if pointers@.take(i as int).contains(p) {
                let b = base_hover(start, p);
                assert(b.union_prefer_right(w).union_prefer_right(w) =~= b.union_prefer_right(w));
            } else {
                if start.contains_key(p) {
                    assert(before == start[p]);
                } else {
                    assert(before == Map::<Entity, HitData>::empty());
                }
            }
        }
        hover_map.0.insert(p, set);
        proof {
            assert forall|q: PointerId| #[trigger]
                hover_map.0@.contains_key(q) <==> (start.contains_key(q) || pointers@.take(
                    i + 1,
                ).contains(q)) by {
                if q != p && pointers@.take(i + 1).contains(q) {
                    let k = choose|k: int| 0 <= k < t1.len() && t1[k] == q;
                    assert(pointers@.take(i as int)[k] == q);
                }
                if pointers@.take(i as int).contains(q) {
                    let k = choose|k: int| 0 <= k < t0.len() && t0[k] == q;
                    assert(pointers@.take(i + 1)[k] == q);
                }
                assert(pointers@.take(i + 1)[i as int] == p);
            }
            assert forall|q: PointerId| #[trigger] hover_map.0@.contains_key(q) implies hover_map.0@[q]@
                == (if pointers@.take(i + 1).contains(q) {
                base_hover(start, q).union_prefer_right(hovered_in(over_map@, q, pickables@))
            } else {
                start[q]
            }) && hover_map.0@[q].wf() by {
                if q != p {
                    if pointers@.take(i + 1).contains(q) {
                        let k = choose|k: int| 0 <= k < t1.len() && t1[k] == q;
                        assert(pointers@.take(i as int)[k] == q);
                    }
                    if pointers@.take(i as int).contains(q) {
                        let k = choose|k: int| 0 <= k < t0.len() && t0[k] == q;
                        assert(pointers@.take(i + 1)[k] == q);
                    }
                } else {
                    assert(pointers@.take(i + 1)[i as int] == p);
                }
            }
        }
        i = i + 1;
    }
    proof {
        assert(pointers@.take(pointers@.len() as int) =~= pointers@);
    }
}

/// Coalesces all data from inputs and backends to generate a map of the currently hovered
/// entities.
///
/// The current hover map becomes the previous one. Then each active pointer hovers the emitting
/// entities among the picks reported for it this frame (leaving out cancelled pointers), taken in
/// walk order (highest layer first, nearest first) down to and including the first pick that
/// blocks the ones below it. A pick replaces an earlier one of the same pointer, entity, layer
/// and depth.
pub fn update_focus(
    pickables: &VecMap<Entity, Pickable>,
    pointers: &Vec<PointerId>,
    hits: &Vec<PointerHits>,
    cancels: &Vec<PointerCancel>,
    over_map: &mut OverMap,
    hover_map: &mut HoverMap,
    previous_hover_map: &mut PreviousHoverMap,
)
    requires
        pickables.wf(),
        over_wf(*old(over_map)),
        nested_wf(old(hover_map).0),
    ensures
        over_wf(*final(over_map)),
        nested_wf(final(hover_map).0),
        nested_wf(final(previous_hover_map).0),
        final(previous_hover_map).spec_view() == old(hover_map).spec_view(),
        forall|p: PointerId|
            #[trigger] final(over_map)@.contains_key(p) <==> ((old(over_map)@.contains_key(p)
                && pointers@.contains(p)) || reported(hits@, cancels@, p)),
        forall|p: PointerId|
            #[trigger] final(over_map)@.contains_key(p) ==> final(over_map)@[p]@ == record_picks(
                Map::empty(),
                pointer_picks(hits@, cancels@, p),
            ),
        forall|p: PointerId| #[trigger]
            final(hover_map).0@.contains_key(p) <==> pointers@.contains(p),
        forall|p: PointerId|
            #[trigger] final(hover_map).0@.contains_key(p) ==> final(hover_map).0@[p]@
                == hovered_in(final(over_map)@, p, pickables@),
{
    reset_maps(hover_map, previous_hover_map, over_map, pointers);
    let ghost reset_over = over_map@;
    let ghost reset_hover = hover_map.spec_view();
    build_over_map(hits, over_map, cancels);
    proof {
        assert forall|p: PointerId| #[trigger] over_map@.contains_key(p) implies over_map@[p]@
            == record_picks(Map::empty(), pointer_picks(hits@, cancels@, p)) by {
            assert(base_picks(reset_over, p) == Map::<PickKey, (Entity, HitData)>::empty());
        }
    }
    let ghost old_hover_dom = hover_map.0@;
    build_hover_map(pointers, pickables, over_map, hover_map);
    proof {
        assert forall|p: PointerId| #[trigger] hover_map.0@.contains_key(p) implies hover_map.0@[p]@
            == hovered_in(over_map@, p, pickables@) by {
            if old_hover_dom.contains_key(p) {
                assert(pointers@.contains(p));
                assert(base_hover(reset_hover, p) == Map::<Entity, HitData>::empty());
            } else {
                assert(base_hover(reset_hover, p) == Map::<Entity, HitData>::empty());
            }
            assert(Map::<Entity, HitData>::empty().union_prefer_right(
                hovered_in(over_map@, p, pickables@),
            ) =~= hovered_in(over_map@, p, pickables@));
        }
    }
}


/// A component that aggregates the picking interaction state of an entity across all pointers:
/// the interaction with the highest precedence wins.
#[derive(Clone, Copy, PartialEq, Eq, Structural, Debug)]
pub enum PickingInteraction {
    /// The entity is being pressed down by a pointer.
    Pressed,
    /// The entity is being hovered by a pointer.
    Hovered,
    /// No pointers are interacting with this entity.
    NoInteraction,
}

impl Default for PickingInteraction {
    fn default() -> (i: PickingInteraction)
        ensures
            i == PickingInteraction::NoInteraction,
    {
        PickingInteraction::NoInteraction
    }
}

/// The precedence of an interaction: pressed over hovered over none.
pub open spec fn precedence(i: PickingInteraction) -> int {
    match i {
        PickingInteraction::Pressed => 2,
        PickingInteraction::Hovered => 1,
        PickingInteraction::NoInteraction => 0,
    }
}

/// The interaction of higher precedence; the first one on a tie.
pub open spec fn higher(a: PickingInteraction, b: PickingInteraction) -> PickingInteraction {
    if precedence(b) > precedence(a) {
        b
    } else {
        a
    }
}

/// The interaction a pointer has with the entities it hovers: pressed if any of its buttons is
/// pressed, hovered otherwise.
pub open spec fn pointer_level(press: crate::pointer::PointerPress) -> PickingInteraction {
    if press.primary || press.middle || press.secondary {
        PickingInteraction::Pressed
    } else {
        PickingInteraction::Hovered
    }
}

/// Pointer `p` hovers entity `e` in the hover map.
pub open spec fn hovers(hover: Map<PointerId, Map<Entity, HitData>>, p: PointerId, e: Entity) -> bool {
    hover.contains_key(p) && hover[p].contains_key(e)
}

/// The aggregated interaction of entity `e`: the highest-precedence interaction among the
/// pointers that hover it, or none.
pub open spec fn aggregate(
    pointers: Seq<(PointerId, crate::pointer::PointerPress, PointerInteraction)>,
    hover: Map<PointerId, Map<Entity, HitData>>,
    e: Entity,
) -> PickingInteraction
    decreases pointers.len(),
{
    if pointers.len() == 0 {
        PickingInteraction::NoInteraction
    } else {
        let before = aggregate(pointers.drop_last(), hover, e);
        if hovers(hover, pointers.last().0, e) {
            higher(before, pointer_level(pointers.last().1))
        } else {
            before
        }
    }
}

/// The aggregated interaction of an entity is the highest among the pointers that hover it: no
/// hovering pointer has a higher one, and unless it is none, some hovering pointer has it.
pub proof fn lemma_aggregate_is_highest(
    pointers: Seq<(PointerId, crate::pointer::PointerPress, PointerInteraction)>,
    hover: Map<PointerId, Map<Entity, HitData>>,
    e: Entity,
)
    ensures
        forall|k: int|
            0 <= k < pointers.len() && hovers(hover, pointers[k].0, e) ==> precedence(
                pointer_level(#[trigger] pointers[k].1),
            ) <= precedence(aggregate(pointers, hover, e)),
        aggregate(pointers, hover, e) != PickingInteraction::NoInteraction ==> exists|k: int|
            0 <= k < pointers.len() && hovers(hover, pointers[k].0, e) && pointer_level(#[trigger] pointers[k].1)
                == aggregate(pointers, hover, e),
    decreases pointers.len(),
{
    if pointers.len() > 0 {
        let t = pointers.drop_last();
        lemma_aggregate_is_highest(t, hover, e);
        assert forall|k: int| 0 <= k < t.len() implies #[trigger] t[k] == pointers[k] by {}
        let last = pointers.len() - 1;
        assert(pointers[last] == pointers.last());
        assert forall|k: int|
            0 <= k < pointers.len() && hovers(hover, pointers[k].0, e) implies precedence(
                pointer_level(#[trigger] pointers[k].1),
            ) <= precedence(aggregate(pointers, hover, e)) by {
            if k < last {
                assert(t[k] == pointers[k]);
            }
        }
        if aggregate(pointers, hover, e) != aggregate(t, hover, e) {
            assert(pointers[last] == pointers.last());
        } else if aggregate(t, hover, e) != PickingInteraction::NoInteraction {
            let k = choose|k: int|
                0 <= k < t.len() && hovers(hover, t[k].0, e) && pointer_level(#[trigger] t[k].1) == aggregate(t, hover, e);
            assert(pointers[k] == t[k]);
        }
    }
}

/// The interaction that [`update_interactions`] gives an entity some pointer hovers: pressed
/// exactly when a pointer hovering it has any of its buttons (primary, secondary or middle)
/// pressed, and none exactly when no pointer hovers it; hovered otherwise.
pub proof fn lemma_interaction_levels(
    pointers: Seq<(PointerId, crate::pointer::PointerPress, PointerInteraction)>,
    hover: Map<PointerId, Map<Entity, HitData>>,
    e: Entity,
)
    ensures
        aggregate(pointers, hover, e) == PickingInteraction::Pressed <==> exists|k: int|
            0 <= k < pointers.len() && hovers(hover, #[trigger] pointers[k].0, e) && (pointers[k].1.primary
                || pointers[k].1.secondary || pointers[k].1.middle),
        aggregate(pointers, hover, e) == PickingInteraction::NoInteraction <==> forall|k: int|
            0 <= k < pointers.len() ==> !hovers(hover, #[trigger] pointers[k].0, e),
        aggregate(pointers, hover, e) == PickingInteraction::Hovered <==> (exists|k: int|
            0 <= k < pointers.len() && hovers(hover, #[trigger] pointers[k].0, e)) && forall|k: int|
            0 <= k < pointers.len() && hovers(hover, #[trigger] pointers[k].0, e) ==> !(pointers[k].1.primary
                || pointers[k].1.secondary || pointers[k].1.middle),
{
    lemma_aggregate_is_highest(pointers, hover, e);
    let a = aggregate(pointers, hover, e);
    if exists|k: int|
        0 <= k < pointers.len() && hovers(hover, #[trigger] pointers[k].0, e) && (pointers[k].1.primary
            || pointers[k].1.secondary || pointers[k].1.middle) {
        let k = choose|k: int|
            0 <= k < pointers.len() && hovers(hover, #[trigger] pointers[k].0, e) && (pointers[k].1.primary
                || pointers[k].1.secondary || pointers[k].1.middle);
        assert(precedence(pointer_level(pointers[k].1)) <= precedence(a));
    }
    if a != PickingInteraction::NoInteraction {
        let k = choose|k: int|
            0 <= k < pointers.len() && hovers(hover, pointers[k].0, e) && pointer_level(#[trigger] pointers[k].1) == a;
        assert(hovers(hover, pointers[k].0, e));
    }
    if exists|k: int| 0 <= k < pointers.len() && hovers(hover, #[trigger] pointers[k].0, e) {
        let k = choose|k: int| 0 <= k < pointers.len() && hovers(hover, #[trigger] pointers[k].0, e);
        assert(precedence(pointer_level(pointers[k].1)) <= precedence(a));
    }
}

/// Merging the pointers' interactions gives the same result in any order: two lists that hold the
/// same pointers, with the same presses, aggregate to the same interaction for every entity.
pub proof fn lemma_aggregate_order_independent(
    a: Seq<(PointerId, crate::pointer::PointerPress, PointerInteraction)>,
    b: Seq<(PointerId, crate::pointer::PointerPress, PointerInteraction)>,
    hover: Map<PointerId, Map<Entity, HitData>>,
    e: Entity,
)
    requires
        forall|x: (PointerId, crate::pointer::PointerPress, PointerInteraction)| a.contains(x) <==> b.contains(x),
    ensures
        aggregate(a, hover, e) == aggregate(b, hover, e),
{
    lemma_aggregate_is_highest(a, hover, e);
    lemma_aggregate_is_highest(b, hover, e);
    let ra = aggregate(a, hover, e);
    let rb = aggregate(b, hover, e);
    if ra != PickingInteraction::NoInteraction {
        let k = choose|k: int| 0 <= k < a.len() && hovers(hover, a[k].0, e) && pointer_level(#[trigger] a[k].1) == ra;
        assert(a.contains(a[k]));
        let j = choose|j: int| 0 <= j < b.len() && b[j] == a[k];
        assert(precedence(pointer_level(b[j].1)) <= precedence(rb));
    }
    if rb != PickingInteraction::NoInteraction {
        let k = choose|k: int| 0 <= k < b.len() && hovers(hover, b[k].0, e) && pointer_level(#[trigger] b[k].1) == rb;
        assert(b.contains(b[k]));
        let j = choose|j: int| 0 <= j < a.len() && a[j] == b[k];
        assert(precedence(pointer_level(a[j].1)) <= precedence(ra));
    }
}

/// Some pointer hovered entity `e` in the previous hover map.
pub open spec fn previously_hovered(
    pointers: Seq<(PointerId, crate::pointer::PointerPress, PointerInteraction)>,
    previous: Map<PointerId, Map<Entity, HitData>>,
    e: Entity,
) -> bool {
    exists|k: int| 0 <= k < pointers.len() && hovers(previous, pointers[k].0, e)
}

/// Hits are in nondecreasing depth order.
pub open spec fn depth_sorted(s: Seq<(Entity, HitData)>) -> bool {
    forall|i: int, j: int|
        0 <= i < j < s.len() ==> spec_order_key(s[i].1.depth) <= spec_order_key(s[j].1.depth)
}

/// The entities hovered by a pointer, sorted by depth.
pub struct PointerInteraction {
    /// The hovered entities and their hits, nearest first.
    pub sorted_entities: Vec<(Entity, HitData)>,
}

impl PointerInteraction {
    /// A pointer that hovers nothing.
    pub fn new() -> (p: PointerInteraction)
        ensures
            p.sorted_entities@ == Seq::<(Entity, HitData)>::empty(),
    {
        PointerInteraction { sorted_entities: Vec::new() }
    }
}

/// `r` lists the hits at the positions `perm` of `hits`, each position once, and hits of equal
/// depth keep the order they had in `hits`.
pub open spec fn stable_depth_order(r: Seq<(Entity, HitData)>, hits: Seq<(Entity, HitData)>, perm: Seq<int>) -> bool {
    &&& perm.len() == r.len()
    &&& r.len() == hits.len()
    &&& forall|k: int| 0 <= k < perm.len() ==> 0 <= #[trigger] perm[k] < hits.len() && r[k] == hits[perm[k]]
    &&& forall|a: int, b: int| 0 <= a < b < perm.len() ==> #[trigger] perm[a] != #[trigger] perm[b]
    &&& forall|a: int, b: int|
        0 <= a < b < perm.len() && spec_order_key(r[a].1.depth) == spec_order_key(r[b].1.depth) ==> #[trigger] perm[a]
            < #[trigger] perm[b]
}

/// Sorts hits by depth, nearest first; hits of equal depth keep their order.
#[verifier::spinoff_prover]
#[verifier::rlimit(40)]
pub fn sort_by_depth(hits: &Vec<(Entity, HitData)>) -> (r: Vec<(Entity, HitData)>)
    ensures
        depth_sorted(r@),
        r@.to_multiset() == hits@.to_multiset(),
        exists|perm: Seq<int>| stable_depth_order(r@, hits@, perm),
{
    broadcast use vstd::seq_lib::group_to_multiset_ensures;

    let mut r: Vec<(Entity, HitData)> = Vec::new();
    let ghost mut perm: Seq<int> = Seq::empty();
    let mut i: usize = 0;
    while i < hits.len()
        invariant
            i <= hits@.len(),
            depth_sorted(r@),
            r@.to_multiset() == hits@.take(i as int).to_multiset(),
            stable_depth_order(r@, hits@.take(i as int), perm),
        decreases hits@.len() - i,
    {
        let h = hits[i];
        let key = order_key(h.1.depth);
        let mut j: usize = r.len();
        while j > 0 && order_key(r[j - 1].1.depth) > key
            invariant
                j <= r@.len(),
                forall|k: int| j <= k < r@.len() ==> spec_order_key(r@[k].1.depth) > key,
            decreases j,
        {
            j = j - 1;
        }
        let ghost before = r@;
        let ghost p0 = perm;
        r.insert(j, h);
        proof {
            perm = p0.insert(j as int, i as int);
            assert(hits@.take(i + 1) =~= hits@.take(i as int).push(h));
            assert(r@ == before.insert(j as int, h));
            vstd::seq_lib::to_multiset_insert(before, j as int, h);
            vstd::seq_lib::to_multiset_build(hits@.take(i as int), h);
            assert forall|a: int, b: int| 0 <= a < b < r@.len() implies spec_order_key(
                r@[a].1.depth,
            ) <= spec_order_key(r@[b].1.depth) by {
                if b < j {
                    assert(r@[a] == before[a] && r@[b] == before[b]);
                } else if b == j {
                    assert(r@[a] == before[a]);
                    if j > 0 {
                        assert(!(spec_order_key(before[j - 1].1.depth) > key));
                        if a < j - 1 {
                            assert(spec_order_key(before[a].1.depth) <= spec_order_key(
                                before[j - 1].1.depth,
                            ));
                        }
                    }
                } else if a < j {
                    assert(r@[a] == before[a] && r@[b] == before[b - 1]);
                } else if a == j {
                    assert(r@[b] == before[b - 1]);
                } else {
                    assert(r@[a] == before[a - 1] && r@[b] == before[b - 1]);
                }
            }
            let t = hits@.take(i + 1);
            assert forall|k: int| 0 <= k < perm.len() implies 0 <= #[trigger] perm[k] < t.len() && r@[k] == t[perm[k]] by {
                if k < j {
                    assert(perm[k] == p0[k] && r@[k] == before[k]);
                } else if k > j {
                    assert(perm[k] == p0[k - 1] && r@[k] == before[k - 1]);
                }
            }
            assert forall|a: int, b: int| 0 <= a < b < perm.len() implies #[trigger] perm[a] != #[trigger] perm[b] by {
                if a != j && b != j {
                    let a0 = if a < j { a } else { a - 1 };
                    let b0 = if b < j { b } else { b - 1 };
                    assert(perm[a] == p0[a0] && perm[b] == p0[b0]);
                    assert(p0[a0] != p0[b0]);
                } else if a == j {
                    assert(perm[b] == p0[b - 1]);
                } else {
                    assert(perm[a] == p0[a]);
                }
            }
            assert forall|a: int, b: int|
                0 <= a < b < perm.len() && spec_order_key(r@[a].1.depth) == spec_order_key(r@[b].1.depth) implies #[trigger] perm[a]
                < #[trigger] perm[b] by {
                if a != j && b != j {
                    let a0 = if a < j { a } else { a - 1 };
                    let b0 = if b < j { b } else { b - 1 };
                    assert(perm[a] == p0[a0] && perm[b] == p0[b0]);
                    assert(r@[a] == before[a0] && r@[b] == before[b0]);
                } else if a == j {
                    assert(r@[b] == before[b - 1]);
                    assert(spec_order_key(before[b - 1].1.depth) > key);
                } else {
                    assert(perm[a] == p0[a]);
                }
            }
        }
        i = i + 1;
    }
    proof {
        assert(hits@.take(hits@.len() as int) =~= hits@);
    }
    r
}

/// Merge the interaction of one pointer with an entity it hovers into the aggregated map: the
/// stored interaction only changes to one of higher precedence.
fn merge_interaction_states(
    pointer_press: &crate::pointer::PointerPress,
    hovered_entity: &Entity,
    new_interaction_state: &mut VecMap<Entity, PickingInteraction>,
)
    requires
        old(new_interaction_state).wf(),
    ensures
        final(new_interaction_state).wf(),
        final(new_interaction_state)@ == old(new_interaction_state)@.insert(
            *hovered_entity,
            if old(new_interaction_state)@.contains_key(*hovered_entity) {
                higher(old(new_interaction_state)@[*hovered_entity], pointer_level(*pointer_press))
            } else {
                pointer_level(*pointer_press)
            },
        ),
{
    let new_interaction = if pointer_press.is_any_pressed() {
        PickingInteraction::Pressed
    } else {
        PickingInteraction::Hovered
    };
    match new_interaction_state.get(hovered_entity) {
        Some(old_interaction) => {
            let old_interaction = *old_interaction;
            let upgrade = match (old_interaction, new_interaction) {
                (PickingInteraction::Hovered, PickingInteraction::Pressed) => true,
                (PickingInteraction::NoInteraction, PickingInteraction::Pressed) => true,
                (PickingInteraction::NoInteraction, PickingInteraction::Hovered) => true,
                _ => false,
            };
            if old_interaction != new_interaction && upgrade {
                new_interaction_state.insert(*hovered_entity, new_interaction);
            } else {
                proof {
                    assert(new_interaction_state@.insert(*hovered_entity, old_interaction)
                        =~= new_interaction_state@);
                }
            }
        },
        None => {
            new_interaction_state.insert(*hovered_entity, new_interaction);
        },
    }
}


/// Uses the hover maps to update each pointer's [`PointerInteraction`] and each entity's
/// [`PickingInteraction`].
///
/// Each pointer's sorted entities become its hovered entities sorted by depth. Every entity that
/// some pointer hovers gets the highest-precedence interaction among those pointers (pressed if
/// the pointer has a button pressed, hovered otherwise); other entities that some pointer hovered
/// in the previous frame get no interaction. Entities without the component are returned, with
/// the interaction to insert on them.
pub fn update_interactions(
    hover_map: &HoverMap,
    previous_hover_map: &PreviousHoverMap,
    pointers: &mut Vec<(PointerId, crate::pointer::PointerPress, PointerInteraction)>,
    interact: &mut VecMap<Entity, PickingInteraction>,
) -> (inserts: Vec<(Entity, PickingInteraction)>)
    requires
        nested_wf(hover_map.0),
        nested_wf(previous_hover_map.0),
        old(interact).wf(),
    ensures
        final(pointers)@.len() == old(pointers)@.len(),
        forall|k: int|
            0 <= k < old(pointers)@.len() ==> (#[trigger] final(pointers)@[k]).0 == old(
                pointers,
            )@[k].0 && final(pointers)@[k].1 == old(pointers)@[k].1,
        forall|k: int|
            0 <= k < old(pointers)@.len() && hover_map.0@.contains_key(old(pointers)@[k].0)
                ==> depth_sorted((#[trigger] final(pointers)@[k]).2.sorted_entities@)
                && final(pointers)@[k].2.sorted_entities@.to_multiset() == hover_map.0@[old(
                pointers,
            )@[k].0].entries().to_multiset(),
        forall|k: int|
            0 <= k < old(pointers)@.len() && !hover_map.0@.contains_key(old(pointers)@[k].0)
                ==> (#[trigger] final(pointers)@[k]).2.sorted_entities@ == Seq::<
                (Entity, HitData),
            >::empty(),
        final(interact).wf(),
        forall|e: Entity| #[trigger]
            final(interact)@.contains_key(e) <==> old(interact)@.contains_key(e),
        forall|e: Entity|
            #[trigger] old(interact)@.contains_key(e) ==> final(interact)@[e] == (if aggregate(
                old(pointers)@,
                hover_map.spec_view(),
                e,
            ) != PickingInteraction::NoInteraction {
                aggregate(old(pointers)@, hover_map.spec_view(), e)
            } else if previously_hovered(old(pointers)@, previous_hover_map.spec_view(), e) {
                PickingInteraction::NoInteraction
            } else {
                old(interact)@[e]
            }),
        no_dup_keys(inserts@),
        forall|e: Entity|
            #[trigger] entries_to_map(inserts@).contains_key(e) <==> (aggregate(
                old(pointers)@,
                hover_map.spec_view(),
                e,
            ) != PickingInteraction::NoInteraction && !old(interact)@.contains_key(e)),
        forall|e: Entity|
            #[trigger] entries_to_map(inserts@).contains_key(e) ==> entries_to_map(inserts@)[e]
                == aggregate(old(pointers)@, hover_map.spec_view(), e),
{
    let ghost ptrs0 = pointers@;
    let ghost prev = previous_hover_map.spec_view();
    let ghost hv = hover_map.spec_view();
    let ghost start = interact@;
    // Clear all previous hover data from pointers and entities.
    let mut k: usize = 0;
    while k < pointers.len()
        invariant
            k <= pointers@.len(),
            pointers@.len() == ptrs0.len(),
            nested_wf(previous_hover_map.0),
            prev == previous_hover_map.spec_view(),
            forall|kk: int|
                0 <= kk < ptrs0.len() ==> (#[trigger] pointers@[kk]).0 == ptrs0[kk].0
                    && pointers@[kk].1 == ptrs0[kk].1,
            forall|kk: int|
                0 <= kk < k ==> (#[trigger] pointers@[kk]).2.sorted_entities@ == Seq::<
                    (Entity, HitData),
                >::empty(),
            interact.wf(),
            forall|e: Entity| #[trigger] interact@.contains_key(e) <==> start.contains_key(e),
            forall|e: Entity|
                #[trigger] interact@.contains_key(e) ==> interact@[e] == (if previously_hovered(
                    ptrs0.take(k as int),
                    prev,
                    e,
                ) {
                    PickingInteraction::NoInteraction
                } else {
                    start[e]
                }),
        decreases ptrs0.len() - k,
    {
        let id = pointers[k].0;
        let press = pointers[k].1;
        pointers.set(k, (id, press, PointerInteraction::new()));
        let ghost t0 = ptrs0.take(k as int);
        let ghost t1 = ptrs0.take(k + 1);
        proof {
            assert forall|e: Entity| previously_hovered(t1, prev, e) <==> (previously_hovered(
                t0,
                prev,
                e,
            ) || hovers(prev, id, e)) by {
                if previously_hovered(t1, prev, e) {
                    let kk = choose|kk: int| 0 <= kk < t1.len() && hovers(prev, t1[kk].0, e);
                    if kk < k {
                        assert(t0[kk] == t1[kk]);
                    }
                }
                if previously_hovered(t0, prev, e) {
                    let kk = choose|kk: int| 0 <= kk < t0.len() && hovers(prev, t0[kk].0, e);
                    assert(t0[kk] == t1[kk]);
                }
                assert(t1[k as int].0 == id);
            }
        }
        match previous_hover_map.0.get(&id) {
            Some(set) => {
                let mut j: usize = 0;
                while j < set.len()
                    invariant
                        j <= set.entries().len(),
                        set.wf(),
                        interact.wf(),
                        forall|e: Entity| #[trigger]
                            interact@.contains_key(e) <==> start.contains_key(e),
                        forall|e: Entity|
                            #[trigger] interact@.contains_key(e) ==> interact@[e] == (if previously_hovered(
                                t0,
                                prev,
                                e,
                            ) || (exists|jj: int| 0 <= jj < j && set.entries()[jj].0 == e) {
                                PickingInteraction::NoInteraction
                            } else {
                                start[e]
                            }),
                    decreases set.entries().len() - j,
                {
                    let e = set.entry_at(j).0;
                    if interact.contains_key(&e) {
                        interact.insert(e, PickingInteraction::NoInteraction);
                    }
                    proof {
                        assert(set.entries()[j as int].0 == e);
                        assert forall|q: Entity| #[trigger] interact@.contains_key(q) implies interact@[q]
                            == (if previously_hovered(t0, prev, q) || (exists|jj: int|
                            0 <= jj < j + 1 && set.entries()[jj].0 == q) {
                            PickingInteraction::NoInteraction
                        } else {
                            start[q]
                        }) by {
                            if exists|jj: int| 0 <= jj < j + 1 && set.entries()[jj].0 == q {
                                if q != e {
                                    let jj = choose|jj: int|
                                        0 <= jj < j + 1 && set.entries()[jj].0 == q;
                                    assert(jj < j);
                                }
                            }
                        }
                    }
                    j = j + 1;
                }
                proof {
                    assert(set@ == prev[id]);
                    set.lemma_view();
                    assert forall|e: Entity|
                        (exists|jj: int| 0 <= jj < set.entries().len() && set.entries()[jj].0 == e)
                            <==> hovers(prev, id, e) by {
                        lemma_entries_to_map_dom(set.entries(), e);
                    }
                }
            },
            None => {
                proof {
                    assert(!prev.contains_key(id));
                }
            },
        }
        k = k + 1;
    }
    proof {
        assert(ptrs0.take(ptrs0.len() as int) =~= ptrs0);
    }
    let ghost cleared = interact@;
    // Aggregate the interaction of each hovered entity across all pointers.
    let mut state: VecMap<Entity, PickingInteraction> = VecMap::new();
    let mut k: usize = 0;
    while k < pointers.len()
        invariant
            k <= pointers@.len(),
            pointers@.len() == ptrs0.len(),
            nested_wf(hover_map.0),
            hv == hover_map.spec_view(),
            forall|kk: int|
                0 <= kk < ptrs0.len() ==> (#[trigger] pointers@[kk]).0 == ptrs0[kk].0
                    && pointers@[kk].1 == ptrs0[kk].1,
            forall|kk: int|
                k <= kk < ptrs0.len() ==> (#[trigger] pointers@[kk]).2.sorted_entities@ == Seq::<
                    (Entity, HitData),
                >::empty(),
            forall|kk: int|
                0 <= kk < k && hover_map.0@.contains_key(ptrs0[kk].0) ==> depth_sorted(
                    (#[trigger] pointers@[kk]).2.sorted_entities@,
                ) && pointers@[kk].2.sorted_entities@.to_multiset() == hover_map.0@[ptrs0[kk].0].entries().to_multiset(),
            forall|kk: int|
                0 <= kk < k && !hover_map.0@.contains_key(ptrs0[kk].0) ==> (#[trigger] pointers@[kk]).2.sorted_entities@
                    == Seq::<(Entity, HitData)>::empty(),
            state.wf(),
            forall|e: Entity|
                #[trigger] state@.contains_key(e) <==> aggregate(ptrs0.take(k as int), hv, e)
                    != PickingInteraction::NoInteraction,
            forall|e: Entity|
                #[trigger] state@.contains_key(e) ==> state@[e] == aggregate(
                    ptrs0.take(k as int),
                    hv,
                    e,
                ),
        decreases ptrs0.len() - k,
    {
        let id = pointers[k].0;
        let press = pointers[k].1;
        let ghost t0 = ptrs0.take(k as int);
        let ghost t1 = ptrs0.take(k + 1);
        proof {
            assert(t1.drop_last() =~= t0);
            assert(t1.last() == ptrs0[k as int]);
        }
        match hover_map.0.get(&id) {
            Some(set) => {
                let entries = set.to_vec();
                let sorted = sort_by_depth(&entries);
                pointers.set(k, (id, press, PointerInteraction { sorted_entities: sorted }));
                let mut j: usize = 0;
                while j < set.len()
                    invariant
                        j <= set.entries().len(),
                        set.wf(),
                        state.wf(),
                        forall|e: Entity|
                            #[trigger] state@.contains_key(e) <==> (aggregate(t0, hv, e)
                                != PickingInteraction::NoInteraction || exists|jj: int|
                                0 <= jj < j && set.entries()[jj].0 == e),
                        forall|e: Entity|
                            #[trigger] state@.contains_key(e) ==> state@[e] == (if exists|jj: int|
                                0 <= jj < j && set.entries()[jj].0 == e {
                                higher(aggregate(t0, hv, e), pointer_level(press))
                            } else {
                                aggregate(t0, hv, e)
                            }),
                    decreases set.entries().len() - j,
                {
                    let e = set.entry_at(j).0;
                    merge_interaction_states(&press, &e, &mut state);
                    proof {
                        assert(set.entries()[j as int].0 == e);
                        assert forall|q: Entity| #[trigger]
                            state@.contains_key(q) <==> (aggregate(t0, hv, q)
                                != PickingInteraction::NoInteraction || exists|jj: int|
                                0 <= jj < j + 1 && set.entries()[jj].0 == q) by {
                            if exists|jj: int| 0 <= jj < j + 1 && set.entries()[jj].0 == q {
                                if q != e {
                                    let jj = choose|jj: int|
                                        0 <= jj < j + 1 && set.entries()[jj].0 == q;
                                    assert(jj < j);
                                }
                            }
                        }
                        assert forall|q: Entity| #[trigger] state@.contains_key(q) implies state@[q]
                            == (if exists|jj: int| 0 <= jj < j + 1 && set.entries()[jj].0 == q {
                            higher(aggregate(t0, hv, q), pointer_level(press))
                        } else {
                            aggregate(t0, hv, q)
                        }) by {
                            if exists|jj: int| 0 <= jj < j + 1 && set.entries()[jj].0 == q {
                                if q != e {
                                    let jj = choose|jj: int|
                                        0 <= jj < j + 1 && set.entries()[jj].0 == q;
                                    assert(jj < j);
                                }
                            }
                        }
                    }
                    j = j + 1;
                }
                proof {
                    assert(set@ == hv[id]);
                    set.lemma_view();
                    assert forall|e: Entity|
                        (exists|jj: int| 0 <= jj < set.entries().len() && set.entries()[jj].0 == e)
                            <==> hovers(hv, id, e) by {
                        lemma_entries_to_map_dom(set.entries(), e);
                    }
                }
            },
            None => {
                proof {
                    assert(!hv.contains_key(id));
                }
            },
        }
        k = k + 1;
    }
    proof {
        assert(ptrs0.take(ptrs0.len() as int) =~= ptrs0);
    }
    // Update the component where it exists, and collect the entities that need one inserted.
    let mut inserts: Vec<(Entity, PickingInteraction)> = Vec::new();
    let mut i: usize = 0;
    while i < state.len()
        invariant
            i <= state.entries().len(),
            state.wf(),
            interact.wf(),
            forall|e: Entity| #[trigger] interact@.contains_key(e) <==> start.contains_key(e),
            forall|e: Entity|
                #[trigger] interact@.contains_key(e) ==> interact@[e] == (if exists|ii: int|
                    0 <= ii < i && state.entries()[ii].0 == e {
                    state@[e]
                } else {
                    cleared[e]
                }),
            no_dup_keys(inserts@),
            forall|e: Entity|
                #[trigger] entries_to_map(inserts@).contains_key(e) <==> (exists|ii: int|
                    0 <= ii < i && state.entries()[ii].0 == e) && !start.contains_key(e),
            forall|e: Entity|
                #[trigger] entries_to_map(inserts@).contains_key(e) ==> entries_to_map(inserts@)[e]
                    == state@[e],
        decreases state.entries().len() - i,
    {
        let (e, st) = *state.entry_at(i);
        proof {
            state.lemma_view();
            crate::map::lemma_entries_to_map_index(state.entries(), i as int);
            assert(state@[e] == st);
        }
        let ghost ins0 = inserts@;
        if interact.contains_key(&e) {
            interact.insert(e, st);
        } else {
            inserts.push((e, st));
            proof {
                assert forall|a: int, b: int|
                    0 <= a < inserts@.len() && 0 <= b < inserts@.len() && a != b implies inserts@[a].0
                    != inserts@[b].0 by {
                    if b == ins0.len() as int {
                        crate::map::lemma_entries_to_map_dom(ins0, inserts@[a].0);
                        let ii = choose|ii: int|
                            0 <= ii < i && state.entries()[ii].0 == inserts@[a].0;
                        assert(ins0[a] == inserts@[a]);
                    } else if a == ins0.len() as int {
                        crate::map::lemma_entries_to_map_dom(ins0, inserts@[b].0);
                        let ii = choose|ii: int|
                            0 <= ii < i && state.entries()[ii].0 == inserts@[b].0;
                        assert(ins0[b] == inserts@[b]);
                    } else {
                        assert(ins0[a] == inserts@[a] && ins0[b] == inserts@[b]);
                    }
                }
                assert(inserts@.drop_last() =~= ins0);
                assert(entries_to_map(inserts@) == entries_to_map(ins0).insert(e, st));
            }
        }
        proof {
            assert(state.entries()[i as int].0 == e);
            assert forall|q: Entity| #[trigger] interact@.contains_key(q) implies interact@[q] == (
            if exists|ii: int| 0 <= ii < i + 1 && state.entries()[ii].0 == q {
                state@[q]
            } else {
                cleared[q]
            }) by {
                if exists|ii: int| 0 <= ii < i + 1 && state.entries()[ii].0 == q {
                    if q != e {
                        let ii = choose|ii: int| 0 <= ii < i + 1 && state.entries()[ii].0 == q;
                        assert(ii < i);
                    }
                }
            }
            assert forall|q: Entity| #[trigger]
                entries_to_map(inserts@).contains_key(q) <==> (exists|ii: int|
                    0 <= ii < i + 1 && state.entries()[ii].0 == q) && !start.contains_key(q) by {
                if exists|ii: int| 0 <= ii < i + 1 && state.entries()[ii].0 == q {
                    if q != e {
                        let ii = choose|ii: int| 0 <= ii < i + 1 && state.entries()[ii].0 == q;
                        assert(ii < i);
                    }
                }
            }
        }
        i = i + 1;
    }
    proof {
        state.lemma_view();
        assert forall|e: Entity|
            (exists|ii: int| 0 <= ii < state.entries().len() && state.entries()[ii].0 == e)
                <==> state@.contains_key(e) by {
            lemma_entries_to_map_dom(state.entries(), e);
        }
        assert forall|e: Entity| #[trigger] start.contains_key(e) implies interact@[e] == (
        if aggregate(ptrs0, hv, e) != PickingInteraction::NoInteraction {
            aggregate(ptrs0, hv, e)
        } else if previously_hovered(ptrs0, prev, e) {
            PickingInteraction::NoInteraction
        } else {
            start[e]
        }) by {
            assert(interact@.contains_key(e));
            if state@.contains_key(e) {
                assert(exists|ii: int|
                    0 <= ii < state.entries().len() && state.entries()[ii].0 == e);
            } else {
                assert(!(exists|ii: int|
                    0 <= ii < state.entries().len() && state.entries()[ii].0 == e));
                assert(cleared.contains_key(e));
            }
        }
        assert forall|e: Entity| #[trigger]
            entries_to_map(inserts@).contains_key(e) <==> (aggregate(ptrs0, hv, e)
                != PickingInteraction::NoInteraction && !start.contains_key(e)) by {
            if state@.contains_key(e) {
                assert(exists|ii: int|
                    0 <= ii < state.entries().len() && state.entries()[ii].0 == e);
            }
        }
        assert forall|e: Entity| #[trigger] entries_to_map(inserts@).contains_key(e) implies entries_to_map(
            inserts@,
        )[e] == aggregate(ptrs0, hv, e) by {
            assert(state@.contains_key(e));
        }
    }
    inserts
}

/// Whether `p` occurs in the list of pointers.
fn contains_pointer(pointers: &Vec<PointerId>, p: &PointerId) -> (b: bool)
    ensures
        b == pointers@.contains(*p),
{
    let mut i: usize = 0;
    while i < pointers.len()
        invariant
            i <= pointers@.len(),
            forall|j: int| 0 <= j < i ==> pointers@[j] != *p,
        decreases pointers@.len() - i,
    {
        if pointers[i] == *p {
            proof {
                assert(pointers@[i as int] == *p);
            }
            return true;
        }
        i = i + 1;
    }
    false
}

/// Whether `p` is among the cancelled pointers.
fn contains_cancel(cancels: &Vec<PointerCancel>, p: &PointerId) -> (b: bool)
    ensures
        b == is_cancelled(cancels@, *p),
{
    let mut i: usize = 0;
    while i < cancels.len()
        invariant
            i <= cancels@.len(),
            forall|j: int| 0 <= j < i ==> cancels@[j].pointer_id != *p,
        decreases cancels@.len() - i,
    {
        if cancels[i].pointer_id == *p {
            proof {
                assert(cancels@[i as int].pointer_id == *p);
            }
            return true;
        }
        i = i + 1;
    }
    false
}

} // verus!
