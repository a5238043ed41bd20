//! Event listening and bubbling.
//!
//! An event on an entity bubbles up the entity hierarchy: every ancestor of the target that
//! listens for the event, starting with the target itself, gets to run its callback, until a
//! callback bursts the bubble or the root of the hierarchy is reached. To bubble many events
//! through the same tree, the listeners met on the way are linked into a graph in which every
//! listener points at the nearest listening ancestor above it.
use crate::map::VecMap;
use crate::pointer::{Entity, Location, PointerId};
use vstd::prelude::*;

verus! {

/// Whether an event should continue to bubble up the entity hierarchy.
#[derive(Clone, Copy, PartialEq, Eq, Structural, Debug)]
pub enum Bubble {
    /// Allows this event to bubble up to its parent.
    Up,
    /// Stops this event from bubbling to the next parent.
    Burst,
}

impl Default for Bubble {
    fn default() -> (b: Bubble)
        ensures
            b == Bubble::Up,
    {
        Bubble::Up
    }
}

impl Bubble {
    /// Stop this event from bubbling to the next parent.
    pub fn burst(&mut self)
        ensures
            *final(self) == Bubble::Burst,
    {
        *self = Bubble::Burst;
    }
}

/// The data a listener's callback receives: the event, with the listener that caught it and the
/// entity it was originally triggered on.
#[derive(Clone, Copy, Debug)]
pub struct ListenedEvent<E> {
    /// The pointer involved in this event.
    pub pointer_id: PointerId,
    /// The location of the pointer during this event.
    pub pointer_location: Location,
    /// The entity that was listening for this event.
    pub listener: Entity,
    /// The entity that this event was originally triggered on.
    pub target: Entity,
    /// Event-specific information.
    pub pointer_event: E,
}

/// An entity of the hierarchy: whether it listens for the event type, and its parent.
#[derive(Clone, Copy, PartialEq, Eq, Structural, Debug)]
pub struct HierarchyNode {
    pub has_listener: bool,
    pub parent: Option<Entity>,
}

/// Following parents from `e` ends, within `fuel` steps, at an entity without a parent or at an
/// entity that is not in the hierarchy.
pub open spec fn chain_ends(h: Map<Entity, HierarchyNode>, e: Entity, fuel: nat) -> bool
    decreases fuel,
{
    h.contains_key(e) ==> match h[e].parent {
        None => true,
        Some(p) => fuel > 0 && chain_ends(h, p, (fuel - 1) as nat),
    }
}

/// The hierarchy has no cycle: from every entity, following parents ends within as many steps
/// as there are entities.
pub open spec fn acyclic(h: Map<Entity, HierarchyNode>) -> bool {
    forall|e: Entity| #[trigger] chain_ends(h, e, h.dom().len())
}

/// The listeners met when walking up from `e` at most `fuel` steps, nearest first. The walk stops
/// at an entity without a parent, or at an entity that is not in the hierarchy (it was removed).
pub open spec fn listeners_above(h: Map<Entity, HierarchyNode>, e: Entity, fuel: nat) -> Seq<Entity>
    decreases fuel,
{
    if !h.contains_key(e) {
        Seq::empty()
    } else {
        let here = if h[e].has_listener {
            seq![e]
        } else {
            Seq::empty()
        };
        match h[e].parent {
            None => here,
            Some(p) => if fuel == 0 {
                here
            } else {
                here + listeners_above(h, p, (fuel - 1) as nat)
            },
        }
    }
}

/// The listeners an event on `e` bubbles through, nearest first.
pub open spec fn bubble_path(h: Map<Entity, HierarchyNode>, e: Entity) -> Seq<Entity> {
    listeners_above(h, e, h.dom().len())
}

/// The first element of a sequence, if any.
pub open spec fn first_of(s: Seq<Entity>) -> Option<Entity> {
    if s.len() > 0 {
        Some(s[0])
    } else {
        None
    }
}

/// The nearest listening ancestor strictly above `e`.
pub open spec fn next_listener_above(h: Map<Entity, HierarchyNode>, e: Entity) -> Option<Entity> {
    match h[e].parent {
        None => None,
        Some(p) => first_of(bubble_path(h, p)),
    }
}

/// More fuel does not change a walk that ends.
pub proof fn lemma_listeners_above_stable(h: Map<Entity, HierarchyNode>, e: Entity, f: nat, g: nat)
    requires
        chain_ends(h, e, f),
        f <= g,
    ensures
        listeners_above(h, e, f) == listeners_above(h, e, g),
        chain_ends(h, e, g),
    decreases f,
{
    if h.contains_key(e) {
        match h[e].parent {
            None => {},
            Some(p) => {
                lemma_listeners_above_stable(h, p, (f - 1) as nat, (g - 1) as nat);
            },
        }
    }
}

/// Every listener on a walk links to the next listener of the walk, and the last one to none.
pub proof fn lemma_listeners_above_next(h: Map<Entity, HierarchyNode>, e: Entity, f: nat, i: int)
    requires
        acyclic(h),
        chain_ends(h, e, f),
        0 <= i < listeners_above(h, e, f).len(),
    ensures
        h.contains_key(listeners_above(h, e, f)[i]),
        h[listeners_above(h, e, f)[i]].has_listener,
        next_listener_above(h, listeners_above(h, e, f)[i]) == (if i + 1 < listeners_above(h, e, f).len() {
            Some(listeners_above(h, e, f)[i + 1])
        } else {
            None::<Entity>
        }),
    decreases f,
{
    let s = listeners_above(h, e, f);
    let here = if h[e].has_listener {
        seq![e]
    } else {
        Seq::<Entity>::empty()
    };
    match h[e].parent {
        None => {
            assert(s == here);
        },
        Some(p) => {
            let rest = listeners_above(h, p, (f - 1) as nat);
            assert(s == here + rest);
            assert(chain_ends(h, p, h.dom().len()));
            if h[e].has_listener && i == 0 {
                if (f - 1) as nat <= h.dom().len() {
                    lemma_listeners_above_stable(h, p, (f - 1) as nat, h.dom().len());
                } else {
                    lemma_listeners_above_stable(h, p, h.dom().len(), (f - 1) as nat);
                }
                assert(s[0] == e);
                assert(bubble_path(h, p) == rest);
                if rest.len() > 0 {
                    assert(s[1] == rest[0]);
                }
            } else {
                let k = i - here.len();
                assert(s[i] == rest[k]);
                lemma_listeners_above_next(h, p, (f - 1) as nat, k);
                if k + 1 < rest.len() {
                    assert(s[i + 1] == rest[k + 1]);
                }
            }
        },
    }
}

/// The listeners an event on `target` bubbles through, nearest first.
pub fn bubble_listeners(hierarchy: &VecMap<Entity, HierarchyNode>, target: Entity) -> (path: Vec<Entity>)
    requires
        hierarchy.wf(),
        acyclic(hierarchy@),
    ensures
        path@ == bubble_path(hierarchy@, target),
{
    let ghost h = hierarchy@;
    let mut path: Vec<Entity> = Vec::new();
    let mut cur = target;
    let ghost mut fuel: nat = h.dom().len();
    proof {
        assert(chain_ends(h, target, h.dom().len()));
        assert(path@ + listeners_above(h, cur, fuel) =~= bubble_path(h, target));
    }
    loop
        invariant_except_break
            chain_ends(h, cur, fuel),
            path@ + listeners_above(h, cur, fuel) == bubble_path(h, target),
        invariant
            hierarchy@ == h,
            hierarchy.wf(),
        ensures
            path@ == bubble_path(h, target),
        decreases fuel,
    {
        match hierarchy.get(&cur) {
            None => {
                proof {
                    assert(path@ + listeners_above(h, cur, fuel) =~= path@);
                }
                break;
            },
            Some(node) => {
                let node = *node;
                let ghost before = path@;
                if node.has_listener {
                    path.push(cur);
                }
                match node.parent {
                    None => {
                        proof {
                            if node.has_listener {
                                assert(before + seq![cur] =~= path@);
                            } else {
                                assert(before + Seq::<Entity>::empty() =~= path@);
                            }
                        }
                        break;
                    },
                    Some(p) => {
                        proof {
                            let rest = listeners_above(h, p, (fuel - 1) as nat);
                            if node.has_listener {
                                assert(before + (seq![cur] + rest) =~= path@ + rest);
                            } else {
                                assert(before + (Seq::<Entity>::empty() + rest) =~= path@ + rest);
                            }
                            fuel = (fuel - 1) as nat;
                        }
                        cur = p;
                    },
                }
            },
        }
    }
    path
}

/// The events that meet a listener, each with the first listener it meets.
pub open spec fn routed_events<E>(h: Map<Entity, HierarchyNode>, events: Seq<(E, Entity)>) -> Seq<(E, Entity)>
    decreases events.len(),
{
    if events.len() == 0 {
        Seq::empty()
    } else {
        let before = routed_events(h, events.drop_last());
        let path = bubble_path(h, events.last().1);
        if path.len() > 0 {
            before.push((events.last().0, path[0]))
        } else {
            before
        }
    }
}

/// Listener `l` is met by some event.
pub open spec fn on_some_path<E>(h: Map<Entity, HierarchyNode>, events: Seq<(E, Entity)>, l: Entity) -> bool {
    exists|i: int| 0 <= i < events.len() && #[trigger] bubble_path(h, events[i].1).contains(l)
}

/// The listeners met by events, each linked to the nearest listener above it, held in the
/// engine's hash map.
#[verifier::external_body]
pub struct ListenerGraph {
    map: bevy_utils::HashMap<Entity, Option<Entity>>,
}

/// The link of each listener in a listener graph.
pub uninterp spec fn listener_graph_contents(graph: ListenerGraph) -> Map<Entity, Option<Entity>>;

impl View for ListenerGraph {
    type V = Map<Entity, Option<Entity>>;

    open spec fn view(&self) -> Map<Entity, Option<Entity>> {
        listener_graph_contents(*self)
    }
}

impl ListenerGraph {
    /// `HashMap::default`: a map without entries.
    #[verifier::external_body]
    fn empty() -> (graph: ListenerGraph)
        ensures
            listener_graph_contents(graph).dom() == Set::<Entity>::empty(),
    {
        ListenerGraph { map: bevy_utils::HashMap::default() }
    }

    /// An empty graph.
    pub fn new() -> (graph: ListenerGraph)
        ensures
            listener_graph_contents(graph).dom() == Set::<Entity>::empty(),
    {
        Self::empty()
    }

    /// `HashMap::get`: the link stored for the listener, if any.
    #[verifier::external_body]
    fn get(&self, listener: Entity) -> (r: Option<Option<Entity>>)
        ensures
            r == (if listener_graph_contents(*self).contains_key(listener) {
                Some(listener_graph_contents(*self)[listener])
            } else {
                None
            }),
    {
        self.map.get(&listener).copied()
    }

    /// `HashMap::insert`: afterwards the listener maps to the link, and the other listeners are
    /// unchanged.
    #[verifier::external_body]
    fn insert(&mut self, listener: Entity, next: Option<Entity>)
        ensures
            listener_graph_contents(*final(self)) == listener_graph_contents(*old(self)).insert(listener, next),
    {
        self.map.insert(listener, next);
    }
}

/// The events of a frame that meet a listener, and the graph of the listeners they meet.
pub struct EventCallbackGraph<E> {
    /// The events that encountered a listener while bubbling up the hierarchy, each with the
    /// first listener it meets, where its bubbling starts.
    pub events: Vec<(E, Entity)>,
    /// Every listener met by an event, linked to the nearest listening ancestor above it.
    pub listener_graph: ListenerGraph,
}

impl<E> Default for EventCallbackGraph<E> {
    /// No events and no listeners.
    fn default() -> (g: EventCallbackGraph<E>)
        ensures
            g.events@.len() == 0,
            g.listener_graph@.dom() == Set::<Entity>::empty(),
    {
        EventCallbackGraph { events: Vec::new(), listener_graph: ListenerGraph::new() }
    }
}

impl<E: Copy> EventCallbackGraph<E> {
    /// Builds the graph of the frame's events, each given with its target, over the hierarchy.
    pub fn build(events: &Vec<(E, Entity)>, hierarchy: &VecMap<Entity, HierarchyNode>) -> (g: EventCallbackGraph<E>)
        requires
            hierarchy.wf(),
            acyclic(hierarchy@),
        ensures
            g.events@ == routed_events(hierarchy@, events@),
            forall|l: Entity|
                #[trigger] g.listener_graph@.contains_key(l) <==> on_some_path(hierarchy@, events@, l),
            forall|l: Entity|
                #[trigger] g.listener_graph@.contains_key(l) ==> g.listener_graph@[l] == next_listener_above(
                    hierarchy@,
                    l,
                ),
    {
        let ghost h = hierarchy@;
        let mut out: Vec<(E, Entity)> = Vec::new();
        let mut graph = ListenerGraph::new();
        proof {
            assert(graph@ =~= Map::<Entity, Option<Entity>>::empty());
        }
        let mut i: usize = 0;
        while i < events.len()
            invariant
                i <= events@.len(),
                hierarchy@ == h,
                hierarchy.wf(),
                acyclic(h),
                out@ == routed_events(h, events@.take(i as int)),
                forall|l: Entity|
                    #[trigger] graph@.contains_key(l) <==> on_some_path(h, events@.take(i as int), l),
                forall|l: Entity|
                    #[trigger] graph@.contains_key(l) ==> graph@[l] == next_listener_above(h, l),
            decreases events@.len() - i,
        {
            let (ev, target) = events[i];
            let ghost t1 = events@.take(i + 1);
            proof {
                assert(t1.drop_last() =~= events@.take(i as int));
                assert(t1.last() == (ev, target));
            }
            let path = bubble_listeners(hierarchy, target);
            if path.len() > 0 {
                out.push((ev, path[0]));
            }
            let ghost g0 = graph@;
            let mut k: usize = 0;
            while k < path.len()
                invariant
                    k <= path@.len(),
                    path@ == bubble_path(h, target),
                    acyclic(h),
                    forall|l: Entity|
                        #[trigger] graph@.contains_key(l) <==> (g0.contains_key(l) || exists|j: int|
                            0 <= j < k && path@[j] == l),
                    forall|l: Entity|
                        #[trigger] graph@.contains_key(l) ==> graph@[l] == next_listener_above(h, l),
                    forall|l: Entity| #[trigger] g0.contains_key(l) ==> g0[l] == next_listener_above(h, l),
                decreases path@.len() - k,
            {
                let l = path[k];
                let next = if k + 1 < path.len() {
                    Some(path[k + 1])
                } else {
                    None
                };
                proof {
                    assert(chain_ends(h, target, h.dom().len()));
                    lemma_listeners_above_next(h, target, h.dom().len(), k as int);
                }
                let ghost gb = graph@;
                graph.insert(l, next);
                proof {
                    assert(graph@ == gb.insert(l, next));
                    assert(next == next_listener_above(h, l));
                    assert forall|x: Entity|
                        #[trigger] graph@.contains_key(x) <==> (g0.contains_key(x) || exists|j: int|
                            0 <= j < k + 1 && path@[j] == x) by {
                        if x == l {
                            assert(path@[k as int] == x);
                        }
                        if exists|j: int| 0 <= j < k + 1 && path@[j] == x {
                            let j = choose|j: int| 0 <= j < k + 1 && path@[j] == x;
                            if j < k {
                                assert(exists|j2: int| 0 <= j2 < k && path@[j2] == x);
                            }
                        }
                    }
                }
                k = k + 1;
            }
            proof {
                assert forall|l: Entity|
                    #[trigger] graph@.contains_key(l) <==> on_some_path(h, t1, l) by {
                    if graph@.contains_key(l) {
                        if g0.contains_key(l) {
                            let j = choose|j: int|
                                0 <= j < i && #[trigger] bubble_path(h, events@.take(i as int)[j].1).contains(l);
                            assert(t1[j] == events@.take(i as int)[j]);
                            assert(bubble_path(h, t1[j].1).contains(l));
                        } else {
                            let j = choose|j: int| 0 <= j < k && path@[j] == l;
                            assert(bubble_path(h, t1[i as int].1).contains(l));
                        }
                    }
                    if on_some_path(h, t1, l) {
                        let j = choose|j: int| 0 <= j < t1.len() && #[trigger] bubble_path(h, t1[j].1).contains(l);
                        if j < i {
                            assert(t1[j] == events@.take(i as int)[j]);
                            assert(bubble_path(h, events@.take(i as int)[j].1).contains(l));
                            assert(on_some_path(h, events@.take(i as int), l));
                        } else {
                            let m = choose|m: int| 0 <= m < path@.len() && path@[m] == l;
                            assert(exists|j2: int| 0 <= j2 < k && path@[j2] == l);
                        }
                    }
                }
            }
            i = i + 1;
        }
        proof {
            assert(events@.take(events@.len() as int) =~= events@);
        }
        EventCallbackGraph { events: out, listener_graph: graph }
    }
}

impl<E> EventCallbackGraph<E> {
    /// Where an event goes after the callback of `node` returned `result`: nowhere when the
    /// bubble bursts, otherwise to the next listener above `node`, if any.
    pub fn next_listener(&self, node: Entity, result: Bubble) -> (r: Option<Entity>)
        ensures
            result == Bubble::Burst ==> r is None,
            result == Bubble::Up ==> r == (if self.listener_graph@.contains_key(node) {
                self.listener_graph@[node]
            } else {
                None::<Entity>
            }),
    {
        match result {
            Bubble::Burst => None,
            Bubble::Up => match self.listener_graph.get(node) {
                Some(next) => next,
                None => None,
            },
        }
    }
}

/// Bubbling through the built graph follows the hierarchy: an event that meets listeners starts at
/// the nearest one, and as long as the callbacks let it bubble up, it visits every listening
/// ancestor of its target in order, nearest first, and stops after the furthest.
pub proof fn lemma_bubbling_visits_listening_ancestors<E>(
    h: Map<Entity, HierarchyNode>,
    events: Seq<(E, Entity)>,
    graph: Map<Entity, Option<Entity>>,
    i: int,
)
    requires
        acyclic(h),
        forall|l: Entity| #[trigger] graph.contains_key(l) <==> on_some_path(h, events, l),
        forall|l: Entity| #[trigger] graph.contains_key(l) ==> graph[l] == next_listener_above(h, l),
        0 <= i < events.len(),
    ensures
        forall|k: int|
            0 <= k < bubble_path(h, events[i].1).len() ==> {
                &&& graph.contains_key(#[trigger] bubble_path(h, events[i].1)[k])
                &&& h[bubble_path(h, events[i].1)[k]].has_listener
                &&& graph[bubble_path(h, events[i].1)[k]] == (if k + 1 < bubble_path(h, events[i].1).len() {
                    Some(bubble_path(h, events[i].1)[k + 1])
                } else {
                    None::<Entity>
                })
            },
{
    let t = events[i].1;
    let p = bubble_path(h, t);
    assert forall|k: int| 0 <= k < p.len() implies {
        &&& graph.contains_key(#[trigger] p[k])
        &&& h[p[k]].has_listener
        &&& graph[p[k]] == (if k + 1 < p.len() {
            Some(p[k + 1])
        } else {
            None::<Entity>
        })
    } by {
        assert(p.contains(p[k]));
        assert(bubble_path(h, events[i].1).contains(p[k]));
        assert(on_some_path(h, events, p[k]));
        assert(graph.contains_key(p[k]));
        assert(chain_ends(h, t, h.dom().len()));
        lemma_listeners_above_next(h, t, h.dom().len(), k);
        assert(h[p[k]].has_listener);
        assert(graph[p[k]] == next_listener_above(h, p[k]));
    }
}

} // verus!
