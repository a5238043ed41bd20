//! Highlighting: which asset an entity shows for its interaction and selection state.
//!
//! The library is generic over the asset handle type `H`: global defaults give one handle per
//! highlight state, and an entity may override each state.
use crate::map::VecMap;
use crate::pointer::Entity;
use crate::selection::PickSelection;
use vstd::prelude::*;

verus! {

/// The interaction state of an entity with the pointers, as the UI reports it.
#[derive(Clone, Copy, PartialEq, Eq, Structural, Debug)]
pub enum Interaction {
    /// The entity is being pressed.
    Pressed,
    /// The entity is being hovered.
    Hovered,
    /// Nothing is happening.
    NoInteraction,
}

/// The global default highlighting assets, one for each highlight state.
#[derive(Clone, Copy, Debug)]
pub struct GlobalHighlight<H> {
    /// Default asset for hovered entities.
    pub hovered: H,
    /// Default asset for pressed entities.
    pub pressed: H,
    /// Default asset for selected entities.
    pub selected: H,
}

/// Used to override one highlighting state.
#[derive(Clone, Copy, Debug)]
pub enum HighlightKind<H> {
    /// A fixed override for this entity.
    Fixed(H),
    /// An asset derived from the entity's initial asset by a function, cached here once computed.
    Dynamic {
        /// The derived asset, once computed.
        cache: Option<H>,
    },
}

/// The asset of an override: the fixed one, or the cached derived one.
pub open spec fn kind_handle<H>(k: HighlightKind<H>) -> Option<H> {
    match k {
        HighlightKind::Fixed(h) => Some(h),
        HighlightKind::Dynamic { cache } => cache,
    }
}

/// The asset of an optional override, if there is one.
pub open spec fn override_handle<H>(k: Option<HighlightKind<H>>) -> Option<H> {
    match k {
        Some(k) => kind_handle(k),
        None => None,
    }
}

impl<H: Copy> HighlightKind<H> {
    /// Get the asset of the override, if available.
    pub fn get_handle(&self) -> (r: Option<H>)
        ensures
            r == kind_handle(*self),
    {
        match self {
            HighlightKind::Fixed(handle) => Some(*handle),
            HighlightKind::Dynamic { cache } => *cache,
        }
    }

    /// The cache of a dynamic override, if this is one.
    pub fn get_dynamic(&self) -> (r: Option<Option<H>>)
        ensures
            r == (match *self {
                HighlightKind::Dynamic { cache } => Some(cache),
                _ => None,
            }),
    {
        match self {
            HighlightKind::Dynamic { cache } => Some(*cache),
            _ => None,
        }
    }

    /// A dynamic override whose asset is not computed yet.
    pub fn new_dynamic() -> (k: HighlightKind<H>)
        ensures
            k == (HighlightKind::<H>::Dynamic { cache: None }),
    {
        HighlightKind::Dynamic { cache: None }
    }
}

/// Overrides the global highlighting assets for an entity.
#[derive(Clone, Copy, Debug)]
pub struct Highlight<H> {
    /// Overrides the appearance when hovered
    pub hovered: Option<HighlightKind<H>>,
    /// Overrides the appearance when pressed
    pub pressed: Option<HighlightKind<H>>,
    /// Overrides the appearance when selected
    pub selected: Option<HighlightKind<H>>,
}

/// The asset of a state: the override's asset if it has one, else the global default.
pub open spec fn choose_handle<H>(default: H, k: Option<HighlightKind<H>>) -> H {
    match override_handle(k) {
        Some(h) => h,
        None => default,
    }
}

/// The override of the hovered state, if the entity has overrides.
pub open spec fn hovered_override<H>(h: Option<Highlight<H>>) -> Option<HighlightKind<H>> {
    match h {
        Some(h) => h.hovered,
        None => None,
    }
}

/// The override of the pressed state, if the entity has overrides.
pub open spec fn pressed_override<H>(h: Option<Highlight<H>>) -> Option<HighlightKind<H>> {
    match h {
        Some(h) => h.pressed,
        None => None,
    }
}

/// The override of the selected state, if the entity has overrides.
pub open spec fn selected_override<H>(h: Option<Highlight<H>>) -> Option<HighlightKind<H>> {
    match h {
        Some(h) => h.selected,
        None => None,
    }
}

fn pick_handle<H: Copy>(default: H, k: Option<HighlightKind<H>>) -> (r: H)
    ensures
        r == choose_handle(default, k),
{
    match k {
        Some(k) => match k.get_handle() {
            Some(h) => h,
            None => default,
        },
        None => default,
    }
}

impl<H: Copy> GlobalHighlight<H> {
    /// The hovered asset: the override if it exists, falling back to the default.
    pub fn hovered(&self, h_override: Option<Highlight<H>>) -> (r: H)
        ensures
            r == choose_handle(self.hovered, hovered_override(h_override)),
    {
        let k = match h_override {
            Some(h) => h.hovered,
            None => None,
        };
        pick_handle(self.hovered, k)
    }

    /// The pressed asset: the override if it exists, falling back to the default.
    pub fn pressed(&self, h_override: Option<Highlight<H>>) -> (r: H)
        ensures
            r == choose_handle(self.pressed, pressed_override(h_override)),
    {
        let k = match h_override {
            Some(h) => h.pressed,
            None => None,
        };
        pick_handle(self.pressed, k)
    }

    /// The selected asset: the override if it exists, falling back to the default.
    pub fn selected(&self, h_override: Option<Highlight<H>>) -> (r: H)
        ensures
            r == choose_handle(self.selected, selected_override(h_override)),
    {
        let k = match h_override {
            Some(h) => h.selected,
            None => None,
        };
        pick_handle(self.selected, k)
    }
}

/// Makes an entity highlightable.
#[derive(Clone, Copy, PartialEq, Eq, Structural, Debug)]
pub struct PickHighlight;

/// The initial asset of a highlightable entity, restored when it is no longer highlighted.
#[derive(Clone, Copy, Debug)]
pub struct InitialHighlight<H> {
    /// The initial asset of the entity.
    pub initial: H,
}

/// Records the initial asset of newly highlightable entities: an entity that already has an
/// [`InitialHighlight`] gets its asset updated; for the others, the component to insert is
/// returned.
pub fn get_initial_highlight_asset<H: Copy>(
    added: &Vec<(Entity, H)>,
    highlighting: &mut VecMap<Entity, InitialHighlight<H>>,
) -> (inserts: Vec<(Entity, InitialHighlight<H>)>)
    requires
        old(highlighting).wf(),
    ensures
        final(highlighting).wf(),
        forall|e: Entity| #[trigger]
            final(highlighting)@.contains_key(e) <==> old(highlighting)@.contains_key(e),
        forall|e: Entity|
            #[trigger] old(highlighting)@.contains_key(e) ==> final(highlighting)@[e].initial == (
            if exists|i: int| 0 <= i < added@.len() && added@[i].0 == e {
                added@[last_index_of(added@, e)].1
            } else {
                old(highlighting)@[e].initial
            }),
        inserts@.len() <= added@.len(),
        forall|i: int|
            0 <= i < inserts@.len() ==> !old(highlighting)@.contains_key(#[trigger] inserts@[i].0),
        inserts@ == new_initials(added@, old(highlighting)@),
{
    let ghost start = highlighting@;
    let mut inserts: Vec<(Entity, InitialHighlight<H>)> = Vec::new();
    let mut i: usize = 0;
    while i < added.len()
        invariant
            i <= added@.len(),
            highlighting.wf(),
            forall|e: Entity| #[trigger] highlighting@.contains_key(e) <==> start.contains_key(e),
            forall|e: Entity|
                #[trigger] highlighting@.contains_key(e) ==> highlighting@[e].initial == (
                if exists|j: int| 0 <= j < i && added@[j].0 == e {
                    added@[last_index_of(added@.take(i as int), e)].1
                } else {
                    start[e].initial
                }),
            inserts@ == new_initials(added@.take(i as int), start),
            inserts@.len() <= i,
        decreases added@.len() - i,
    {
        let (e, material) = added[i];
        let ghost t1 = added@.take(i + 1);
        proof {
            assert(t1.drop_last() =~= added@.take(i as int));
            assert(t1.last() == (e, material));
        }
        if highlighting.contains_key(&e) {
            highlighting.insert(e, InitialHighlight { initial: material });
        } else {
            inserts.push((e, InitialHighlight { initial: material }));
        }
        proof {
            assert forall|q: Entity| #[trigger] highlighting@.contains_key(q) implies highlighting@[q].initial
                == (if exists|j: int| 0 <= j < i + 1 && added@[j].0 == q {
                added@[last_index_of(t1, q)].1
            } else {
                start[q].initial
            }) by {
                lemma_last_index_of(t1, q);
                lemma_last_index_of(added@.take(i as int), q);
                if q == e {
                    assert(added@[i as int].0 == q);
                } else if exists|j: int| 0 <= j < i + 1 && added@[j].0 == q {
                    let j = choose|j: int| 0 <= j < i + 1 && added@[j].0 == q;
                    assert(j < i);
                    assert(added@.take(i as int)[j].0 == q);
                    assert(last_index_of(t1, q) == last_index_of(added@.take(i as int), q));
                }
            }
        }
        i = i + 1;
    }
    proof {
        assert(added@.take(added@.len() as int) =~= added@);
        assert forall|k: int| 0 <= k < inserts@.len() implies !start.contains_key(
            #[trigger] inserts@[k].0,
        ) by {
            lemma_new_initials(added@, start);
        }
        assert forall|e: Entity| #[trigger] start.contains_key(e) implies highlighting@[e].initial
            == (if exists|j: int| 0 <= j < added@.len() && added@[j].0 == e {
            added@[last_index_of(added@, e)].1
        } else {
            start[e].initial
        }) by {
            assert(highlighting@.contains_key(e));
        }
    }
    inserts
}

/// The position of the last entry for entity `e`, or -1.
pub open spec fn last_index_of<H>(s: Seq<(Entity, H)>, e: Entity) -> int
    decreases s.len(),
{
    if s.len() == 0 {
        -1
    } else if s.last().0 == e {
        s.len() - 1
    } else {
        last_index_of(s.drop_last(), e)
    }
}

/// The last index of an entity is that of an entry of the entity, or -1 exactly when no entry has
/// it.
pub proof fn lemma_last_index_of<H>(s: Seq<(Entity, H)>, e: Entity)
    ensures
        -1 <= last_index_of(s, e) < s.len(),
        last_index_of(s, e) >= 0 ==> s[last_index_of(s, e)].0 == e,
        (exists|j: int| 0 <= j < s.len() && s[j].0 == e) <==> last_index_of(s, e) >= 0,
    decreases s.len(),
{
    if s.len() > 0 {
        let t = s.drop_last();
        lemma_last_index_of(t, e);
        if s.last().0 != e {
            if exists|j: int| 0 <= j < s.len() && s[j].0 == e {
                let j = choose|j: int| 0 <= j < s.len() && s[j].0 == e;
                assert(t[j].0 == e);
            }
            if last_index_of(s, e) >= 0 {
                assert(s[last_index_of(s, e)] == t[last_index_of(t, e)]);
            }
        } else {
            assert(s[s.len() - 1].0 == e);
        }
    }
}

/// The initial-asset components to insert for the added entities that have none, in order.
pub open spec fn new_initials<H>(added: Seq<(Entity, H)>, existing: Map<Entity, InitialHighlight<H>>) -> Seq<
    (Entity, InitialHighlight<H>),
>
    decreases added.len(),
{
    if added.len() == 0 {
        Seq::empty()
    } else {
        let before = new_initials(added.drop_last(), existing);
        let (e, h) = added.last();
        if existing.contains_key(e) {
            before
        } else {
            before.push((e, InitialHighlight { initial: h }))
        }
    }
}

/// New initial assets only go to entities that have none.
pub proof fn lemma_new_initials<H>(added: Seq<(Entity, H)>, existing: Map<Entity, InitialHighlight<H>>)
    ensures
        forall|k: int|
            0 <= k < new_initials(added, existing).len() ==> !existing.contains_key(
                #[trigger] new_initials(added, existing)[k].0,
            ),
    decreases added.len(),
{
    if added.len() > 0 {
        lemma_new_initials(added.drop_last(), existing);
        let before = new_initials(added.drop_last(), existing);
        assert forall|k: int| 0 <= k < new_initials(added, existing).len() implies !existing.contains_key(
            #[trigger] new_initials(added, existing)[k].0,
        ) by {
            if k < before.len() {
                assert(new_initials(added, existing)[k] == before[k]);
            }
        }
    }
}

/// The asset an entity shows for its interaction: the pressed or hovered asset, or its initial
/// asset when nothing interacts with it.
pub open spec fn interaction_asset<H>(
    global: GlobalHighlight<H>,
    interaction: Interaction,
    initial: H,
    h_override: Option<Highlight<H>>,
) -> H {
    match interaction {
        Interaction::Pressed => choose_handle(global.pressed, pressed_override(h_override)),
        Interaction::Hovered => choose_handle(global.hovered, hovered_override(h_override)),
        Interaction::NoInteraction => initial,
    }
}

/// Apply highlighting assets to the entities whose interaction changed.
pub fn update_highlight_assets<H: Copy>(
    global_defaults: &GlobalHighlight<H>,
    entities: &mut Vec<(H, Interaction, InitialHighlight<H>, Option<Highlight<H>>)>,
)
    ensures
        final(entities)@.len() == old(entities)@.len(),
        forall|i: int|
            0 <= i < old(entities)@.len() ==> #[trigger] final(entities)@[i] == (
                interaction_asset(
                    *global_defaults,
                    old(entities)@[i].1,
                    old(entities)@[i].2.initial,
                    old(entities)@[i].3,
                ),
                old(entities)@[i].1,
                old(entities)@[i].2,
                old(entities)@[i].3,
            ),
{
    let mut i: usize = 0;
    while i < entities.len()
        invariant
            i <= entities@.len(),
            entities@.len() == old(entities)@.len(),
            forall|j: int| i <= j < entities@.len() ==> #[trigger] entities@[j] == old(entities)@[j],
            forall|j: int|
                0 <= j < i ==> #[trigger] entities@[j] == (
                    interaction_asset(
                        *global_defaults,
                        old(entities)@[j].1,
                        old(entities)@[j].2.initial,
                        old(entities)@[j].3,
                    ),
                    old(entities)@[j].1,
                    old(entities)@[j].2,
                    old(entities)@[j].3,
                ),
        decreases entities@.len() - i,
    {
        let (_, interaction, init, h_override) = entities[i];
        let asset = match interaction {
            Interaction::Pressed => global_defaults.pressed(h_override),
            Interaction::Hovered => global_defaults.hovered(h_override),
            Interaction::NoInteraction => init.initial,
        };
        entities.set(i, (asset, interaction, init, h_override));
        i = i + 1;
    }
}

/// If the interaction state of an entity is none, show the selected asset when it is selected and
/// its initial asset otherwise; other entities keep their asset.
pub fn update_selection<H: Copy>(
    global_defaults: &GlobalHighlight<H>,
    entities: &mut Vec<(H, Interaction, PickSelection, InitialHighlight<H>, Option<Highlight<H>>)>,
)
    ensures
        final(entities)@.len() == old(entities)@.len(),
        forall|i: int|
            0 <= i < old(entities)@.len() ==> #[trigger] final(entities)@[i] == (
                if old(entities)@[i].1 == Interaction::NoInteraction {
                    if old(entities)@[i].2.is_selected {
                        choose_handle(global_defaults.selected, selected_override(old(entities)@[i].4))
                    } else {
                        old(entities)@[i].3.initial
                    }
                } else {
                    old(entities)@[i].0
                },
                old(entities)@[i].1,
                old(entities)@[i].2,
                old(entities)@[i].3,
                old(entities)@[i].4,
            ),
{
    let mut i: usize = 0;
    while i < entities.len()
        invariant
            i <= entities@.len(),
            entities@.len() == old(entities)@.len(),
            forall|j: int| i <= j < entities@.len() ==> #[trigger] entities@[j] == old(entities)@[j],
            forall|j: int|
                0 <= j < i ==> #[trigger] entities@[j] == (
                    if old(entities)@[j].1 == Interaction::NoInteraction {
                        if old(entities)@[j].2.is_selected {
                            choose_handle(
                                global_defaults.selected,
                                selected_override(old(entities)@[j].4),
                            )
                        } else {
                            old(entities)@[j].3.initial
                        }
                    } else {
                        old(entities)@[j].0
                    },
                    old(entities)@[j].1,
                    old(entities)@[j].2,
                    old(entities)@[j].3,
                    old(entities)@[j].4,
                ),
        decreases entities@.len() - i,
    {
        let (asset, interaction, selection, init, h_override) = entities[i];
        if interaction == Interaction::NoInteraction {
            let new_asset = if selection.is_selected {
                global_defaults.selected(h_override)
            } else {
                init.initial
            };
            entities.set(i, (new_asset, interaction, selection, init, h_override));
        }
        i = i + 1;
    }
}

/// Per-entity highlighting assets: the initial asset and optional overrides of each state.
#[derive(Clone, Copy, Debug)]
pub struct Highlighting<H> {
    pub initial: H,
    pub hovered: Option<H>,
    pub pressed: Option<H>,
    pub selected: Option<H>,
}

/// The default highlighting assets, used where an entity has no override.
#[derive(Clone, Copy, Debug)]
pub struct DefaultHighlighting<H> {
    pub hovered: H,
    pub pressed: H,
    pub selected: H,
}

/// The asset of a state: the entity's override if it has one, else the default.
pub open spec fn or_default<H>(o: Option<H>, default: H) -> H {
    match o {
        Some(h) => h,
        None => default,
    }
}

/// The asset an entity shows with per-entity highlighting: pressed or hovered when interacted
/// with; when not, the selected asset if it is selected, else its initial asset.
pub open spec fn highlighting_asset<H>(
    defaults: DefaultHighlighting<H>,
    interaction: Interaction,
    selection: Option<PickSelection>,
    h: Highlighting<H>,
) -> H {
    match interaction {
        Interaction::Pressed => or_default(h.pressed, defaults.pressed),
        Interaction::Hovered => or_default(h.hovered, defaults.hovered),
        Interaction::NoInteraction => if selection matches Some(s) && s.is_selected {
            or_default(h.selected, defaults.selected)
        } else {
            h.initial
        },
    }
}

/// Apply per-entity highlighting assets to the entities whose interaction or selection changed.
pub fn highlight_assets<H: Copy>(
    global_default_highlight: &DefaultHighlighting<H>,
    entities: &mut Vec<(Interaction, H, Option<PickSelection>, Highlighting<H>)>,
)
    ensures
        final(entities)@.len() == old(entities)@.len(),
        forall|i: int|
            0 <= i < old(entities)@.len() ==> #[trigger] final(entities)@[i] == (
                old(entities)@[i].0,
                highlighting_asset(
                    *global_default_highlight,
                    old(entities)@[i].0,
                    old(entities)@[i].2,
                    old(entities)@[i].3,
                ),
                old(entities)@[i].2,
                old(entities)@[i].3,
            ),
{
    let mut i: usize = 0;
    while i < entities.len()
        invariant
            i <= entities@.len(),
            entities@.len() == old(entities)@.len(),
            forall|j: int| i <= j < entities@.len() ==> #[trigger] entities@[j] == old(entities)@[j],
            forall|j: int|
                0 <= j < i ==> #[trigger] entities@[j] == (
                    old(entities)@[j].0,
                    highlighting_asset(
                        *global_default_highlight,
                        old(entities)@[j].0,
                        old(entities)@[j].2,
                        old(entities)@[j].3,
                    ),
                    old(entities)@[j].2,
                    old(entities)@[j].3,
                ),
        decreases entities@.len() - i,
    {
        let (interaction, _, selection, h) = entities[i];
        let asset = match interaction {
            Interaction::Pressed => match h.pressed {
                Some(a) => a,
                None => global_default_highlight.pressed,
            },
            Interaction::Hovered => match h.hovered {
                Some(a) => a,
                None => global_default_highlight.hovered,
            },
            Interaction::NoInteraction => {
                let selected = match selection {
                    Some(s) => s.is_selected,
                    None => false,
                };
                if selected {
                    match h.selected {
                        Some(a) => a,
                        None => global_default_highlight.selected,
                    }
                } else {
                    h.initial
                }
            },
        };
        entities.set(i, (interaction, asset, selection, h));
        i = i + 1;
    }
}

} // verus!
