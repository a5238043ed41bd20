//! Pointers: their identity, buttons, locations, and the input events that change them.
use crate::map::{MapKey, VecMap};
use vstd::prelude::*;

verus! {

/// An entity of the world, identified by its 64-bit id (index and generation).
#[derive(Clone, Copy, PartialEq, Eq, Structural, Debug, Hash)]
pub struct Entity {
    pub bits: u64,
}

impl Entity {
    /// The entity with the given 64-bit id.
    pub fn from_bits(bits: u64) -> (e: Entity)
        ensures
            e.bits == bits,
    {
        Entity { bits }
    }

    /// The 64-bit id of the entity.
    pub fn to_bits(&self) -> (b: u64)
        ensures
            b == self.bits,
    {
        self.bits
    }
}

impl MapKey for Entity {
    fn key_eq(&self, other: &Self) -> (b: bool) {
        *self == *other
    }
}

/// The bit patterns of the two `f32` coordinates of a 2D vector.
#[derive(Clone, Copy, PartialEq, Eq, Structural, Debug, Hash)]
pub struct Vec2Bits {
    pub x: u32,
    pub y: u32,
}

/// The bit patterns of the three `f32` coordinates of a 3D vector.
#[derive(Clone, Copy, PartialEq, Eq, Structural, Debug, Hash)]
pub struct Vec3Bits {
    pub x: u32,
    pub y: u32,
    pub z: u32,
}

/// Identifies a unique pointer entity. `Mouse` and `Touch` pointers are spawned by the inputs.
#[derive(Clone, Copy, PartialEq, Eq, Structural, Debug, Hash)]
pub enum PointerId {
    /// A touch input, numbered by the incoming window touch events.
    Touch(u64),
    /// The mouse pointer.
    Mouse,
    /// A custom, uniquely identified pointer, keyed by the 128 bits of its UUID.
    Custom(u128),
}

impl MapKey for PointerId {
    fn key_eq(&self, other: &Self) -> (b: bool) {
        *self == *other
    }
}

impl PointerId {
    /// Returns true if the pointer is a touch input.
    pub fn is_touch(&self) -> (b: bool)
        ensures
            b == (*self is Touch),
    {
        match self {
            PointerId::Touch(_) => true,
            _ => false,
        }
    }

    /// Returns true if the pointer is the mouse.
    pub fn is_mouse(&self) -> (b: bool)
        ensures
            b == (*self is Mouse),
    {
        match self {
            PointerId::Mouse => true,
            _ => false,
        }
    }

    /// Returns true if the pointer is a custom input.
    pub fn is_custom(&self) -> (b: bool)
        ensures
            b == (*self is Custom),
    {
        match self {
            PointerId::Custom(_) => true,
            _ => false,
        }
    }

    /// Returns the touch id if the pointer is a touch input.
    pub fn get_touch_id(&self) -> (r: Option<u64>)
        ensures
            r == (match *self {
                PointerId::Touch(id) => Some(id),
                _ => None::<u64>,
            }),
    {
        match self {
            PointerId::Touch(id) => Some(*id),
            _ => None,
        }
    }
}

/// Maps pointers to their entity for easy lookups, held in the engine's hash map.
#[verifier::external_body]
pub struct PointerMap {
    inner: bevy_utils::HashMap<PointerId, Entity>,
}

/// The entity of each pointer in a pointer map.
pub uninterp spec fn pointer_map_contents(map: PointerMap) -> Map<PointerId, Entity>;

impl View for PointerMap {
    type V = Map<PointerId, Entity>;

    open spec fn view(&self) -> Map<PointerId, Entity> {
        pointer_map_contents(*self)
    }
}

/// The map built from a list of pointer entities: each pointer id maps to the last entity that
/// carries it.
pub open spec fn pointer_entity_map(pointers: Seq<(Entity, PointerId)>) -> Map<PointerId, Entity>
    decreases pointers.len(),
{
    if pointers.len() == 0 {
        Map::empty()
    } else {
        pointer_entity_map(pointers.drop_last()).insert(pointers.last().1, pointers.last().0)
    }
}

impl PointerMap {
    /// `HashMap::default`: a map without entries.
    #[verifier::external_body]
    fn empty() -> (map: PointerMap)
        ensures
            pointer_map_contents(map).dom() == Set::<PointerId>::empty(),
    {
        PointerMap { inner: bevy_utils::HashMap::default() }
    }

    /// An empty map.
    pub fn new() -> (map: PointerMap)
        ensures
            pointer_map_contents(map).dom() == Set::<PointerId>::empty(),
    {
        Self::empty()
    }

    /// `HashMap::get`: the entity stored for the pointer, if any.
    #[verifier::external_body]
    fn get(&self, pointer_id: PointerId) -> (r: Option<Entity>)
        ensures
            r == (if pointer_map_contents(*self).contains_key(pointer_id) {
                Some(pointer_map_contents(*self)[pointer_id])
            } else {
                None
            }),
    {
        self.inner.get(&pointer_id).copied()
    }

    /// `HashMap::insert`: afterwards the pointer maps to the entity, and the other pointers are
    /// unchanged.
    #[verifier::external_body]
    fn insert(&mut self, pointer_id: PointerId, entity: Entity)
        ensures
            pointer_map_contents(*final(self)) == pointer_map_contents(*old(self)).insert(pointer_id, entity),
    {
        self.inner.insert(pointer_id, entity);
    }

    /// `HashMap::clear`: afterwards the map has no entries.
    #[verifier::external_body]
    fn clear(&mut self)
        ensures
            pointer_map_contents(*final(self)).dom() == Set::<PointerId>::empty(),
    {
        self.inner.clear();
    }

    /// Get the [`Entity`] of the supplied [`PointerId`].
    pub fn get_entity(&self, pointer_id: PointerId) -> (r: Option<Entity>)
        ensures
            r == (if self@.contains_key(pointer_id) {
                Some(self@[pointer_id])
            } else {
                None
            }),
    {
        self.get(pointer_id)
    }
}

/// Update the [`PointerMap`] with the current frame's pointer entities.
pub fn update_pointer_map(pointers: &Vec<(Entity, PointerId)>, map: &mut PointerMap)
    ensures
        final(map)@ == pointer_entity_map(pointers@),
{
    map.clear();
    proof {
        assert(map@ =~= Map::<PointerId, Entity>::empty());
    }
    let mut i: usize = 0;
    while i < pointers.len()
        invariant
            i <= pointers@.len(),
            map@ == pointer_entity_map(pointers@.take(i as int)),
        decreases pointers@.len() - i,
    {
        let (entity, id) = pointers[i];
        map.insert(id, entity);
        proof {
            assert(pointers@.take(i + 1).drop_last() =~= pointers@.take(i as int));
        }
        i = i + 1;
    }
    proof {
        assert(pointers@.take(pointers@.len() as int) =~= pointers@);
    }
}

/// Tracks the state of the pointer's buttons in response to [`InputPress`]es.
#[derive(Clone, Copy, PartialEq, Eq, Structural, Debug)]
pub struct PointerPress {
    pub primary: bool,
    pub secondary: bool,
    pub middle: bool,
}

impl Default for PointerPress {
    fn default() -> (p: PointerPress)
        ensures
            !p.primary && !p.secondary && !p.middle,
    {
        PointerPress { primary: false, secondary: false, middle: false }
    }
}

impl PointerPress {
    /// The press state of one button.
    pub open spec fn spec_is_pressed(&self, button: PointerButton) -> bool {
        match button {
            PointerButton::Primary => self.primary,
            PointerButton::Secondary => self.secondary,
            PointerButton::Middle => self.middle,
        }
    }

    /// Returns true if the primary pointer button is pressed.
    pub fn is_primary_pressed(&self) -> (b: bool)
        ensures
            b == self.primary,
    {
        self.primary
    }

    /// Returns true if the secondary pointer button is pressed.
    pub fn is_secondary_pressed(&self) -> (b: bool)
        ensures
            b == self.secondary,
    {
        self.secondary
    }

    /// Returns true if the middle (tertiary) pointer button is pressed.
    pub fn is_middle_pressed(&self) -> (b: bool)
        ensures
            b == self.middle,
    {
        self.middle
    }

    /// Returns true if any pointer button is pressed.
    pub fn is_any_pressed(&self) -> (b: bool)
        ensures
            b == (self.primary || self.middle || self.secondary),
    {
        self.primary || self.middle || self.secondary
    }
}

/// The stage of the pointer button press event
#[derive(Clone, Copy, PartialEq, Eq, Structural, Debug)]
pub enum PressDirection {
    /// The pointer button was just pressed
    Down,
    /// The pointer button was just released
    Up,
}

/// The button that was just pressed or released
#[derive(Clone, Copy, PartialEq, Eq, Structural, Debug, Hash)]
pub enum PointerButton {
    /// The primary pointer button
    Primary,
    /// The secondary pointer button
    Secondary,
    /// The tertiary pointer button
    Middle,
}

impl PointerButton {
    /// All buttons that a pointer can have, in order.
    pub fn all_buttons() -> (v: Vec<PointerButton>)
        ensures
            v@ == seq![PointerButton::Primary, PointerButton::Secondary, PointerButton::Middle],
    {
        let mut v = Vec::new();
        v.push(PointerButton::Primary);
        v.push(PointerButton::Secondary);
        v.push(PointerButton::Middle);
        proof {
            assert(v@ =~= seq![
                PointerButton::Primary,
                PointerButton::Secondary,
                PointerButton::Middle,
            ]);
        }
        v
    }
}

/// Pointer input event for button presses. Fires when a pointer button changes state.
#[derive(Clone, Copy, PartialEq, Eq, Structural, Debug)]
pub struct InputPress {
    /// ID of the pointer for this event.
    pub pointer_id: PointerId,
    /// Direction of the button press.
    pub direction: PressDirection,
    /// Identifies the pointer button changing in this event.
    pub button: PointerButton,
}

/// The press state of a pointer after one press event of that pointer.
pub open spec fn press_after(p: PointerPress, e: InputPress) -> PointerPress {
    let is_down = e.direction == PressDirection::Down;
    match e.button {
        PointerButton::Primary => PointerPress { primary: is_down, ..p },
        PointerButton::Secondary => PointerPress { secondary: is_down, ..p },
        PointerButton::Middle => PointerPress { middle: is_down, ..p },
    }
}

/// The press state of pointer `id` after the press events, in order; events of other pointers do
/// not touch it.
pub open spec fn press_after_all(p: PointerPress, events: Seq<InputPress>, id: PointerId) -> PointerPress
    decreases events.len(),
{
    if events.len() == 0 {
        p
    } else {
        let before = press_after_all(p, events.drop_last(), id);
        if events.last().pointer_id == id {
            press_after(before, events.last())
        } else {
            before
        }
    }
}

impl InputPress {
    /// Create a new pointer button down event.
    pub fn new_down(id: PointerId, button: PointerButton) -> (e: InputPress)
        ensures
            e == (InputPress { pointer_id: id, direction: PressDirection::Down, button }),
    {
        InputPress { pointer_id: id, direction: PressDirection::Down, button }
    }

    /// Create a new pointer button up event.
    pub fn new_up(id: PointerId, button: PointerButton) -> (e: InputPress)
        ensures
            e == (InputPress { pointer_id: id, direction: PressDirection::Up, button }),
    {
        InputPress { pointer_id: id, direction: PressDirection::Up, button }
    }

    /// Returns true if the `button` of this pointer was just pressed.
    pub fn is_just_down(&self, button: PointerButton) -> (b: bool)
        ensures
            b == (self.button == button && self.direction == PressDirection::Down),
    {
        self.button == button && self.direction == PressDirection::Down
    }

    /// Returns true if the `button` of this pointer was just released.
    pub fn is_just_up(&self, button: PointerButton) -> (b: bool)
        ensures
            b == (self.button == button && self.direction == PressDirection::Up),
    {
        self.button == button && self.direction == PressDirection::Up
    }

    /// Gets the [`PointerId`] of the event.
    pub fn pointer_id(&self) -> (id: PointerId)
        ensures
            id == self.pointer_id,
    {
        self.pointer_id
    }

    /// Gets the [`PressDirection`] of the event.
    pub fn direction(&self) -> (d: PressDirection)
        ensures
            d == self.direction,
    {
        self.direction
    }

    /// Gets the [`PointerButton`] of the event.
    pub fn button(&self) -> (b: PointerButton)
        ensures
            b == self.button,
    {
        self.button
    }

    /// Receives [`InputPress`] events and updates the [`PointerPress`] of every pointer with the
    /// event's id.
    pub fn receive(events: &Vec<InputPress>, pointers: &mut Vec<(PointerId, PointerPress)>)
        ensures
            final(pointers)@.len() == old(pointers)@.len(),
            forall|k: int|
                0 <= k < old(pointers)@.len() ==> #[trigger] final(pointers)@[k] == (
                    old(pointers)@[k].0,
                    press_after_all(old(pointers)@[k].1, events@, old(pointers)@[k].0),
                ),
    {
        let ghost start = pointers@;
        let mut i: usize = 0;
        while i < events.len()
            invariant
                i <= events@.len(),
                pointers@.len() == start.len(),
                forall|k: int|
                    0 <= k < start.len() ==> #[trigger] pointers@[k] == (
                        start[k].0,
                        press_after_all(start[k].1, events@.take(i as int), start[k].0),
                    ),
            decreases events@.len() - i,
        {
            let event = events[i];
            let ghost mid = pointers@;
            let mut j: usize = 0;
            while j < pointers.len()
                invariant
                    i < events@.len(),
                    event == events@[i as int],
                    j <= pointers@.len(),
                    pointers@.len() == start.len(),
                    mid.len() == start.len(),
                    forall|k: int|
                        0 <= k < start.len() ==> #[trigger] mid[k] == (
                            start[k].0,
                            press_after_all(start[k].1, events@.take(i as int), start[k].0),
                        ),
                    forall|k: int| j <= k < start.len() ==> #[trigger] pointers@[k] == mid[k],
                    forall|k: int|
                        0 <= k < j ==> #[trigger] pointers@[k] == (
                            start[k].0,
                            press_after_all(start[k].1, events@.take(i + 1), start[k].0),
                        ),
                decreases start.len() - j,
            {
                proof {
                    assert(events@.take(i + 1).drop_last() =~= events@.take(i as int));
                }
                let (id, press) = pointers[j];
                if id == event.pointer_id {
                    let is_down = event.direction == PressDirection::Down;
                    let new_press = match event.button {
                        PointerButton::Primary => PointerPress { primary: is_down, ..press },
                        PointerButton::Secondary => PointerPress { secondary: is_down, ..press },
                        PointerButton::Middle => PointerPress { middle: is_down, ..press },
                    };
                    pointers.set(j, (id, new_press));
                }
                j = j + 1;
            }
            i = i + 1;
        }
        proof {
            assert(events@.take(events@.len() as int) =~= events@);
        }
    }
}

/// A render target a pointer can be located on, usually a window.
#[derive(Clone, Copy, PartialEq, Eq, Structural, Debug, Hash)]
pub enum RenderTarget {
    /// A window, by its entity.
    Window(Entity),
    /// An image asset, by the 128 bits of its asset id.
    Image(u128),
    /// A manually managed texture view, by its handle number.
    TextureView(u32),
}

/// The location of a pointer: the render target it is on, and the bit patterns of the `f32` x/y
/// position of the pointer on this render target.
#[derive(Clone, Copy, PartialEq, Eq, Structural, Debug)]
pub struct Location {
    /// The render target associated with the pointer, usually a window.
    pub target: RenderTarget,
    /// The position of the pointer in the `target`.
    pub position: Vec2Bits,
}

impl Location {
    /// Returns `true` if this location and a camera rendering to `camera_target` have the same
    /// render target.
    pub fn is_same_target(&self, camera_target: &RenderTarget) -> (b: bool)
        ensures
            b == (self.target == *camera_target),
    {
        self.target == *camera_target
    }
}

/// Component that tracks a pointer's current [`Location`].
#[derive(Clone, Copy, PartialEq, Eq, Structural, Debug)]
pub struct PointerLocation {
    /// The location of the pointer, or `None` if the pointer is inactive.
    pub location: Option<Location>,
}

impl Default for PointerLocation {
    fn default() -> (p: PointerLocation)
        ensures
            p.location is None,
    {
        PointerLocation { location: None }
    }
}

impl PointerLocation {
    /// Returns the location if the pointer is active, or `None` if it is inactive.
    pub fn location(&self) -> (r: Option<Location>)
        ensures
            r == self.location,
    {
        self.location
    }
}

/// Pointer input event for pointer moves. Fires when a pointer changes location.
#[derive(Clone, Copy, PartialEq, Eq, Structural, Debug)]
pub struct InputMove {
    /// The pointer that moved.
    pub pointer_id: PointerId,
    /// Its new location.
    pub location: Location,
    /// The bit patterns of the change in position since the last move event.
    pub delta: Vec2Bits,
}

/// The location of pointer `id` after the move events, in order: the last move of that pointer,
/// or the starting location if it did not move.
pub open spec fn location_after_all(l: PointerLocation, events: Seq<InputMove>, id: PointerId) -> PointerLocation
    decreases events.len(),
{
    if events.len() == 0 {
        l
    } else if events.last().pointer_id == id {
        PointerLocation { location: Some(events.last().location) }
    } else {
        location_after_all(l, events.drop_last(), id)
    }
}

impl InputMove {
    /// Create a new [`InputMove`] event.
    pub fn new(id: PointerId, location: Location, delta: Vec2Bits) -> (e: InputMove)
        ensures
            e == (InputMove { pointer_id: id, location, delta }),
    {
        InputMove { pointer_id: id, location, delta }
    }

    /// Returns the [`PointerId`] of this event.
    pub fn pointer_id(&self) -> (id: PointerId)
        ensures
            id == self.pointer_id,
    {
        self.pointer_id
    }

    /// Returns the [`Location`] of this event.
    pub fn location(&self) -> (l: Location)
        ensures
            l == self.location,
    {
        self.location
    }

    /// Receives [`InputMove`] events and updates the [`PointerLocation`] of every pointer with the
    /// event's id.
    pub fn receive(events: &Vec<InputMove>, pointers: &mut Vec<(PointerId, PointerLocation)>)
        ensures
            final(pointers)@.len() == old(pointers)@.len(),
            forall|k: int|
                0 <= k < old(pointers)@.len() ==> #[trigger] final(pointers)@[k] == (
                    old(pointers)@[k].0,
                    location_after_all(old(pointers)@[k].1, events@, old(pointers)@[k].0),
                ),
    {
        let ghost start = pointers@;
        let mut i: usize = 0;
        while i < events.len()
            invariant
                i <= events@.len(),
                pointers@.len() == start.len(),
                forall|k: int|
                    0 <= k < start.len() ==> #[trigger] pointers@[k] == (
                        start[k].0,
                        location_after_all(start[k].1, events@.take(i as int), start[k].0),
                    ),
            decreases events@.len() - i,
        {
            let event = events[i];
            let ghost mid = pointers@;
            let mut j: usize = 0;
            while j < pointers.len()
                invariant
                    i < events@.len(),
                    event == events@[i as int],
                    j <= pointers@.len(),
                    pointers@.len() == start.len(),
                    mid.len() == start.len(),
                    forall|k: int|
                        0 <= k < start.len() ==> #[trigger] mid[k] == (
                            start[k].0,
                            location_after_all(start[k].1, events@.take(i as int), start[k].0),
                        ),
                    forall|k: int| j <= k < start.len() ==> #[trigger] pointers@[k] == mid[k],
                    forall|k: int|
                        0 <= k < j ==> #[trigger] pointers@[k] == (
                            start[k].0,
                            location_after_all(start[k].1, events@.take(i + 1), start[k].0),
                        ),
                decreases start.len() - j,
            {
                proof {
                    assert(events@.take(i + 1).drop_last() =~= events@.take(i as int));
                }
                let (id, _) = pointers[j];
                if id == event.pointer_id {
                    pointers.set(j, (id, PointerLocation { location: Some(event.location) }));
                }
                j = j + 1;
            }
            i = i + 1;
        }
        proof {
            assert(events@.take(events@.len() as int) =~= events@);
        }
    }
}

} // verus!
