//! Default inputs: turning mouse buttons and touches into pointer inputs.
use crate::events::PointerCancel;
use crate::float_ord::{f32_eq, f32_eq_spec, f64_eq, f64_eq_spec};
use crate::pointer::{
    Entity, InputPress, Location, PointerButton, PointerId, PressDirection, RenderTarget, Vec2Bits,
};
use vstd::prelude::*;

verus! {

/// Enables and disables the default inputs.
#[derive(Clone, Copy, PartialEq, Eq, Structural, Debug)]
pub enum InputPluginSettings {
    /// The plugin is enabled, even if all the specific features are disabled.
    Enabled {
        /// Should touch inputs be updated?
        is_touch_enabled: bool,
        /// Should mouse inputs be updated?
        is_mouse_enabled: bool,
    },
    /// Completely disable the plugin.
    Disabled,
}

impl Default for InputPluginSettings {
    fn default() -> (s: InputPluginSettings)
        ensures
            s == (InputPluginSettings::Enabled { is_touch_enabled: true, is_mouse_enabled: true }),
    {
        InputPluginSettings::Enabled { is_touch_enabled: true, is_mouse_enabled: true }
    }
}

impl InputPluginSettings {
    /// Touch inputs run when the plugin is enabled with touch enabled.
    pub fn is_touch_enabled(&self) -> (b: bool)
        ensures
            b == (*self matches InputPluginSettings::Enabled { is_touch_enabled: true, .. }),
    {
        match self {
            InputPluginSettings::Enabled { is_touch_enabled, .. } => *is_touch_enabled,
            InputPluginSettings::Disabled => false,
        }
    }

    /// Mouse inputs run when the plugin is enabled with the mouse enabled.
    pub fn is_mouse_enabled(&self) -> (b: bool)
        ensures
            b == (*self matches InputPluginSettings::Enabled { is_mouse_enabled: true, .. }),
    {
        match self {
            InputPluginSettings::Enabled { is_mouse_enabled, .. } => *is_mouse_enabled,
            InputPluginSettings::Disabled => false,
        }
    }

    /// Returns `true` if the input plugin is enabled.
    pub fn is_enabled(&self) -> (b: bool)
        ensures
            b == (*self is Enabled),
    {
        match self {
            InputPluginSettings::Enabled { .. } => true,
            InputPluginSettings::Disabled => false,
        }
    }
}

/// A button of the mouse.
#[derive(Clone, Copy, PartialEq, Eq, Structural, Debug, Hash)]
pub enum MouseButton {
    Left,
    Right,
    Middle,
    Back,
    Forward,
    Other(u16),
}

/// Whether a mouse button was pressed or released.
#[derive(Clone, Copy, PartialEq, Eq, Structural, Debug)]
pub enum ButtonState {
    Pressed,
    Released,
}

/// No two mouse buttons are mapped to the same pointer button.
pub open spec fn mapping_unique(m: Map<MouseButton, Option<PointerButton>>) -> bool {
    forall|a: MouseButton, b: MouseButton|
        #![trigger m[a], m[b]]
        m.contains_key(a) && m.contains_key(b) && a != b && m[a] is Some ==> m[a] != m[b]
}

/// The mapping after mapping `mouse_button` to `pointer_button`: any other mouse button mapped to
/// the same pointer button is mapped to nothing.
pub open spec fn mapping_after_set(
    m: Map<MouseButton, Option<PointerButton>>,
    mouse_button: MouseButton,
    pointer_button: Option<PointerButton>,
) -> Map<MouseButton, Option<PointerButton>> {
    Map::new(
        |x: MouseButton| m.contains_key(x) || x == mouse_button,
        |x: MouseButton|
            if x == mouse_button {
                pointer_button
            } else if pointer_button is Some && m[x] == pointer_button {
                None
            } else {
                m[x]
            },
    )
}

/// Setting a mapping is seen by the next read, keeps every pointer button mapped from at most
/// one mouse button, and changes no other mouse button except one that held the same pointer
/// button, which is cleared.
pub proof fn lemma_set_mapping_then_get(
    m: Map<MouseButton, Option<PointerButton>>,
    mouse_button: MouseButton,
    pointer_button: Option<PointerButton>,
    other: MouseButton,
)
    requires
        mapping_unique(m),
    ensures
        mapping_after_set(m, mouse_button, pointer_button).contains_key(mouse_button),
        mapping_after_set(m, mouse_button, pointer_button)[mouse_button] == pointer_button,
        mapping_unique(mapping_after_set(m, mouse_button, pointer_button)),
        other != mouse_button && m.contains_key(other) ==> {
            let after = mapping_after_set(m, mouse_button, pointer_button);
            &&& after.contains_key(other)
            &&& after[other] == (if pointer_button is Some && m[other] == pointer_button {
                None
            } else {
                m[other]
            })
        },
{
    let after = mapping_after_set(m, mouse_button, pointer_button);
    assert forall|a: MouseButton, b: MouseButton|
        after.contains_key(a) && after.contains_key(b) && a != b && after[a] is Some implies #[trigger] after[a]
            != #[trigger] after[b] by {
        if a != mouse_button && b != mouse_button {
            assert(m.contains_key(a) && m.contains_key(b));
            assert(m[a] != m[b] || m[a] is None);
        }
    }
}

/// The mapping of mouse buttons to pointer buttons, held in the engine's hash map.
#[verifier::external_body]
pub struct ButtonMapping {
    map: bevy_utils::HashMap<MouseButton, Option<PointerButton>>,
}

/// The pointer button (or none) of each mapped mouse button.
pub uninterp spec fn button_mapping_contents(mapping: ButtonMapping) -> Map<MouseButton, Option<PointerButton>>;

impl ButtonMapping {
    /// `HashMap::default`: a map without entries.
    #[verifier::external_body]
    fn new() -> (mapping: ButtonMapping)
        ensures
            button_mapping_contents(mapping).dom() == Set::<MouseButton>::empty(),
    {
        ButtonMapping { map: bevy_utils::HashMap::default() }
    }

    /// `HashMap::get`: the value stored for the mouse button, if any.
    #[verifier::external_body]
    fn get(&self, button: MouseButton) -> (r: Option<Option<PointerButton>>)
        ensures
            r == (if button_mapping_contents(*self).contains_key(button) {
                Some(button_mapping_contents(*self)[button])
            } else {
                None
            }),
    {
        self.map.get(&button).copied()
    }

    /// `HashMap::insert`: afterwards the mouse button maps to the value, and the other mouse
    /// buttons are unchanged.
    #[verifier::external_body]
    fn insert(&mut self, button: MouseButton, value: Option<PointerButton>)
        ensures
            button_mapping_contents(*final(self)) == button_mapping_contents(*old(self)).insert(button, value),
    {
        self.map.insert(button, value);
    }

    /// `HashMap::keys`, collected: every mapped mouse button once, in the map's iteration order.
    #[verifier::external_body]
    fn keys(&self) -> (keys: Vec<MouseButton>)
        ensures
            keys@.no_duplicates(),
            forall|m: MouseButton| keys@.contains(m) <==> button_mapping_contents(*self).contains_key(m),
    {
        self.map.keys().copied().collect()
    }
}

/// Maps mouse buttons to pointer buttons. No two mouse buttons map to the same pointer button:
/// assigning a pointer button to a mouse button clears any other mapping to that pointer button.
pub struct MouseButtonSettings {
    mapping: ButtonMapping,
}

impl View for MouseButtonSettings {
    type V = Map<MouseButton, Option<PointerButton>>;

    closed spec fn view(&self) -> Map<MouseButton, Option<PointerButton>> {
        button_mapping_contents(self.mapping)
    }
}

impl MouseButtonSettings {
    /// No two mouse buttons map to the same pointer button.
    #[verifier::type_invariant]
    closed spec fn unique_pointer_buttons(&self) -> bool {
        mapping_unique(button_mapping_contents(self.mapping))
    }

    /// The default mapping: left to primary, right to secondary, middle to middle.
    pub fn default() -> (s: MouseButtonSettings)
        ensures
            mapping_unique(s@),
            s@ == map![
                MouseButton::Left => Some(PointerButton::Primary),
                MouseButton::Right => Some(PointerButton::Secondary),
                MouseButton::Middle => Some(PointerButton::Middle),
            ],
    {
        let empty = ButtonMapping::new();
        proof {
            assert(button_mapping_contents(empty) =~= Map::<MouseButton, Option<PointerButton>>::empty());
        }
        let mut s = MouseButtonSettings { mapping: empty };
        s.set_mapping(MouseButton::Left, Some(PointerButton::Primary));
        s.set_mapping(MouseButton::Right, Some(PointerButton::Secondary));
        s.set_mapping(MouseButton::Middle, Some(PointerButton::Middle));
        proof {
            assert(s@ =~= map![
                MouseButton::Left => Some(PointerButton::Primary),
                MouseButton::Right => Some(PointerButton::Secondary),
                MouseButton::Middle => Some(PointerButton::Middle),
            ]);
        }
        s
    }

    /// The pointer button mapped to a mouse button: `None` for an unconfigured button, and
    /// `Some(None)` for a button mapped to nothing.
    pub fn get_mapping(&self, mouse_button: MouseButton) -> (r: Option<Option<PointerButton>>)
        ensures
            mapping_unique(self@),
            r == (if self@.contains_key(mouse_button) {
                Some(self@[mouse_button])
            } else {
                None
            }),
    {
        proof {
            use_type_invariant(self);
        }
        self.mapping.get(mouse_button)
    }

    /// Maps `mouse_button` to `pointer_button`. Any other mouse button mapped to the same pointer
    /// button is set to `None`, so that pointer buttons stay unique.
    pub fn set_mapping(&mut self, mouse_button: MouseButton, pointer_button: Option<PointerButton>)
        ensures
            mapping_unique(final(self)@),
            final(self)@ == mapping_after_set(old(self)@, mouse_button, pointer_button),
    {
        proof {
            use_type_invariant(&*self);
        }
        let mut mapping = ButtonMapping::new();
        std::mem::swap(&mut mapping, &mut self.mapping);
        let ghost start = button_mapping_contents(mapping);
        let assigns = match pointer_button {
            Some(_) => true,
            None => false,
        };
        if assigns {
            let keys = mapping.keys();
            let mut i: usize = 0;
            while i < keys.len()
                invariant
                    i <= keys@.len(),
                    pointer_button is Some,
                    mapping_unique(start),
                    mapping_unique(button_mapping_contents(mapping)),
                    keys@.no_duplicates(),
                    forall|m: MouseButton| keys@.contains(m) <==> start.contains_key(m),
                    forall|m: MouseButton| #[trigger] button_mapping_contents(mapping).contains_key(m) <==> start.contains_key(m),
                    forall|m: MouseButton|
                        #[trigger] button_mapping_contents(mapping).contains_key(m) ==> button_mapping_contents(mapping)[m] == (if m != mouse_button
                            && start[m] == pointer_button && keys@.take(i as int).contains(m) {
                            None
                        } else {
                            start[m]
                        }),
                decreases keys@.len() - i,
            {
                let m = keys[i];
                let ghost before = button_mapping_contents(mapping);
                proof {
                    assert(keys@.contains(m));
                    assert(!keys@.take(i as int).contains(m)) by {
                        if keys@.take(i as int).contains(m) {
                            let j = choose|j: int| 0 <= j < i && keys@.take(i as int)[j] == m;
                            assert(keys@[j] == keys@[i as int]);
                        }
                    }
                }
                match mapping.get(m) {
                    Some(q) => {
                        if q == pointer_button && m != mouse_button {
                            mapping.insert(m, None);
                        }
                    },
                    None => {},
                }
                proof {
                    assert forall|x: MouseButton| #[trigger] button_mapping_contents(mapping).contains_key(x) implies button_mapping_contents(mapping)[x] == (
                    if x != mouse_button && start[x] == pointer_button && keys@.take(i + 1).contains(x) {
                        None
                    } else {
                        start[x]
                    }) by {
                        assert(keys@.take(i + 1) =~= keys@.take(i as int).push(m));
                        if x != m {
                            assert(keys@.take(i + 1).contains(x) == keys@.take(i as int).contains(x));
                        } else {
                            assert(keys@.take(i + 1)[i as int] == x);
                            assert(keys@.take(i + 1).contains(x));
                            assert(before[x] == start[x]);
                        }
                    }
                }
                i = i + 1;
            }
            proof {
                assert(keys@.take(keys@.len() as int) =~= keys@);
                assert forall|x: MouseButton| #[trigger] button_mapping_contents(mapping).contains_key(x) implies button_mapping_contents(mapping)[x] == (
                if x != mouse_button && pointer_button is Some && start[x] == pointer_button {
                    None
                } else {
                    start[x]
                }) by {
                    assert(keys@.contains(x));
                }
            }
        }
        assert(forall|x: MouseButton| #[trigger] button_mapping_contents(mapping).contains_key(x) ==> button_mapping_contents(mapping)[x] == (if x
            != mouse_button && pointer_button is Some && start[x] == pointer_button {
            None
        } else {
            start[x]
        }));
        let ghost cleared = button_mapping_contents(mapping);
        assert(forall|x: MouseButton| #[trigger] cleared.contains_key(x) <==> start.contains_key(x));
        mapping.insert(mouse_button, pointer_button);
        proof {
            let expected = mapping_after_set(start, mouse_button, pointer_button);
            assert(button_mapping_contents(mapping) =~= expected);
            lemma_set_mapping_then_get(start, mouse_button, pointer_button, mouse_button);
        }
        self.mapping = mapping;
    }
}

/// The pointer input of a mouse button event: a press or release of the mapped pointer button,
/// or nothing for an unconfigured or disabled mouse button.
pub open spec fn mouse_press(mapping: Map<MouseButton, Option<PointerButton>>, button: MouseButton, state: ButtonState) -> Option<InputPress> {
    if mapping.contains_key(button) && mapping[button] is Some {
        Some(
            InputPress {
                pointer_id: PointerId::Mouse,
                direction: if state == ButtonState::Pressed {
                    PressDirection::Down
                } else {
                    PressDirection::Up
                },
                button: mapping[button].unwrap(),
            },
        )
    } else {
        None
    }
}

/// The pointer inputs of the mouse button events, in order.
pub open spec fn mouse_presses(mapping: Map<MouseButton, Option<PointerButton>>, inputs: Seq<(MouseButton, ButtonState)>) -> Seq<InputPress>
    decreases inputs.len(),
{
    if inputs.len() == 0 {
        Seq::empty()
    } else {
        let before = mouse_presses(mapping, inputs.drop_last());
        match mouse_press(mapping, inputs.last().0, inputs.last().1) {
            Some(p) => before.push(p),
            None => before,
        }
    }
}

/// A move of the mouse cursor: its new location, and the position it moved from.
#[derive(Clone, Copy, PartialEq, Eq, Structural, Debug)]
pub struct CursorMove {
    pub location: Location,
    pub previous: Vec2Bits,
}

/// What the mouse events of a frame make the mouse pointer do.
pub struct MouseEvents {
    pub moves: Vec<CursorMove>,
    pub presses: Vec<InputPress>,
}

/// The cursor moves, given as the window and the position of each, in order: each on its
/// window, moving from the position of the one before it, the first from `last`.
pub open spec fn cursor_moves_from(moves: Seq<(Entity, Vec2Bits)>, last: Vec2Bits) -> Seq<CursorMove> {
    Seq::new(
        moves.len(),
        |i: int|
            CursorMove {
                location: Location { target: RenderTarget::Window(moves[i].0), position: moves[i].1 },
                previous: if i == 0 {
                    last
                } else {
                    moves[i - 1].1
                },
            },
    )
}

/// Sends the mouse pointer's events: a move for every cursor move, from the last cursor position,
/// which then becomes the position of the latest move; and the presses of the mouse button
/// events, mapping mouse buttons to pointer buttons and skipping unconfigured and disabled ones.
pub fn mouse_pick_events(
    settings: &MouseButtonSettings,
    cursor_moves: &Vec<(Entity, Vec2Bits)>,
    cursor_last: &mut Vec2Bits,
    inputs: &Vec<(MouseButton, ButtonState)>,
) -> (events: MouseEvents)
    ensures
        events.moves@ == cursor_moves_from(cursor_moves@, *old(cursor_last)),
        *final(cursor_last) == (if cursor_moves@.len() == 0 {
            *old(cursor_last)
        } else {
            cursor_moves@.last().1
        }),
        events.presses@ == mouse_presses(settings@, inputs@),
{
    let ghost start = *cursor_last;
    let mut moves: Vec<CursorMove> = Vec::new();
    let mut j: usize = 0;
    while j < cursor_moves.len()
        invariant
            j <= cursor_moves@.len(),
            moves@ =~= cursor_moves_from(cursor_moves@, start).take(j as int),
            *cursor_last == (if j == 0 {
                start
            } else {
                cursor_moves@[j - 1].1
            }),
        decreases cursor_moves@.len() - j,
    {
        let (window, position) = cursor_moves[j];
        moves.push(
            CursorMove {
                location: Location { target: RenderTarget::Window(window), position },
                previous: *cursor_last,
            },
        );
        *cursor_last = position;
        j = j + 1;
    }
    let mut presses: Vec<InputPress> = Vec::new();
    let mut i: usize = 0;
    while i < inputs.len()
        invariant
            i <= inputs@.len(),
            presses@ == mouse_presses(settings@, inputs@.take(i as int)),
        decreases inputs@.len() - i,
    {
        let (button, state) = inputs[i];
        proof {
            assert(inputs@.take(i + 1).drop_last() =~= inputs@.take(i as int));
            assert(inputs@.take(i + 1).last() == (button, state));
        }
        match settings.get_mapping(button) {
            Some(Some(pointer_button)) => {
                match state {
                    ButtonState::Pressed => presses.push(InputPress::new_down(PointerId::Mouse, pointer_button)),
                    ButtonState::Released => presses.push(InputPress::new_up(PointerId::Mouse, pointer_button)),
                }
            },
            _ => {},
        }
        i = i + 1;
    }
    proof {
        assert(inputs@.take(inputs@.len() as int) =~= inputs@);
    }
    MouseEvents { moves, presses }
}

/// The phase of a touch.
#[derive(Clone, Copy, PartialEq, Eq, Structural, Debug)]
pub enum TouchPhase {
    Started,
    Moved,
    Ended,
    Canceled,
}

/// How hard a touch presses the screen, with the bit patterns of the `f64` values.
#[derive(Clone, Copy, PartialEq, Eq, Structural, Debug)]
pub enum TouchForce {
    /// A force calibrated so that the same number means roughly the same pressure on every
    /// device.
    Calibrated { force: u64, max_possible_force: u64, altitude_angle: Option<u64> },
    /// A force normalized to the maximum the device reports.
    Normalized(u64),
}

/// A touch input event: which touch, its phase, the bit patterns of its position, and its force
/// where the platform reports one.
#[derive(Clone, Copy, PartialEq, Eq, Structural, Debug)]
pub struct TouchInput {
    pub phase: TouchPhase,
    pub position: Vec2Bits,
    pub window: Entity,
    pub force: Option<TouchForce>,
    pub id: u64,
}

/// A pointer move made by a touch: the new location, and the position it moved from (none when
/// the touch just started, which makes a zero delta).
#[derive(Clone, Copy, PartialEq, Eq, Structural, Debug)]
pub struct TouchMove {
    pub pointer_id: PointerId,
    pub location: Location,
    pub previous: Option<Vec2Bits>,
}

/// What the touch events of a frame make the pointers do.
pub struct TouchEvents {
    /// Touch pointers to spawn, at their location.
    pub spawns: Vec<(PointerId, Location)>,
    pub moves: Vec<TouchMove>,
    pub presses: Vec<InputPress>,
    pub cancels: Vec<PointerCancel>,
}

/// The last event of every active touch, by touch id, held in the engine's hash map.
#[verifier::external_body]
pub struct TouchCache {
    map: bevy_utils::HashMap<u64, TouchInput>,
}

/// The events that a touch cache holds, by touch id.
pub uninterp spec fn touch_cache_contents(cache: TouchCache) -> Map<u64, TouchInput>;

impl TouchCache {
    /// `HashMap::default`: a map without entries.
    #[verifier::external_body]
    fn empty() -> (cache: TouchCache)
        ensures
            touch_cache_contents(cache).dom() == Set::<u64>::empty(),
    {
        TouchCache { map: bevy_utils::HashMap::default() }
    }

    /// An empty cache.
    pub fn new() -> (cache: TouchCache)
        ensures
            touch_cache_contents(cache).dom() == Set::<u64>::empty(),
    {
        Self::empty()
    }

    /// `HashMap::get`: the value stored under the key, if any.
    #[verifier::external_body]
    fn get(&self, id: u64) -> (r: Option<TouchInput>)
        ensures
            r == (if touch_cache_contents(*self).contains_key(id) {
                Some(touch_cache_contents(*self)[id])
            } else {
                None
            }),
    {
        self.map.get(&id).copied()
    }

    /// `HashMap::insert`: afterwards the key maps to the value, and the other keys are unchanged.
    #[verifier::external_body]
    fn insert(&mut self, id: u64, touch: TouchInput)
        ensures
            touch_cache_contents(*final(self)) == touch_cache_contents(*old(self)).insert(id, touch),
    {
        self.map.insert(id, touch);
    }

    /// `HashMap::remove`: afterwards the key has no value, and the other keys are unchanged.
    #[verifier::external_body]
    fn remove(&mut self, id: u64)
        ensures
            touch_cache_contents(*final(self)) == touch_cache_contents(*old(self)).remove(id),
    {
        self.map.remove(&id);
    }
}

/// `==` on touch forces: the same kind of force, with equal floats.
pub open spec fn force_eq_spec(a: Option<TouchForce>, b: Option<TouchForce>) -> bool {
    match (a, b) {
        (None, None) => true,
        (Some(TouchForce::Normalized(x)), Some(TouchForce::Normalized(y))) => f64_eq_spec(x, y),
        (
            Some(TouchForce::Calibrated { force: f1, max_possible_force: m1, altitude_angle: a1 }),
            Some(TouchForce::Calibrated { force: f2, max_possible_force: m2, altitude_angle: a2 }),
        ) => f64_eq_spec(f1, f2) && f64_eq_spec(m1, m2) && match (a1, a2) {
            (None, None) => true,
            (Some(x), Some(y)) => f64_eq_spec(x, y),
            _ => false,
        },
        _ => false,
    }
}

/// `==` on touch events: field by field, floats compared as floats.
pub open spec fn touch_eq_spec(a: TouchInput, b: TouchInput) -> bool {
    &&& a.phase == b.phase
    &&& f32_eq_spec(a.position.x, b.position.x)
    &&& f32_eq_spec(a.position.y, b.position.y)
    &&& a.window == b.window
    &&& force_eq_spec(a.force, b.force)
    &&& a.id == b.id
}

fn force_eq(a: Option<TouchForce>, b: Option<TouchForce>) -> (r: bool)
    ensures
        r == force_eq_spec(a, b),
{
    match (a, b) {
        (None, None) => true,
        (Some(TouchForce::Normalized(x)), Some(TouchForce::Normalized(y))) => f64_eq(x, y),
        (
            Some(TouchForce::Calibrated { force: f1, max_possible_force: m1, altitude_angle: a1 }),
            Some(TouchForce::Calibrated { force: f2, max_possible_force: m2, altitude_angle: a2 }),
        ) => f64_eq(f1, f2) && f64_eq(m1, m2) && match (a1, a2) {
            (None, None) => true,
            (Some(x), Some(y)) => f64_eq(x, y),
            _ => false,
        },
        _ => false,
    }
}

/// Whether two touch events are equal, comparing their floats as floats.
pub fn touch_eq(a: &TouchInput, b: &TouchInput) -> (r: bool)
    ensures
        r == touch_eq_spec(*a, *b),
{
    a.phase == b.phase && f32_eq(a.position.x, b.position.x) && f32_eq(a.position.y, b.position.y)
        && a.window == b.window && force_eq(a.force, b.force) && a.id == b.id
}

/// Sends touch pointer events, and keeps the last event of every active touch.
///
/// A started touch spawns its pointer at its location, moves it there and presses its primary
/// button. A moved touch moves its pointer, unless the event equals the touch's last event, in
/// which case no further touch of this frame is processed. An ended or cancelled touch releases the
/// primary button and cancels the pointer. Locations are on the primary window. Events compare
/// field by field, their floats as floats.
pub fn touch_pick_events(
    touches: &Vec<TouchInput>,
    primary_window: Entity,
    location_cache: &mut TouchCache,
) -> (out: TouchEvents)
    ensures
        (out.spawns@, out.moves@, out.presses@, out.cancels@, touch_cache_contents(*final(location_cache)))
            == touch_steps(touches@, primary_window, touch_cache_contents(*old(location_cache))),
{
    let mut spawns: Vec<(PointerId, Location)> = Vec::new();
    let mut moves: Vec<TouchMove> = Vec::new();
    let mut presses: Vec<InputPress> = Vec::new();
    let mut cancels: Vec<PointerCancel> = Vec::new();
    let ghost start = touch_cache_contents(*location_cache);
    let mut i: usize = 0;
    let mut stopped = false;
    while i < touches.len() && !stopped
        invariant
            i <= touches@.len(),
            !stopped ==> (spawns@, moves@, presses@, cancels@, touch_cache_contents(*location_cache)) == touch_steps(
                touches@.take(i as int),
                primary_window,
                start,
            ),
            stopped ==> (spawns@, moves@, presses@, cancels@, touch_cache_contents(*location_cache)) == touch_steps(
                touches@,
                primary_window,
                start,
            ),
            !stopped ==> !touch_stops(touches@.take(i as int), primary_window, start),
            stopped ==> i > 0 && touch_stops(touches@.take(i as int), primary_window, start),
        decreases touches@.len() - i,
    {
        let touch = touches[i];
        let ghost t1 = touches@.take(i + 1);
        proof {
            assert(t1.drop_last() =~= touches@.take(i as int));
            assert(t1.last() == touch);
        }
        let pointer = PointerId::Touch(touch.id);
        let location = Location { target: RenderTarget::Window(primary_window), position: touch.position };
        match touch.phase {
            TouchPhase::Started => {
                spawns.push((pointer, location));
                moves.push(TouchMove { pointer_id: pointer, location, previous: None });
                presses.push(InputPress::new_down(pointer, PointerButton::Primary));
                location_cache.insert(touch.id, touch);
            },
            TouchPhase::Moved => {
                match location_cache.get(touch.id) {
                    Some(last) => {
                        if touch_eq(&last, &touch) {
                            stopped = true;
                        } else {
                            moves.push(
                                TouchMove { pointer_id: pointer, location, previous: Some(last.position) },
                            );
                            location_cache.insert(touch.id, touch);
                        }
                    },
                    None => {
                        location_cache.insert(touch.id, touch);
                    },
                }
            },
            _ => {
                presses.push(InputPress::new_up(pointer, PointerButton::Primary));
                location_cache.remove(touch.id);
                cancels.push(PointerCancel { pointer_id: pointer });
            },
        }
        proof {
            if stopped {
                lemma_touch_stops_extends(touches@, i as int + 1, primary_window, start);
            }
        }
        i = i + 1;
    }
    proof {
        if !stopped {
            assert(touches@.take(touches@.len() as int) =~= touches@);
        }
    }
    TouchEvents { spawns, moves, presses, cancels }
}

/// The state of the touch inputs: spawns, moves, presses, cancels, and the last event of every
/// active touch.
pub type TouchState = (
    Seq<(PointerId, Location)>,
    Seq<TouchMove>,
    Seq<InputPress>,
    Seq<PointerCancel>,
    Map<u64, TouchInput>,
);

/// Some move event among the touches equals the cached last event of its touch, which stops
/// the processing of the touches after it.
pub open spec fn touch_stops(touches: Seq<TouchInput>, window: Entity, cache: Map<u64, TouchInput>) -> bool
    decreases touches.len(),
{
    if touches.len() == 0 {
        false
    } else {
        let before = touch_steps(touches.drop_last(), window, cache);
        touch_stops(touches.drop_last(), window, cache) || (!touch_stops(touches.drop_last(), window, cache)
            && touches.last().phase == TouchPhase::Moved && before.4.contains_key(touches.last().id)
            && touch_eq_spec(before.4[touches.last().id], touches.last()))
    }
}

/// The touch events in order, until a move event that equals the last event of its touch.
pub open spec fn touch_steps(touches: Seq<TouchInput>, window: Entity, cache: Map<u64, TouchInput>) -> TouchState
    decreases touches.len(),
{
    if touches.len() == 0 {
        (Seq::empty(), Seq::empty(), Seq::empty(), Seq::empty(), cache)
    } else {
        let s = touch_steps(touches.drop_last(), window, cache);
        if touch_stops(touches.drop_last(), window, cache) {
            s
        } else {
            touch_step(s, touches.last(), window)
        }
    }
}

/// One touch event.
pub open spec fn touch_step(s: TouchState, touch: TouchInput, window: Entity) -> TouchState {
    let pointer = PointerId::Touch(touch.id);
    let location = Location { target: RenderTarget::Window(window), position: touch.position };
    match touch.phase {
        TouchPhase::Started => (
            s.0.push((pointer, location)),
            s.1.push(TouchMove { pointer_id: pointer, location, previous: None }),
            s.2.push(
                InputPress {
                    pointer_id: pointer,
                    direction: PressDirection::Down,
                    button: PointerButton::Primary,
                },
            ),
            s.3,
            s.4.insert(touch.id, touch),
        ),
        TouchPhase::Moved => if s.4.contains_key(touch.id) {
            if touch_eq_spec(s.4[touch.id], touch) {
                s
            } else {
                (
                    s.0,
                    s.1.push(
                        TouchMove {
                            pointer_id: pointer,
                            location,
                            previous: Some(s.4[touch.id].position),
                        },
                    ),
                    s.2,
                    s.3,
                    s.4.insert(touch.id, touch),
                )
            }
        } else {
            (s.0, s.1, s.2, s.3, s.4.insert(touch.id, touch))
        },
        _ => (
            s.0,
            s.1,
            s.2.push(
                InputPress {
                    pointer_id: pointer,
                    direction: PressDirection::Up,
                    button: PointerButton::Primary,
                },
            ),
            s.3.push(PointerCancel { pointer_id: pointer }),
            s.4.remove(touch.id),
        ),
    }
}

/// Once the touches of a frame stop, the later touches change nothing.
pub proof fn lemma_touch_stops_extends(touches: Seq<TouchInput>, n: int, window: Entity, cache: Map<u64, TouchInput>)
    requires
        0 < n <= touches.len(),
        touch_stops(touches.take(n), window, cache),
    ensures
        touch_stops(touches, window, cache),
        touch_steps(touches, window, cache) == touch_steps(touches.take(n), window, cache),
    decreases touches.len() - n,
{
    if n < touches.len() {
        let t = touches.take(n + 1);
        assert(t.drop_last() =~= touches.take(n));
        assert(touch_stops(t, window, cache));
        assert(touch_steps(t, window, cache) == touch_steps(touches.take(n), window, cache));
        lemma_touch_stops_extends(touches, n + 1, window, cache);
    } else {
        assert(touches.take(n) =~= touches);
    }
}

/// Deactivates unused touch pointers: the pointer entities whose touch ended or was cancelled,
/// each listed once.
pub fn deactivate_pointers(pointers: &Vec<(Entity, PointerId)>, touches: &Vec<TouchInput>) -> (despawn: Vec<(Entity, PointerId)>)
    ensures
        forall|i: int, j: int|
            0 <= i < despawn@.len() && 0 <= j < despawn@.len() && i != j ==> despawn@[i] != despawn@[j],
        forall|x: (Entity, PointerId)|
            despawn@.contains(x) <==> (pointers@.contains(x) && exists|t: int|
                0 <= t < touches@.len() && (touches@[t].phase == TouchPhase::Ended
                    || touches@[t].phase == TouchPhase::Canceled) && x.1 == PointerId::Touch(
                    touches@[t].id,
                )),
{
    let mut despawn: Vec<(Entity, PointerId)> = Vec::new();
    let mut t: usize = 0;
    while t < touches.len()
        invariant
            t <= touches@.len(),
            forall|i: int, j: int|
                0 <= i < despawn@.len() && 0 <= j < despawn@.len() && i != j ==> despawn@[i]
                    != despawn@[j],
            forall|x: (Entity, PointerId)|
                despawn@.contains(x) <==> (pointers@.contains(x) && exists|u: int|
                    0 <= u < t && (touches@[u].phase == TouchPhase::Ended || touches@[u].phase
                        == TouchPhase::Canceled) && x.1 == PointerId::Touch(touches@[u].id)),
        decreases touches@.len() - t,
    {
        let touch = touches[t];
        if touch.phase == TouchPhase::Ended || touch.phase == TouchPhase::Canceled {
            let ghost before = despawn@;
            let mut k: usize = 0;
            while k < pointers.len()
                invariant
                    k <= pointers@.len(),
                    touch == touches@[t as int],
                    t < touches@.len(),
                    touch.phase == TouchPhase::Ended || touch.phase == TouchPhase::Canceled,
                    forall|i: int, j: int|
                        0 <= i < despawn@.len() && 0 <= j < despawn@.len() && i != j ==> despawn@[i]
                            != despawn@[j],
                    forall|x: (Entity, PointerId)|
                        #[trigger] despawn@.contains(x) <==> (before.contains(x) || exists|j: int|
                            0 <= j < k && pointers@[j] == x && x.1 == PointerId::Touch(touch.id)),
                decreases pointers@.len() - k,
            {
                let (entity, pointer) = pointers[k];
                let is_match = match pointer {
                    PointerId::Touch(id) => id == touch.id,
                    _ => false,
                };
                let ghost dk = despawn@;
                if is_match && !contains_pair(&despawn, (entity, pointer)) {
                    despawn.push((entity, pointer));
                    proof {
                        assert forall|x: (Entity, PointerId)|
                            despawn@.contains(x) <==> dk.contains(x) || x == (entity, pointer) by {
                            if despawn@.contains(x) {
                                let i = choose|i: int| 0 <= i < despawn@.len() && despawn@[i] == x;
                                if i < dk.len() {
                                    assert(dk[i] == x);
                                }
                            }
                            if dk.contains(x) {
                                let i = choose|i: int| 0 <= i < dk.len() && dk[i] == x;
                                assert(despawn@[i] == x);
                            }
                            assert(despawn@[dk.len() as int] == (entity, pointer));
                        }
                    }
                }
                proof {
                    assert(is_match <==> pointer == PointerId::Touch(touch.id));
                    assert(pointers@[k as int] == (entity, pointer));
                    assert forall|x: (Entity, PointerId)|
                        despawn@.contains(x) <==> (dk.contains(x) || (is_match && x == (entity, pointer))) by {}
                    assert forall|x: (Entity, PointerId)|
                        despawn@.contains(x) <==> (before.contains(x) || exists|j: int|
                            0 <= j < k + 1 && pointers@[j] == x && x.1 == PointerId::Touch(
                                touch.id,
                            )) by {
                        if exists|j: int|
                            0 <= j < k + 1 && pointers@[j] == x && x.1 == PointerId::Touch(
                                touch.id,
                            ) {
                            let j = choose|j: int|
                                0 <= j < k + 1 && pointers@[j] == x && x.1 == PointerId::Touch(
                                    touch.id,
                                );
                            if j == k {
                                assert(x == (entity, pointer));
                            } else {
                                assert(exists|j2: int|
                                    0 <= j2 < k && pointers@[j2] == x && x.1 == PointerId::Touch(
                                        touch.id,
                                    ));
                                assert(dk.contains(x));
                            }
                        }
                        if before.contains(x) {
                            assert(dk.contains(x));
                        }
                        if despawn@.contains(x) && !before.contains(x) {
                            if dk.contains(x) {
                                let j = choose|j: int|
                                    0 <= j < k && pointers@[j] == x && x.1 == PointerId::Touch(touch.id);
                                assert(0 <= j < k + 1 && pointers@[j] == x);
                            } else {
                                assert(x == (entity, pointer));
                                assert(pointers@[k as int] == x && x.1 == PointerId::Touch(touch.id));
                            }
                        }
                    }
                }
                k = k + 1;
            }
            proof {
                assert forall|x: (Entity, PointerId)|
                    despawn@.contains(x) <==> (pointers@.contains(x) && exists|u: int|
                        0 <= u < t + 1 && (touches@[u].phase == TouchPhase::Ended
                            || touches@[u].phase == TouchPhase::Canceled) && x.1 == PointerId::Touch(
                            touches@[u].id,
                        )) by {
                    if pointers@.contains(x) && x.1 == PointerId::Touch(touch.id) {
                        let j = choose|j: int| 0 <= j < pointers@.len() && pointers@[j] == x;
                        assert(exists|j: int|
                            0 <= j < k && pointers@[j] == x && x.1 == PointerId::Touch(touch.id));
                    }
                    if exists|j: int|
                        0 <= j < k && pointers@[j] == x && x.1 == PointerId::Touch(touch.id) {
                        let j = choose|j: int|
                            0 <= j < k && pointers@[j] == x && x.1 == PointerId::Touch(touch.id);
                        assert(pointers@.contains(x));
                        assert(touches@[t as int].id == touch.id);
                    }
                }
            }
        }
        t = t + 1;
    }
    despawn
}

fn contains_pair(v: &Vec<(Entity, PointerId)>, x: (Entity, PointerId)) -> (b: bool)
    ensures
        b == v@.contains(x),
{
    let mut i: usize = 0;
    while i < v.len()
        invariant
            i <= v@.len(),
            forall|j: int| 0 <= j < i ==> v@[j] != x,
        decreases v@.len() - i,
    {
        if v[i].0 == x.0 && v[i].1 == x.1 {
            proof {
                assert(v@[i as int] == x);
            }
            return true;
        }
        i = i + 1;
    }
    false
}

} // verus!
