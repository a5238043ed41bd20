//! Runtime switches of the picking plugins and the per-entity picking behaviour.
use vstd::prelude::*;

verus! {

/// Used to globally toggle picking features at runtime.
#[derive(Clone, Copy, PartialEq, Eq, Structural, Debug)]
pub struct PickingPluginsSettings {
    /// Enables and disables all picking features.
    pub enable: bool,
    /// Enables and disables input collection.
    pub enable_input: bool,
    /// Enables and disables entity highlighting.
    pub enable_highlighting: bool,
    /// Enables and disables updating interaction states of entities.
    pub enable_interacting: bool,
}

impl PickingPluginsSettings {
    /// Whether or not input collection systems should be running.
    pub fn input_enabled(&self) -> (b: bool)
        ensures
            b == (self.enable_input && self.enable),
    {
        self.enable_input && self.enable
    }

    /// Whether or not entity highlighting systems should be running.
    pub fn highlighting_should_run(&self) -> (b: bool)
        ensures
            b == (self.enable_highlighting && self.enable),
    {
        self.enable_highlighting && self.enable
    }

    /// Whether or not systems updating entities' interaction state should be running.
    pub fn interaction_should_run(&self) -> (b: bool)
        ensures
            b == (self.enable_interacting && self.enable),
    {
        self.enable_interacting && self.enable
    }
}

impl Default for PickingPluginsSettings {
    fn default() -> (s: PickingPluginsSettings)
        ensures
            s.enable && s.enable_input && s.enable_highlighting && s.enable_interacting,
    {
        PickingPluginsSettings {
            enable: true,
            enable_input: true,
            enable_highlighting: true,
            enable_interacting: true,
        }
    }
}

/// An optional component that overrides default picking behavior for an entity.
#[derive(Clone, Copy, PartialEq, Eq, Structural, Debug)]
pub struct Pickable {
    /// Should this entity block entities below it from being picked?
    ///
    /// Entities without the [`Pickable`] component block by default.
    pub should_block_lower: bool,
    /// Should this entity emit events when targeted?
    ///
    /// Entities without the [`Pickable`] component emit events by default.
    pub should_emit_events: bool,
}

impl Pickable {
    /// This entity will not block entities beneath it, nor will it emit events: a backend hit on
    /// it is ignored entirely.
    pub fn ignore() -> (p: Pickable)
        ensures
            !p.should_block_lower && !p.should_emit_events,
    {
        Pickable { should_block_lower: false, should_emit_events: false }
    }
}

impl Default for Pickable {
    fn default() -> (p: Pickable)
        ensures
            p.should_block_lower && p.should_emit_events,
    {
        Pickable { should_block_lower: true, should_emit_events: true }
    }
}

/// Whether a hit on an entity with this optional [`Pickable`] hides the entities below it.
pub open spec fn spec_blocks(p: Option<Pickable>) -> bool {
    match p {
        Some(p) => p.should_block_lower,
        None => true,
    }
}

/// Whether a hit on an entity with this optional [`Pickable`] makes it emit events.
pub open spec fn spec_emits(p: Option<Pickable>) -> bool {
    match p {
        Some(p) => p.should_emit_events,
        None => true,
    }
}

/// Groups the stages of the picking process under shared labels.
#[derive(Clone, Copy, PartialEq, Eq, Structural, Debug, Hash)]
pub enum PickSet {
    /// Produces pointer input events.
    Input,
    /// Runs after input events are generated but before commands are flushed.
    PostInput,
    /// Receives and processes pointer input events.
    ProcessInput,
    /// Reads inputs and produces backend hits.
    Backend,
    /// Reads backend hits, and updates focus, selection, and highlighting states.
    Focus,
    /// Runs after all the focus systems are done, before event listeners are triggered.
    PostFocus,
    /// Runs after all other sets
    Last,
}

} // verus!
