//! Picking and pointer events: the decision logic of a picking library, verified.
use vstd::prelude::*;

pub mod backend;
pub mod backends;
pub mod debug;
pub mod events;
pub mod float_ord;
pub mod focus;
pub mod highlight;
pub mod input;
pub mod listening;
pub mod map;
pub mod pointer;
pub mod selection;
pub mod settings;

verus! {

} // verus!
