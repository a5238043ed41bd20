//! Debug tools for picking.
use vstd::prelude::*;

verus! {

/// Tracks the frame number for diagnostics.
#[derive(Clone, Copy, PartialEq, Eq, Structural, Debug)]
pub struct Frame(pub usize);

impl Default for Frame {
    fn default() -> (f: Frame)
        ensures
            f.0 == 0,
    {
        Frame(0)
    }
}

/// Increments the frame number.
pub fn increment_frame(frame: &mut Frame)
    requires
        old(frame).0 < usize::MAX,
    ensures
        final(frame).0 == old(frame).0 + 1,
{
    frame.0 = frame.0 + 1;
}

} // verus!
