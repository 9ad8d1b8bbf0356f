//! The decision of the renderer's state on a window resize.
use vstd::prelude::*;

verus! {

/// Whether the surface is reconfigured for a new window size: only when
/// neither side is zero (a minimised window keeps the old surface).
pub fn accepts_resize(width: u32, height: u32) -> (accepted: bool)
    ensures
        accepted <==> width > 0 && height > 0,
{
    width > 0 && height > 0
}

} // verus!
