//! Frame pacing.
use vstd::prelude::*;

verus! {

/// The frame rate an engine aims for when asked for `fps` frames a second:
/// at least one.
pub fn target_fps(fps: u32) -> (r: u32)
    ensures
        r == if fps == 0 {
            1
        } else {
            fps
        },
{
    if fps == 0 {
        1
    } else {
        fps
    }
}

} // verus!
