//! The looping position of the live playback callback.
use vstd::prelude::*;

verus! {

/// The frame at which the live playback continues after rendering `frames`
/// frames from `position`: it loops back to frame zero once past `loop_end`.
pub fn advance_playback(position: i32, frames: i32, loop_end: i32) -> (next: i32)
    requires
        i32::MIN <= position + frames <= i32::MAX,
    ensures
        next == (if position + frames > loop_end {
            0
        } else {
            position + frames
        }),
{
    let moved = position + frames;
    if moved > loop_end {
        0
    } else {
        moved
    }
}

} // verus!
