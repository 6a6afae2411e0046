//! Pausing and resuming on the pause key, with the key check made inside
//! the toggle itself.

use vstd::prelude::*;
use crate::states::{flipped, InGameState};

verus! {

/// Flips between playing and paused when the pause key was just pressed;
/// `None` (no change) otherwise.
pub fn toggle(pause_just_pressed: bool, current: InGameState) -> (next: Option<InGameState>)
    ensures
        next == if pause_just_pressed {
            Some(flipped(current))
        } else {
            None::<InGameState>
        },
{
    if !pause_just_pressed {
        return None;
    }
    Some(crate::states::toggle(current))
}

} // verus!
