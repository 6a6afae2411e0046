//! Tuning values that the rest of the library reads.

use vstd::prelude::*;

verus! {

/// Edge length of a chunk, in blocks, on every axis.
pub const CHUNK_SIZE: i32 = 32;

/// How many chunks (horizontally, around the player) are kept loaded and
/// rendered: a `(2 * RENDER_DISTANCE + 1)`-wide square of chunk columns.
pub const RENDER_DISTANCE: i32 = 4;

/// How many chunks (horizontally) get simulated. Reserved; nothing ticks
/// chunks yet.
pub const SIMULATION_DISTANCE: i32 = 4;

/// A chunk can only be rendered while it is simulated, so the simulated
/// radius never falls short of the rendered one.
pub proof fn simulation_covers_render_distance()
    ensures
        SIMULATION_DISTANCE >= RENDER_DISTANCE,
{
}

/// The two ways sprint can be triggered.
#[derive(Clone, Copy, Debug, PartialEq, Eq, Structural)]
pub enum SprintMode {
    /// Double-tap any movement key within the double-tap window; sprint then
    /// stays engaged until every movement key is released.
    DoubleTap,
    /// Hold the sprint key.
    Hold,
}

/// Which of [`SprintMode`]'s two triggers is active.
pub const SPRINT_MODE: SprintMode = SprintMode::DoubleTap;

} // verus!
