//! Player controls: the decisions input makes, separated from reading the
//! keys themselves.

use vstd::prelude::*;
use crate::config::SprintMode;

verus! {

/// Whether the game is paused (the pause key's own state).
#[derive(Clone, Copy, Debug, PartialEq, Eq, Structural, Hash)]
pub enum PauseState {
    Unpaused,
    Paused,
}

/// Which control scheme is active while playing: `Dev` is the free-fly
/// camera with no gravity or collision, `Player` adds gravity, the collision
/// box and a crosshair.
#[derive(Clone, Copy, Debug, PartialEq, Eq, Structural, Hash)]
pub enum ControlMode {
    Dev,
    Player,
}

impl Default for ControlMode {
    fn default() -> (m: Self)
        ensures
            m == ControlMode::Dev,
    {
        ControlMode::Dev
    }
}

/// Escape toggles between unpaused and paused; `None` (no change) when it
/// was not just pressed.
pub fn toggle_pause(escape_just_pressed: bool, current: PauseState) -> (next: Option<PauseState>)
    ensures
        next == if escape_just_pressed {
            Some(
                match current {
                    PauseState::Unpaused => PauseState::Paused,
                    PauseState::Paused => PauseState::Unpaused,
                },
            )
        } else {
            None::<PauseState>
        },
{
    if escape_just_pressed {
        Some(
            match current {
                PauseState::Unpaused => PauseState::Paused,
                PauseState::Paused => PauseState::Unpaused,
            },
        )
    } else {
        None
    }
}

/// Tab swaps between the `Dev` and `Player` control modes; `None` (no
/// change) when it was not just pressed.
pub fn toggle_control_mode(tab_just_pressed: bool, mode: ControlMode) -> (next: Option<ControlMode>)
    ensures
        next == if tab_just_pressed {
            Some(
                match mode {
                    ControlMode::Dev => ControlMode::Player,
                    ControlMode::Player => ControlMode::Dev,
                },
            )
        } else {
            None::<ControlMode>
        },
{
    if tab_just_pressed {
        Some(
            match mode {
                ControlMode::Dev => ControlMode::Player,
                ControlMode::Player => ControlMode::Dev,
            },
        )
    } else {
        None
    }
}

/// One movement axis from a pair of opposing keys: `1` when only the
/// positive key is held, `-1` when only the negative one is, and `0` when
/// neither or both are, so holding both cancels rather than letting one
/// silently win.
pub fn axis(positive_held: bool, negative_held: bool) -> (r: i8)
    ensures
        r == axis_value(positive_held, negative_held),
{
    match (positive_held, negative_held) {
        (true, false) => 1,
        (false, true) => -1,
        _ => 0,
    }
}

/// Opposing keys cancel: swapping which key is held negates the axis, and
/// holding both is the same as holding neither.
pub proof fn lemma_axis_antisymmetric(p: bool, n: bool)
    ensures
        axis_value(p, n) == -axis_value(n, p),
        axis_value(true, true) == axis_value(false, false),
{
}

/// The value [`axis`] returns.
pub open spec fn axis_value(positive_held: bool, negative_held: bool) -> int {
    if positive_held && !negative_held {
        1
    } else if negative_held && !positive_held {
        -1
    } else {
        0
    }
}

/// Shift+1 toggles the terrain wireframe overlay: returns the new setting,
/// flipped when Shift is held and 1 was just pressed, unchanged otherwise.
/// (Bare 1 is the debug jump to the loading state.)
pub fn toggle_terrain_wireframe(shift_held: bool, digit1_just_pressed: bool, enabled: bool) -> (r:
    bool)
    ensures
        r == if shift_held && digit1_just_pressed {
            !enabled
        } else {
            enabled
        },
{
    if !shift_held || !digit1_just_pressed {
        return enabled;
    }
    !enabled
}

/// The first of the four movement keys, in key order (forward, backward,
/// left, right), among the first `k` that was just pressed.
pub open spec fn first_pressed_upto(just_pressed: [bool; 4], k: int) -> Option<u8> {
    if 0 < k && just_pressed@[0] {
        Some(0u8)
    } else if 1 < k && just_pressed@[1] {
        Some(1u8)
    } else if 2 < k && just_pressed@[2] {
        Some(2u8)
    } else if 3 < k && just_pressed@[3] {
        Some(3u8)
    } else {
        None
    }
}

/// The last of the four movement keys, in key order, among the first `k`
/// that was just pressed.
pub open spec fn last_pressed_upto(just_pressed: [bool; 4], k: int) -> Option<u8> {
    if 3 < k && just_pressed@[3] {
        Some(3u8)
    } else if 2 < k && just_pressed@[2] {
        Some(2u8)
    } else if 1 < k && just_pressed@[1] {
        Some(1u8)
    } else if 0 < k && just_pressed@[0] {
        Some(0u8)
    } else {
        None
    }
}

/// The first movement key just pressed this frame, in key order.
pub open spec fn first_pressed(just_pressed: [bool; 4]) -> Option<u8> {
    first_pressed_upto(just_pressed, 4)
}

/// The last movement key just pressed this frame, in key order.
pub open spec fn last_pressed(just_pressed: [bool; 4]) -> Option<u8> {
    last_pressed_upto(just_pressed, 4)
}

/// Whether sprint is engaged after this frame, and which movement key was
/// tapped last (`0..4`: forward, backward, left, right).
///
/// With no movement key held, sprint ends and the last tap is kept. In
/// `Hold` mode sprint follows the hold key. In `DoubleTap` mode the keys
/// just pressed are taken in key order, each checked against the tap before
/// it and then recorded as the last tap: a key pressed again while its own
/// last tap is still within the double-tap window (`last_tap_recent`, which
/// the caller measures) engages sprint, and sprint then stays engaged until
/// every movement key is released. Taps within one frame are zero seconds
/// apart, so a later key of the same frame only ever follows a different key.
pub fn next_sprint(
    mode: SprintMode,
    moving: bool,
    hold_key_held: bool,
    just_pressed: [bool; 4],
    last_tap: Option<u8>,
    last_tap_recent: bool,
    sprinting: bool,
) -> (r: (bool, Option<u8>))
    ensures
        !moving ==> r == (false, last_tap),
        moving && mode == SprintMode::Hold ==> r == (hold_key_held, last_tap),
        moving && mode == SprintMode::DoubleTap ==> r.0 == (sprinting || (first_pressed(just_pressed)
            is Some && last_tap == first_pressed(just_pressed) && last_tap_recent)),
        moving && mode == SprintMode::DoubleTap ==> r.1 == if last_pressed(just_pressed) is Some {
            last_pressed(just_pressed)
        } else {
            last_tap
        },
{
    if !moving {
        return (false, last_tap);
    }
    match mode {
        SprintMode::Hold => (hold_key_held, last_tap),
        SprintMode::DoubleTap => {
            let mut sprint = sprinting;
            let mut last = last_tap;
            let mut recent = last_tap_recent;
            let mut k: usize = 0;
            while k < 4
                invariant
                    k <= 4,
                    last == if last_pressed_upto(just_pressed, k as int) is Some {
                        last_pressed_upto(just_pressed, k as int)
                    } else {
                        last_tap
                    },
                    recent == (last_pressed_upto(just_pressed, k as int) is Some || last_tap_recent),
                    sprint == (sprinting || (first_pressed_upto(just_pressed, k as int) is Some
                        && last_tap == first_pressed_upto(just_pressed, k as int) && last_tap_recent)),
                decreases 4 - k,
            {
                if just_pressed[k] {
                    let again = match last {
                        Some(j) => j == k as u8 && recent,
                        None => false,
                    };
                    if again {
                        sprint = true;
                    }
                    last = Some(k as u8);
                    recent = true;
                }
                k += 1;
            }
            (sprint, last)
        },
    }
}

/// A jump starts only from the ground, on the frame the jump key is pressed.
pub fn can_jump(grounded: bool, jump_just_pressed: bool) -> (r: bool)
    ensures
        r == (grounded && jump_just_pressed),
{
    grounded && jump_just_pressed
}

/// Whether the player stands on the ground after a move: only when the
/// vertical move was blocked while falling, so bumping a ceiling during a
/// jump does not allow another jump.
pub fn grounded_after_move(vertically_blocked: bool, falling: bool) -> (r: bool)
    ensures
        r == (vertically_blocked && falling),
{
    vertically_blocked && falling
}

} // verus!
