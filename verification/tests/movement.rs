use openmc::config::SprintMode;
use openmc::input::{
    axis, can_jump, grounded_after_move, next_sprint, toggle_control_mode, toggle_pause,
    toggle_terrain_wireframe, ControlMode, PauseState,
};

#[test]
fn axis_is_zero_with_no_keys() {
    assert_eq!(axis(false, false), 0);
}

#[test]
fn axis_follows_a_single_key() {
    assert_eq!(axis(true, false), 1);
    assert_eq!(axis(false, true), -1);
}

#[test]
fn opposing_keys_cancel() {
    assert_eq!(axis(true, true), 0);
}

#[test]
fn escape_toggles_pause_both_ways() {
    assert_eq!(toggle_pause(true, PauseState::Unpaused), Some(PauseState::Paused));
    assert_eq!(toggle_pause(true, PauseState::Paused), Some(PauseState::Unpaused));
    assert_eq!(toggle_pause(false, PauseState::Paused), None);
}

#[test]
fn tab_swaps_control_modes() {
    assert_eq!(toggle_control_mode(true, ControlMode::Dev), Some(ControlMode::Player));
    assert_eq!(toggle_control_mode(true, ControlMode::Player), Some(ControlMode::Dev));
    assert_eq!(toggle_control_mode(false, ControlMode::Dev), None);
    assert_eq!(ControlMode::default(), ControlMode::Dev);
}

#[test]
fn wireframe_needs_shift_and_one() {
    assert!(toggle_terrain_wireframe(true, true, false));
    assert!(!toggle_terrain_wireframe(true, true, true));
    assert!(!toggle_terrain_wireframe(false, true, false));
    assert!(toggle_terrain_wireframe(true, false, true));
}

#[test]
fn releasing_every_movement_key_ends_sprint() {
    let none = [false; 4];
    assert_eq!(
        next_sprint(SprintMode::DoubleTap, false, true, none, Some(0), true, true),
        (false, Some(0))
    );
    assert_eq!(next_sprint(SprintMode::Hold, false, true, none, None, false, true), (false, None));
}

#[test]
fn hold_mode_follows_the_hold_key() {
    let forward = [true, false, false, false];
    assert_eq!(next_sprint(SprintMode::Hold, true, true, forward, Some(2), true, false), (true, Some(2)));
    assert_eq!(next_sprint(SprintMode::Hold, true, false, forward, None, false, true), (false, None));
}

#[test]
fn a_recent_second_tap_of_the_same_key_engages_sprint() {
    let forward = [true, false, false, false];
    assert_eq!(
        next_sprint(SprintMode::DoubleTap, true, false, forward, Some(0), true, false),
        (true, Some(0))
    );
    // Too late: the tap is only recorded.
    assert_eq!(
        next_sprint(SprintMode::DoubleTap, true, false, forward, Some(0), false, false),
        (false, Some(0))
    );
    // Another key: no sprint, and the new key becomes the last tap.
    let left = [false, false, true, false];
    assert_eq!(
        next_sprint(SprintMode::DoubleTap, true, false, left, Some(0), true, false),
        (false, Some(2))
    );
}

#[test]
fn sprint_stays_engaged_while_moving() {
    let none = [false; 4];
    assert_eq!(
        next_sprint(SprintMode::DoubleTap, true, false, none, Some(1), false, true),
        (true, Some(1))
    );
}

#[test]
fn keys_pressed_in_one_frame_are_taken_in_key_order() {
    // Forward was tapped just before; this frame forward and right go down
    // together: forward is checked first and engages sprint, right becomes
    // the last tap.
    let both = [true, false, false, true];
    assert_eq!(
        next_sprint(SprintMode::DoubleTap, true, false, both, Some(0), true, false),
        (true, Some(3))
    );
    // Right was tapped before: forward comes first and breaks the chain.
    assert_eq!(
        next_sprint(SprintMode::DoubleTap, true, false, both, Some(3), true, false),
        (false, Some(3))
    );
}

#[test]
fn jumps_need_the_ground_and_landing_needs_a_fall() {
    assert!(can_jump(true, true));
    assert!(!can_jump(false, true));
    assert!(!can_jump(true, false));
    assert!(grounded_after_move(true, true));
    assert!(!grounded_after_move(true, false));
    assert!(!grounded_after_move(false, true));
}
