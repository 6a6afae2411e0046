use openmc::config::{SprintMode, RENDER_DISTANCE, SIMULATION_DISTANCE, SPRINT_MODE};
use openmc::states::{finish, jump_to_state, toggle, GameState, InGameState};

#[test]
fn pause_toggles_and_resumes() {
    assert_eq!(toggle(InGameState::Playing), InGameState::Paused);
    assert_eq!(toggle(InGameState::Paused), InGameState::Playing);
    assert_eq!(toggle(toggle(InGameState::Playing)), InGameState::Playing);
}

#[test]
fn keyed_pause_toggle_needs_the_key() {
    assert_eq!(openmc::ingame::toggle(true, InGameState::Playing), Some(InGameState::Paused));
    assert_eq!(openmc::ingame::toggle(false, InGameState::Playing), None);
}

#[test]
fn states_start_where_they_should() {
    assert_eq!(GameState::default(), GameState::Loading);
    assert_eq!(InGameState::default(), InGameState::Playing);
    assert_eq!(finish(), GameState::Menu);
}

#[test]
fn the_first_pressed_debug_key_wins() {
    assert_eq!(jump_to_state([false, false, false]), None);
    assert_eq!(jump_to_state([true, false, false]), Some(GameState::Loading));
    assert_eq!(jump_to_state([false, true, false]), Some(GameState::Menu));
    assert_eq!(jump_to_state([false, false, true]), Some(GameState::InGame));
    assert_eq!(jump_to_state([false, true, true]), Some(GameState::Menu));
}

#[test]
fn configuration_is_consistent() {
    assert!(SIMULATION_DISTANCE >= RENDER_DISTANCE);
    assert_eq!(SPRINT_MODE, SprintMode::DoubleTap);
}
