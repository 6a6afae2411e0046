//! The game's state machine: where the player is, what is happening inside
//! a loaded world, and the transitions between them.

use vstd::prelude::*;

verus! {

/// Where the player is.
#[derive(Clone, Copy, Debug, PartialEq, Eq, Structural, Hash)]
pub enum GameState {
    /// Boot loading: preparing what the game needs before the menu.
    Loading,
    /// Main menu.
    Menu,
    /// A world is loaded.
    InGame,
}

impl Default for GameState {
    fn default() -> (s: Self)
        ensures
            s == GameState::Loading,
    {
        GameState::Loading
    }
}

/// What is happening inside a loaded world; it only exists while the game
/// state is [`GameState::InGame`].
#[derive(Clone, Copy, Debug, PartialEq, Eq, Structural, Hash)]
pub enum InGameState {
    /// The world is live and accepting input.
    Playing,
    /// Suspended: the world stays loaded, its systems stop.
    Paused,
}

impl Default for InGameState {
    fn default() -> (s: Self)
        ensures
            s == InGameState::Playing,
    {
        InGameState::Playing
    }
}

/// The other in-world state.
pub open spec fn flipped(s: InGameState) -> InGameState {
    match s {
        InGameState::Playing => InGameState::Paused,
        InGameState::Paused => InGameState::Playing,
    }
}

/// Flips between playing and paused. Reads the current state rather than
/// tracking a flag of its own, so it cannot disagree with the state machine.
pub fn toggle(current: InGameState) -> (next: InGameState)
    ensures
        next == flipped(current),
{
    match current {
        InGameState::Playing => InGameState::Paused,
        InGameState::Paused => InGameState::Playing,
    }
}

/// Pausing twice resumes, and resuming twice pauses: the toggle is its own
/// inverse, and never leaves a state unchanged.
pub proof fn lemma_toggle_involution(s: InGameState)
    ensures
        flipped(flipped(s)) == s,
        flipped(s) != s,
{
}

/// Leaves boot loading for the menu. There is nothing to load yet, so this
/// happens on the first frame of loading.
pub fn finish() -> (next: GameState)
    ensures
        next == GameState::Menu,
{
    GameState::Menu
}

/// The debug shortcut table, in order: the key for the loading state, the
/// menu, and a world. The paused state has no shortcut; it is only reached
/// by pausing inside a world.
pub open spec fn jump_table() -> Seq<GameState> {
    seq![GameState::Loading, GameState::Menu, GameState::InGame]
}

/// Applies the debug shortcuts: `just_pressed[i]` tells whether the key of
/// table entry `i` was just pressed; the first one pressed, in table order,
/// picks the state to jump to.
pub fn jump_to_state(just_pressed: [bool; 3]) -> (next: Option<GameState>)
    ensures
        match next {
            Some(s) => exists|i: int|
                0 <= i < 3 && just_pressed@[i] && s == jump_table()[i] && forall|j: int|
                    0 <= j < i ==> !just_pressed@[j],
            None => forall|i: int| 0 <= i < 3 ==> !just_pressed@[i],
        },
{
    let jumps = [GameState::Loading, GameState::Menu, GameState::InGame];
    let mut i: usize = 0;
    while i < 3
        invariant
            0 <= i <= 3,
            jumps@ == jump_table(),
            forall|j: int| 0 <= j < i ==> !just_pressed@[j],
        decreases 3 - i,
    {
        if just_pressed[i] {
            return Some(jumps[i]);
        }
        i += 1;
    }
    None
}

} // verus!
