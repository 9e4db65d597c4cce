//! The global run state and the transitions that input may request.

use vstd::prelude::*;
use crate::input_actions::Actions;

verus! {

/// Whether the simulation is running, suspended, or over.
#[derive(Debug, Clone, Copy, PartialEq, Eq, Structural, Hash)]
pub enum GameState {
    InGame,
    Paused,
    GameOver,
}

impl Default for GameState {
    /// A fresh simulation is running.
    fn default() -> (state: Self)
        ensures
            state == GameState::InGame,
    {
        GameState::InGame
    }
}

/// The state a pause request leads to: running and suspended swap, a
/// finished game stays finished.
pub open spec fn pause_target(state: GameState) -> Option<GameState> {
    match state {
        GameState::InGame => Some(GameState::Paused),
        GameState::Paused => Some(GameState::InGame),
        GameState::GameOver => None,
    }
}

/// The state a restart request leads to: only a finished game restarts.
pub open spec fn restart_target(state: GameState) -> Option<GameState> {
    match state {
        GameState::GameOver => Some(GameState::InGame),
        _ => None,
    }
}

/// Whether `action` occurs anywhere in `actions`.
pub open spec fn requested(actions: Seq<Actions>, action: Actions) -> bool {
    exists|i: int| 0 <= i < actions.len() && actions[i] == action
}

/// A finished game is left only by a restart, a restart does nothing to a
/// game that is not finished, and pausing twice leads back to where one was.
pub proof fn lemma_transitions(state: GameState)
    ensures
        state == GameState::GameOver ==> pause_target(state) is None,
        restart_target(state) is Some <==> state == GameState::GameOver,
        pause_target(state) matches Some(paused) ==> pause_target(paused) == Some(state),
        pause_target(state) != Some(GameState::GameOver),
{
}

fn contains_action(actions: &Vec<Actions>, action: Actions) -> (found: bool)
    ensures
        found == requested(actions@, action),
{
    let mut i: usize = 0;
    while i < actions.len()
        invariant
            i <= actions.len(),
            forall|k: int| 0 <= k < i ==> actions@[k] != action,
        decreases actions.len() - i,
    {
        if actions[i] == action {
            return true;
        }
        i += 1;
    }
    false
}

/// Decides the transition that this tick's input asks for through
/// [`Actions::Pause`]. All requests of one tick see the same current state,
/// so any number of them ask for the same target.
pub fn pause_system(state: GameState, actions: &Vec<Actions>) -> (next: Option<GameState>)
    ensures
        next == if requested(actions@, Actions::Pause) {
            pause_target(state)
        } else {
            None
        },
{
    if contains_action(actions, Actions::Pause) {
        match state {
            GameState::InGame => Some(GameState::Paused),
            GameState::Paused => Some(GameState::InGame),
            GameState::GameOver => None,
        }
    } else {
        None
    }
}

/// Decides the transition that this tick's input asks for through
/// [`Actions::Restart`].
pub fn restart_game(state: GameState, actions: &Vec<Actions>) -> (next: Option<GameState>)
    ensures
        next == if requested(actions@, Actions::Restart) {
            restart_target(state)
        } else {
            None
        },
{
    if contains_action(actions, Actions::Restart) {
        match state {
            GameState::GameOver => Some(GameState::InGame),
            _ => None,
        }
    } else {
        None
    }
}

} // verus!
