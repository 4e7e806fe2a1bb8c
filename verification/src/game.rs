//! Where the game is in its own lifecycle, and the step out of loading.

use crate::content::LoaderState;
use vstd::prelude::*;

verus! {

/// Where the game is in its own lifecycle.
#[derive(Debug, Clone, Copy, PartialEq, Eq, Structural)]
pub enum GameState {
    Loading,
    Scene,
    Play,
}

impl Default for GameState {
    /// A game starts loading.
    fn default() -> (out: GameState)
        ensures
            out == GameState::Loading,
    {
        GameState::Loading
    }
}

/// The scene names its assets by package alias, so it cannot spawn until the content layer has
/// registered them: a loading game enters the scene once the loader is done, and not before.
pub fn next_game_state(state: GameState, loader: LoaderState) -> (out: GameState)
    ensures
        state == GameState::Loading && loader == LoaderState::AssetsRegistered ==> out == GameState::Scene,
        !(state == GameState::Loading && loader == LoaderState::AssetsRegistered) ==> out == state,
{
    match (state, loader) {
        (GameState::Loading, LoaderState::AssetsRegistered) => GameState::Scene,
        _ => state,
    }
}

} // verus!
