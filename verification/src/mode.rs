//! The two-state operating-mode switch.
//!
//! The tool is always in exactly one of two modes: `Editor` (authoring, static
//! frame inspection) or `Game` (simulated animated playback).  Transitions are
//! triggered by external input events; the runtime objects each mode needs are
//! reconciled separately, in [`crate::runtime`].

use vstd::prelude::*;

verus! {

/// The operating mode: authoring or simulated playback.
#[derive(Clone, Copy, Debug, PartialEq, Eq, Structural)]
pub enum GameMode {
    Editor,
    Game,
}

/// The current operating mode.  `Editor` is the initial state.
#[derive(Clone, Copy, Debug, PartialEq, Eq, Structural)]
pub struct GameState {
    pub mode: GameMode,
}

/// The two independent overlay toggles shown while in `Game` mode.
#[derive(Clone, Copy, Debug, PartialEq, Eq, Structural)]
pub struct CoreGuiState {
    pub show_hit_boxes: bool,
    pub show_hurt_boxes: bool,
}

impl GameMode {
    /// The mode's display name, shown in the mode panel.
    pub fn label(&self) -> (r: &'static str)
        ensures
            *self == GameMode::Editor ==> r@ == "Editor"@,
            *self == GameMode::Game ==> r@ == "Game"@,
    {
        match self {
            GameMode::Editor => "Editor",
            GameMode::Game => "Game",
        }
    }
}

impl Default for GameState {
    /// The tool starts in `Editor` mode.
    fn default() -> (r: Self)
        ensures
            r.mode == GameMode::Editor,
    {
        GameState { mode: GameMode::Editor }
    }
}

impl Default for CoreGuiState {
    /// Both overlay toggles start off.
    fn default() -> (r: Self)
        ensures
            !r.show_hit_boxes,
            !r.show_hurt_boxes,
    {
        CoreGuiState { show_hit_boxes: false, show_hurt_boxes: false }
    }
}

/// The mode selected by one sampling of the mode-switch keys: the editor key
/// takes precedence over the game key, and with neither pressed the mode is
/// left as it is.
pub open spec fn spec_switched_mode(mode: GameMode, editor_pressed: bool, game_pressed: bool) -> GameMode {
    if editor_pressed {
        GameMode::Editor
    } else if game_pressed {
        GameMode::Game
    } else {
        mode
    }
}

/// Applies one sampling of the two mode-switch keys to the current mode.
pub fn mode_switching_system(game_state: &mut GameState, editor_pressed: bool, game_pressed: bool)
    ensures
        final(game_state).mode == spec_switched_mode(old(game_state).mode, editor_pressed, game_pressed),
{
    if editor_pressed {
        game_state.mode = GameMode::Editor;
    } else if game_pressed {
        game_state.mode = GameMode::Game;
    }
}

/// Flips the mode, as the play/stop button does: `Editor` becomes `Game` and
/// `Game` becomes `Editor`.
pub fn toggle_mode(game_state: &mut GameState)
    ensures
        old(game_state).mode == GameMode::Editor ==> final(game_state).mode == GameMode::Game,
        old(game_state).mode == GameMode::Game ==> final(game_state).mode == GameMode::Editor,
{
    game_state.mode = if game_state.mode == GameMode::Editor {
        GameMode::Game
    } else {
        GameMode::Editor
    };
}

} // verus!
