//! Top-level game flow: the states the game moves through (boot, menu,
//! loading, play, pause, and the end screens), which of them keep a level
//! loaded, and what each menu button leads to.

use vstd::prelude::*;

verus! {

/// The top-level application state.
#[derive(Clone, Copy, PartialEq, Eq, Debug, Hash, Structural)]
pub enum GameState {
    /// One-frame bootstrap that advances straight to the main menu.
    Boot,
    MainMenu,
    /// The level is built here and its assets load.
    Loading,
    Playing,
    Paused,
    GameOver,
    Win,
}

impl Default for GameState {
    fn default() -> (s: Self)
        ensures
            s == GameState::Boot,
    {
        GameState::Boot
    }
}

/// Marker for "a level is loaded": active across loading, play and pause.
#[derive(Clone, Copy, PartialEq, Eq, Debug, Hash, Structural)]
pub struct InGame;

/// The states during which a level stays loaded.
pub open spec fn keeps_level(s: GameState) -> bool {
    s == GameState::Loading || s == GameState::Playing || s == GameState::Paused
}

impl InGame {
    /// `InGame` is active exactly while loading, playing or paused.
    pub fn compute(source: GameState) -> (r: Option<InGame>)
        ensures
            r is Some <==> keeps_level(source),
    {
        match source {
            GameState::Loading | GameState::Playing | GameState::Paused => Some(InGame),
            _ => None,
        }
    }
}

/// What a clicked menu button does.
#[derive(Clone, Copy, PartialEq, Eq, Debug, Structural)]
pub enum MenuAction {
    StartGame,
    Resume,
    QuitToMenu,
    QuitApp,
}

/// The state a menu button leads to; `None` for quitting the application.
pub fn menu_target(action: MenuAction) -> (r: Option<GameState>)
    ensures
        r == match action {
            MenuAction::StartGame => Some(GameState::Loading),
            MenuAction::Resume => Some(GameState::Playing),
            MenuAction::QuitToMenu => Some(GameState::MainMenu),
            MenuAction::QuitApp => None,
        },
{
    match action {
        MenuAction::StartGame => Some(GameState::Loading),
        MenuAction::Resume => Some(GameState::Playing),
        MenuAction::QuitToMenu => Some(GameState::MainMenu),
        MenuAction::QuitApp => None,
    }
}

/// The state Escape leads to: playing pauses and paused resumes; elsewhere it
/// does nothing.
pub fn escape_target(state: GameState) -> (r: Option<GameState>)
    ensures
        r == match state {
            GameState::Playing => Some(GameState::Paused),
            GameState::Paused => Some(GameState::Playing),
            _ => None,
        },
{
    match state {
        GameState::Playing => Some(GameState::Paused),
        GameState::Paused => Some(GameState::Playing),
        _ => None,
    }
}

/// Pausing and resuming undo each other.
pub proof fn lemma_escape_round_trip(state: GameState)
    requires
        state == GameState::Playing || state == GameState::Paused,
    ensures
        ({
            let once = match state {
                GameState::Playing => GameState::Paused,
                _ => GameState::Playing,
            };
            let twice = match once {
                GameState::Playing => GameState::Paused,
                _ => GameState::Playing,
            };
            twice == state && keeps_level(once)
        }),
{
}

} // verus!
