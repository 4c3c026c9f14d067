//! Getting caught: what a filled grab meter costs the run. The consequence is
//! selectable for tuning: discard the run, bank it as a ghost anyway, or end
//! the game.

use vstd::prelude::*;

use crate::state::GameState;

verus! {

/// What happens when the grab meter fills.
#[derive(Clone, Copy, PartialEq, Eq, Debug, Structural)]
pub enum CatchMode {
    /// Snap to spawn and reset coins, but bank no ghost: the run is wasted.
    Discard,
    /// Treat the catch like a voluntary close: bank the run as a ghost, reset.
    Bank,
    /// End the game: go to the lose screen.
    GameOver,
}

impl Default for CatchMode {
    fn default() -> (m: Self)
        ensures
            m == CatchMode::Discard,
    {
        CatchMode::Discard
    }
}

/// The mode after `m` in the tuning cycle.
pub open spec fn next_mode(m: CatchMode) -> CatchMode {
    match m {
        CatchMode::Discard => CatchMode::Bank,
        CatchMode::Bank => CatchMode::GameOver,
        CatchMode::GameOver => CatchMode::Discard,
    }
}

impl CatchMode {
    /// Short overlay label for the mode.
    pub fn label(self) -> (s: &'static str)
        ensures
            s@ == match self {
                CatchMode::Discard => "discard run"@,
                CatchMode::Bank => "bank ghost"@,
                CatchMode::GameOver => "game over"@,
            },
    {
        match self {
            CatchMode::Discard => "discard run",
            CatchMode::Bank => "bank ghost",
            CatchMode::GameOver => "game over",
        }
    }

    /// The next mode in the cycle, for the debug toggle.
    pub fn next(self) -> (m: Self)
        ensures
            m == next_mode(self),
    {
        match self {
            CatchMode::Discard => CatchMode::Bank,
            CatchMode::Bank => CatchMode::GameOver,
            CatchMode::GameOver => CatchMode::Discard,
        }
    }
}

/// Cycling three times returns to the starting mode, and every mode is
/// reached.
pub proof fn lemma_mode_cycle(m: CatchMode)
    ensures
        next_mode(next_mode(next_mode(m))) == m,
        next_mode(m) != m,
        next_mode(next_mode(m)) != m,
{
}

/// What a catch does to the run: close the loop (banking the ghost or not),
/// or end the game.
#[derive(Clone, Copy, PartialEq, Eq, Debug, Structural)]
pub enum CatchOutcome {
    CloseLoop { bank: bool },
    EnterState(GameState),
}

/// The consequence of a filled grab meter under `mode`.
pub fn catch_outcome(mode: CatchMode) -> (o: CatchOutcome)
    ensures
        o == match mode {
            CatchMode::Discard => CatchOutcome::CloseLoop { bank: false },
            CatchMode::Bank => CatchOutcome::CloseLoop { bank: true },
            CatchMode::GameOver => CatchOutcome::EnterState(GameState::GameOver),
        },
{
    match mode {
        CatchMode::Discard => CatchOutcome::CloseLoop { bank: false },
        CatchMode::Bank => CatchOutcome::CloseLoop { bank: true },
        CatchMode::GameOver => CatchOutcome::EnterState(GameState::GameOver),
    }
}

/// Tuning knobs for catches: what a catch does, and whether the grab meter is
/// drawn.
#[derive(Clone, Copy, Debug)]
pub struct CatchConfig {
    pub mode: CatchMode,
    pub show_grab_meter: bool,
}

impl Default for CatchConfig {
    fn default() -> (c: Self)
        ensures
            c.mode == CatchMode::Discard,
            c.show_grab_meter,
    {
        CatchConfig { mode: CatchMode::Discard, show_grab_meter: true }
    }
}

} // verus!
