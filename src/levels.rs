//! Turn and level states, the per-level tap counter and the level-end timer.

use vstd::prelude::*;
use crate::game::GameSession;

verus! {

/// Where the current level stands.
#[derive(Clone, Copy, Debug, PartialEq, Eq, Structural)]
pub enum LevelState {
    OutOfLevel,
    InLevel,
    LevelWin,
    LevelLose,
}

/// Whose move it is.
#[derive(Clone, Copy, Debug, PartialEq, Eq, Structural)]
pub enum TurnState {
    PlayerTurn,
    RustaceanTurn,
}

/// Taps made by the player in the current level.
#[derive(Clone, Copy, Debug, PartialEq, Eq, Structural)]
pub struct CurrentLevelTaps(pub u32);

/// Time spent since a level ended, in milliseconds.
#[derive(Clone, Copy, Debug, PartialEq, Eq, Structural)]
pub struct LevelEndTimer {
    pub elapsed_ms: u64,
}

/// Dwell after a won level before the next one starts.
pub const WIN_DWELL_MS: u64 = 3000;

/// Dwell after a lost level before going back to the main menu.
pub const LOSE_DWELL_MS: u64 = 2000;

/// The elapsed time after adding `delta` to `elapsed`, stopping at `u64::MAX`.
pub open spec fn ticked(elapsed: u64, delta: u64) -> u64 {
    if elapsed + delta <= u64::MAX {
        (elapsed + delta) as u64
    } else {
        u64::MAX
    }
}

impl LevelEndTimer {
    pub fn new() -> (r: Self)
        ensures
            r.elapsed_ms == 0,
    {
        LevelEndTimer { elapsed_ms: 0 }
    }

    /// Adds `delta_ms` to the elapsed time, stopping at `u64::MAX`.
    pub fn tick(&mut self, delta_ms: u64)
        ensures
            final(self).elapsed_ms == ticked(old(self).elapsed_ms, delta_ms),
    {
        self.elapsed_ms = self.elapsed_ms.saturating_add(delta_ms);
    }
}

/// Gives the move to the player.
pub fn set_player_turn(session: &mut GameSession)
    ensures
        *final(session) == (GameSession { turn_state: TurnState::PlayerTurn, ..*old(session) }),
{
    session.turn_state = TurnState::PlayerTurn;
}

/// Sets the tap counter of the level back to zero.
pub fn reset_current_level_taps(session: &mut GameSession)
    ensures
        *final(session) == (GameSession { level_taps: CurrentLevelTaps(0), ..*old(session) }),
{
    session.level_taps = CurrentLevelTaps(0);
}

/// Starts timing the dwell after the end of a level.
pub fn run_levelend_timer(session: &mut GameSession)
    ensures
        *final(session) == (GameSession {
            level_end_timer: LevelEndTimer { elapsed_ms: 0 },
            ..*old(session)
        }),
{
    session.level_end_timer = LevelEndTimer::new();
}

/// After a lost level: counts `delta_ms` more of the dwell and, once it
/// reaches two seconds, leaves the level. The result tells whether it did; the
/// caller then returns to the main menu.
pub fn goto_main_menu(session: &mut GameSession, delta_ms: u64) -> (r: bool)
    requires
        old(session).wf(),
    ensures
        final(session).wf(),
        r == (ticked(old(session).level_end_timer.elapsed_ms, delta_ms) >= LOSE_DWELL_MS),
        final(session).level_end_timer.elapsed_ms == ticked(old(session).level_end_timer.elapsed_ms, delta_ms),
        *final(session) == (GameSession {
            level_state: if r { LevelState::OutOfLevel } else { old(session).level_state },
            level_end_timer: final(session).level_end_timer,
            ..*old(session)
        }),
{
    session.level_end_timer.tick(delta_ms);
    if session.level_end_timer.elapsed_ms >= LOSE_DWELL_MS {
        session.level_state = LevelState::OutOfLevel;
        true
    } else {
        false
    }
}

} // verus!
