//! Application states, statistics and the state of a game in progress.

use vstd::prelude::*;
use crate::hexgrid::{Coord, GridSize, lemma_index_in_range};
use crate::level_setup::{RustaceanPos, spawn_rustacean};
use crate::levels::{
    CurrentLevelTaps, LevelEndTimer, LevelState, TurnState, reset_current_level_taps, set_player_turn,
};

verus! {

/// Top-level screen of the application.
#[derive(Clone, Copy, Debug, PartialEq, Eq, Structural)]
pub enum AppState {
    MainMenu,
    InGame,
}

/// Page of the main menu.
#[derive(Clone, Copy, Debug, PartialEq, Eq, Structural)]
pub enum MenuState {
    Disabled,
    Main,
    Stats,
    Quit,
}

/// Number of the level being played, from 1.
#[derive(Clone, Copy, Debug, PartialEq, Eq, Structural)]
pub struct CurrentLevel(pub u32);

/// Statistics kept across sessions.
#[derive(Clone, Copy, Debug, PartialEq, Eq, Structural)]
pub struct TotalGameStats {
    pub tiles_tapped: u64,
    pub tigers_trapped: u64,
    pub tigers_escaped: u64,
    pub games_played: u64,
    pub record_level: u64,
}

impl Default for TotalGameStats {
    fn default() -> (r: Self)
        ensures
            r.tiles_tapped == 0,
            r.tigers_trapped == 0,
            r.tigers_escaped == 0,
            r.games_played == 0,
            r.record_level == 0,
    {
        TotalGameStats {
            tiles_tapped: 0,
            tigers_trapped: 0,
            tigers_escaped: 0,
            games_played: 0,
            record_level: 0,
        }
    }
}

/// Everything a game in progress holds: the grid and its trap flags
/// (row-major, true for a trapped tile), the piece, the two state machines
/// and the counters.
#[derive(Clone, Debug)]
pub struct GameSession {
    pub grid_size: GridSize,
    pub trapped: Vec<bool>,
    pub rustacean: RustaceanPos,
    pub turn_state: TurnState,
    pub level_state: LevelState,
    pub current_level: CurrentLevel,
    pub level_taps: CurrentLevelTaps,
    pub stats: TotalGameStats,
    pub level_end_timer: LevelEndTimer,
}

impl GameSession {
    /// The grid is well formed, there is one flag per tile, the level number
    /// is positive, and while a level is played or just won the piece stands
    /// on an untrapped tile of the grid.
    pub open spec fn wf(&self) -> bool {
        &&& self.grid_size.wf()
        &&& self.trapped.len() == self.grid_size.cols * self.grid_size.rows
        &&& self.current_level.0 >= 1
        &&& (self.level_state == LevelState::InLevel || self.level_state == LevelState::LevelWin)
            ==> self.piece_on_free_tile()
    }

    pub open spec fn piece_on_free_tile(&self) -> bool {
        &&& self.grid_size.in_bounds(self.rustacean@)
        &&& !self.trapped@[self.grid_size.index_of(self.rustacean@)]
    }

    /// Every flag is down.
    pub open spec fn no_traps(&self) -> bool {
        forall|i: int| 0 <= i < self.trapped.len() ==> !#[trigger] self.trapped@[i]
    }

    /// A fresh game on an untrapped grid: level 1, outside any level, the
    /// piece on the centre tile.
    pub fn new(grid_size: GridSize, stats: TotalGameStats) -> (r: Self)
        requires
            grid_size.wf(),
        ensures
            r.wf(),
            r.grid_size == grid_size,
            r.no_traps(),
            r.rustacean@ == center(grid_size),
            r.turn_state == TurnState::PlayerTurn,
            r.level_state == LevelState::OutOfLevel,
            r.current_level.0 == 1,
            r.level_taps.0 == 0,
            r.stats == stats,
            r.level_end_timer.elapsed_ms == 0,
    {
        let mut trapped: Vec<bool> = Vec::new();
        let n = grid_size.count();
        while trapped.len() < n
            invariant
                trapped.len() <= n,
                forall|i: int| 0 <= i < trapped.len() ==> !#[trigger] trapped@[i],
            decreases n - trapped.len(),
        {
            trapped.push(false);
        }
        GameSession {
            grid_size,
            trapped,
            rustacean: RustaceanPos::new(grid_size.cols / 2, grid_size.rows / 2),
            turn_state: TurnState::PlayerTurn,
            level_state: LevelState::OutOfLevel,
            current_level: CurrentLevel(1),
            level_taps: CurrentLevelTaps(0),
            stats,
            level_end_timer: LevelEndTimer::new(),
        }
    }

    /// The tile `c` is on the grid and trapped.
    pub open spec fn is_trapped(&self, c: (int, int)) -> bool {
        self.grid_size.in_bounds(c) && self.trapped@[self.grid_size.index_of(c)]
    }
}

/// The tile where the piece enters a level.
pub open spec fn center(gs: GridSize) -> Coord {
    (gs.cols / 2, gs.rows / 2)
}

/// Lowers every trap flag.
pub fn clear_traps(trapped: &mut Vec<bool>)
    ensures
        final(trapped).len() == old(trapped).len(),
        forall|i: int| 0 <= i < final(trapped).len() ==> !#[trigger] final(trapped)@[i],
{
    let mut i: usize = 0;
    while i < trapped.len()
        invariant
            i <= trapped.len(),
            trapped.len() == old(trapped).len(),
            forall|j: int| 0 <= j < i ==> !#[trigger] trapped@[j],
        decreases trapped.len() - i,
    {
        trapped.set(i, false);
        i += 1;
    }
}

/// Starts a new game at level 1: the grid is cleared, the piece stands on the
/// centre tile, the player moves first, and one more game is counted. The
/// traps are laid afterwards by `prepare_tile_traps`.
pub fn start_new_level(session: &mut GameSession)
    requires
        old(session).wf(),
        old(session).stats.games_played < u64::MAX,
    ensures
        final(session).wf(),
        final(session).grid_size == old(session).grid_size,
        final(session).trapped.len() == old(session).trapped.len(),
        final(session).no_traps(),
        final(session).rustacean@ == center(old(session).grid_size),
        final(session).turn_state == TurnState::PlayerTurn,
        final(session).level_state == LevelState::InLevel,
        final(session).current_level.0 == 1,
        final(session).level_taps.0 == 0,
        final(session).stats == (TotalGameStats {
            games_played: (old(session).stats.games_played + 1) as u64,
            ..old(session).stats
        }),
        final(session).level_end_timer == old(session).level_end_timer,
{
    clear_traps(&mut session.trapped);
    session.current_level = CurrentLevel(1);
    session.level_state = LevelState::InLevel;
    session.stats.games_played += 1;
    spawn_rustacean(session);
    reset_current_level_taps(session);
    set_player_turn(session);
    proof {
        lemma_index_in_range(session.grid_size, session.rustacean@);
    }
}

} // verus!
