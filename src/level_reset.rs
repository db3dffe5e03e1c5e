//! Moving on to the next level after a win.

use vstd::prelude::*;
use crate::game::{CurrentLevel, GameSession, TotalGameStats, center, clear_traps};
use crate::hexgrid::lemma_index_in_range;
use crate::level_setup::spawn_rustacean;
use crate::levels::{
    LevelState, TurnState, WIN_DWELL_MS, reset_current_level_taps, set_player_turn,
    ticked,
};

verus! {

/// After a won level: counts `delta_ms` more of the dwell and, once it
/// reaches three seconds, starts the next level: the traps are lifted, the
/// level number goes up by one (and the record with it, where it is passed),
/// the piece returns to the centre tile and the player moves first. The
/// result tells whether the next level started; its traps are laid afterwards
/// by `prepare_tile_traps`.
pub fn reset_level(session: &mut GameSession, delta_ms: u64) -> (r: bool)
    requires
        old(session).wf(),
        old(session).current_level.0 < u32::MAX,
    ensures
        final(session).wf(),
        r == (ticked(old(session).level_end_timer.elapsed_ms, delta_ms) >= WIN_DWELL_MS),
        final(session).level_end_timer.elapsed_ms == ticked(old(session).level_end_timer.elapsed_ms, delta_ms),
        !r ==> *final(session) == (GameSession { level_end_timer: final(session).level_end_timer, ..*old(session) }),
        r ==> {
            &&& final(session).grid_size == old(session).grid_size
            &&& final(session).trapped.len() == old(session).trapped.len()
            &&& final(session).no_traps()
            &&& final(session).current_level.0 == old(session).current_level.0 + 1
            &&& final(session).stats == (TotalGameStats {
                record_level: if old(session).current_level.0 + 1 > old(session).stats.record_level {
                    (old(session).current_level.0 + 1) as u64
                } else {
                    old(session).stats.record_level
                },
                ..old(session).stats
            })
            &&& final(session).level_state == LevelState::InLevel
            &&& final(session).rustacean@ == center(old(session).grid_size)
            &&& final(session).turn_state == TurnState::PlayerTurn
            &&& final(session).level_taps.0 == 0
        },
{
    session.level_end_timer.tick(delta_ms);
    if session.level_end_timer.elapsed_ms < WIN_DWELL_MS {
        return false;
    }
    clear_traps(&mut session.trapped);
    session.current_level = CurrentLevel(session.current_level.0 + 1);
    if session.current_level.0 as u64 > session.stats.record_level {
        session.stats.record_level = session.current_level.0 as u64;
    }
    session.level_state = LevelState::InLevel;
    spawn_rustacean(session);
    reset_current_level_taps(session);
    set_player_turn(session);
    proof {
        lemma_index_in_range(session.grid_size, session.rustacean@);
    }
    true
}

} // verus!
