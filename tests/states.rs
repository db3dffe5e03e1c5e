use trap_the_tiger::game::{start_new_level, AppState, GameSession, MenuState, TotalGameStats};
use trap_the_tiger::hexgrid::{GridSize, GridTilePos};
use trap_the_tiger::level_reset::reset_level;
use trap_the_tiger::levels::{
    goto_main_menu, reset_current_level_taps, run_levelend_timer, set_player_turn, CurrentLevelTaps,
    LevelEndTimer, LevelState, TurnState,
};
use trap_the_tiger::menu::{menu_action, MenuButtonAction};

fn stats() -> TotalGameStats {
    TotalGameStats { tiles_tapped: 4, tigers_trapped: 1, tigers_escaped: 2, games_played: 3, record_level: 2 }
}

#[test]
fn default_stats_are_zero() {
    let d = TotalGameStats::default();
    assert_eq!(
        d,
        TotalGameStats { tiles_tapped: 0, tigers_trapped: 0, tigers_escaped: 0, games_played: 0, record_level: 0 }
    );
}

#[test]
fn new_session_is_clean() {
    let s = GameSession::new(GridSize::new(7, 12), stats());
    assert_eq!(s.trapped.len(), 84);
    assert!(s.trapped.iter().all(|t| !*t));
    assert_eq!((s.rustacean.x, s.rustacean.y), (3, 6));
    assert_eq!(s.level_state, LevelState::OutOfLevel);
    assert_eq!(s.turn_state, TurnState::PlayerTurn);
    assert_eq!(s.current_level.0, 1);
    assert_eq!(s.stats, stats());
}

#[test]
fn new_game_starts_level_one() {
    let g = GridSize::new(7, 12);
    let mut s = GameSession::new(g, stats());
    s.trapped[5] = true;
    s.current_level.0 = 4;
    s.level_taps = CurrentLevelTaps(9);
    s.turn_state = TurnState::RustaceanTurn;
    start_new_level(&mut s);
    assert!(s.trapped.iter().all(|t| !*t));
    assert_eq!(s.current_level.0, 1);
    assert_eq!(s.level_state, LevelState::InLevel);
    assert_eq!(s.turn_state, TurnState::PlayerTurn);
    assert_eq!(s.level_taps.0, 0);
    assert_eq!(s.stats.games_played, 4);
}

#[test]
fn win_dwell_then_next_level() {
    let g = GridSize::new(7, 12);
    let mut s = GameSession::new(g, stats());
    s.level_state = LevelState::LevelWin;
    s.current_level.0 = 2;
    s.trapped[GridTilePos::new(0, 0).to_index(&g)] = true;
    s.level_taps = CurrentLevelTaps(5);
    run_levelend_timer(&mut s);
    assert!(!reset_level(&mut s, 1500));
    assert_eq!(s.level_state, LevelState::LevelWin);
    assert_eq!(s.level_end_timer.elapsed_ms, 1500);
    assert!(reset_level(&mut s, 1500));
    assert_eq!(s.level_state, LevelState::InLevel);
    assert_eq!(s.current_level.0, 3);
    assert_eq!(s.stats.record_level, 3);
    assert!(s.trapped.iter().all(|t| !*t));
    assert_eq!(s.level_taps.0, 0);
    assert_eq!(s.turn_state, TurnState::PlayerTurn);
}

#[test]
fn record_level_is_kept_when_higher() {
    let mut st = stats();
    st.record_level = 10;
    let mut s = GameSession::new(GridSize::new(7, 12), st);
    s.level_state = LevelState::LevelWin;
    assert!(reset_level(&mut s, 3000));
    assert_eq!(s.current_level.0, 2);
    assert_eq!(s.stats.record_level, 10);
}

#[test]
fn lose_dwell_then_main_menu() {
    let mut s = GameSession::new(GridSize::new(7, 12), stats());
    s.level_state = LevelState::LevelLose;
    assert!(!goto_main_menu(&mut s, 1999));
    assert_eq!(s.level_state, LevelState::LevelLose);
    assert!(goto_main_menu(&mut s, 1));
    assert_eq!(s.level_state, LevelState::OutOfLevel);
}

#[test]
fn timer_saturates() {
    let mut t = LevelEndTimer::new();
    t.tick(u64::MAX - 1);
    t.tick(5);
    assert_eq!(t.elapsed_ms, u64::MAX);
}

#[test]
fn turn_and_tap_setters() {
    let mut s = GameSession::new(GridSize::new(7, 12), stats());
    s.turn_state = TurnState::RustaceanTurn;
    s.level_taps = CurrentLevelTaps(3);
    set_player_turn(&mut s);
    reset_current_level_taps(&mut s);
    assert_eq!(s.turn_state, TurnState::PlayerTurn);
    assert_eq!(s.level_taps.0, 0);
}

#[test]
fn menu_buttons() {
    assert_eq!(menu_action(&MenuButtonAction::Play), (Some(AppState::InGame), MenuState::Disabled));
    assert_eq!(menu_action(&MenuButtonAction::Stats), (None, MenuState::Stats));
    assert_eq!(menu_action(&MenuButtonAction::Quit), (None, MenuState::Quit));
    assert_eq!(menu_action(&MenuButtonAction::BackToMainMenu), (None, MenuState::Main));
}
