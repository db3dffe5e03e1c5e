use trap_the_tiger::game::{GameSession, TotalGameStats};
use trap_the_tiger::hexgrid::{GridSize, GridTilePos};
use trap_the_tiger::level_setup::{
    find_suitable_trap_positions, place_drawn_traps, prepare_tile_traps, spawn_rustacean, tile_observer, trap_count,
    traps_enclose, RustaceanPos,
};
use trap_the_tiger::levels::{LevelState, TurnState};

fn stats() -> TotalGameStats {
    TotalGameStats { tiles_tapped: 0, tigers_trapped: 0, tigers_escaped: 0, games_played: 0, record_level: 1 }
}

#[test]
fn trap_count_level_one_seven_by_twelve() {
    assert_eq!(trap_count(1, &GridSize::new(7, 12)), 22);
}

#[test]
fn trap_count_drops_by_level_up_to_twenty() {
    let g = GridSize::new(7, 12);
    assert_eq!(trap_count(5, &g), 18);
    assert_eq!(trap_count(21, &g), 2);
    assert_eq!(trap_count(30, &g), 2);
    assert_eq!(trap_count(1, &GridSize::new(11, 12)), 34);
}

#[test]
fn sampled_traps_are_distinct_and_avoid_the_piece() {
    let g = GridSize::new(7, 12);
    let piece = RustaceanPos::new(3, 6);
    for _ in 0..20 {
        let t = find_suitable_trap_positions(22, &g, &piece);
        assert_eq!(t.len(), 22);
        for (i, a) in t.iter().enumerate() {
            assert!(a.0 >= 0 && a.0 < 7 && a.1 >= 0 && a.1 < 12);
            assert_ne!(*a, (3, 6));
            for b in &t[i + 1..] {
                assert_ne!(a, b);
            }
        }
    }
}

#[test]
fn sampling_can_take_every_other_tile() {
    let g = GridSize::new(3, 3);
    let t = find_suitable_trap_positions(8, &g, &RustaceanPos::new(1, 1));
    let mut sorted = t.clone();
    sorted.sort();
    assert_eq!(sorted, vec![(0, 0), (0, 1), (0, 2), (1, 0), (1, 2), (2, 0), (2, 1), (2, 2)]);
}

#[test]
fn sampling_is_random() {
    let g = GridSize::new(7, 12);
    let piece = RustaceanPos::new(3, 6);
    let first = find_suitable_trap_positions(1, &g, &piece);
    let mut differs = false;
    for _ in 0..60 {
        if find_suitable_trap_positions(1, &g, &piece) != first {
            differs = true;
        }
    }
    assert!(differs);
}

#[test]
fn enclosure_test() {
    let piece = RustaceanPos::new(3, 6);
    let ring = vec![(3, 7), (3, 5), (2, 6), (2, 5), (4, 6), (4, 5), (0, 0)];
    assert!(traps_enclose(&piece, &ring));
    let gap = vec![(3, 7), (3, 5), (2, 6), (2, 5), (4, 6)];
    assert!(!traps_enclose(&piece, &gap));
}

#[test]
fn prepared_traps_follow_the_rules() {
    let g = GridSize::new(7, 12);
    let mut s = GameSession::new(g, stats());
    s.level_state = LevelState::InLevel;
    let traps = loop {
        if let Some(t) = prepare_tile_traps(&mut s) {
            break t;
        }
    };
    assert_eq!(traps.len(), 22);
    assert!(!traps.contains(&(3, 6)));
    assert!(!traps_enclose(&s.rustacean, &traps));
    assert_eq!(s.trapped.iter().filter(|t| **t).count(), 22);
    for t in &traps {
        assert!(s.trapped[GridTilePos::new(t.0, t.1).to_index(&g)]);
    }
}

#[test]
fn spawn_puts_piece_at_centre() {
    let mut s = GameSession::new(GridSize::new(7, 12), stats());
    s.rustacean = RustaceanPos::new(0, 0);
    spawn_rustacean(&mut s);
    assert_eq!((s.rustacean.x, s.rustacean.y), (3, 6));
}

#[test]
fn tap_traps_tile_and_passes_turn() {
    let g = GridSize::new(7, 12);
    let mut s = GameSession::new(g, stats());
    s.level_state = LevelState::InLevel;
    assert!(tile_observer(&mut s, &GridTilePos::new(1, 1)));
    assert!(s.trapped[GridTilePos::new(1, 1).to_index(&g)]);
    assert_eq!(s.turn_state, TurnState::RustaceanTurn);
    assert_eq!(s.stats.tiles_tapped, 1);
    assert_eq!(s.level_taps.0, 1);
}

#[test]
fn tap_during_rustacean_turn_is_ignored() {
    let g = GridSize::new(7, 12);
    let mut s = GameSession::new(g, stats());
    s.level_state = LevelState::InLevel;
    s.turn_state = TurnState::RustaceanTurn;
    let before = s.clone();
    assert!(!tile_observer(&mut s, &GridTilePos::new(1, 1)));
    assert_eq!(s.trapped, before.trapped);
    assert_eq!(s.turn_state, TurnState::RustaceanTurn);
    assert_eq!(s.stats, before.stats);
    assert_eq!(s.level_taps, before.level_taps);
}

#[test]
fn tap_on_piece_trapped_or_outside_is_ignored() {
    let g = GridSize::new(7, 12);
    let mut s = GameSession::new(g, stats());
    s.level_state = LevelState::InLevel;
    assert!(!tile_observer(&mut s, &GridTilePos::new(3, 6)));
    assert!(!tile_observer(&mut s, &GridTilePos::new(7, 0)));
    assert!(!tile_observer(&mut s, &GridTilePos::new(-1, 2)));
    assert_eq!(s.stats.tiles_tapped, 0);
    assert!(tile_observer(&mut s, &GridTilePos::new(0, 0)));
    s.turn_state = TurnState::PlayerTurn;
    assert!(!tile_observer(&mut s, &GridTilePos::new(0, 0)));
    assert_eq!(s.stats.tiles_tapped, 1);
    assert_eq!(s.level_taps.0, 1);
}

#[test]
fn enclosing_draw_is_refused() {
    let g = GridSize::new(7, 12);
    let mut s = GameSession::new(g, stats());
    s.level_state = LevelState::InLevel;
    let before = s.clone();
    let ring = vec![(3, 7), (3, 5), (2, 6), (2, 5), (4, 6), (4, 5), (0, 0)];
    assert!(!place_drawn_traps(&mut s, &ring));
    assert_eq!(s.trapped, before.trapped);
    assert_eq!(s.stats, before.stats);
}

#[test]
fn open_draw_is_kept() {
    let g = GridSize::new(7, 12);
    let mut s = GameSession::new(g, stats());
    s.level_state = LevelState::InLevel;
    let draw = vec![(3, 7), (3, 5), (2, 6), (2, 5), (4, 6), (0, 0)];
    assert!(place_drawn_traps(&mut s, &draw));
    assert_eq!(s.trapped.iter().filter(|t| **t).count(), 6);
    for t in &draw {
        assert!(s.trapped[GridTilePos::new(t.0, t.1).to_index(&g)]);
    }
    assert!(!s.trapped[GridTilePos::new(4, 5).to_index(&g)]);
}

#[test]
fn piece_on_border_always_gets_traps() {
    let g = GridSize::new(7, 12);
    for _ in 0..20 {
        let mut s = GameSession::new(g, stats());
        s.level_state = LevelState::InLevel;
        s.rustacean = RustaceanPos::new(0, 5);
        let t = prepare_tile_traps(&mut s).expect("a piece next to the edge cannot be enclosed");
        assert_eq!(t.len(), 22);
    }
}

#[test]
fn few_traps_always_kept() {
    let g = GridSize::new(3, 3);
    for _ in 0..20 {
        let mut s = GameSession::new(g, stats());
        s.level_state = LevelState::InLevel;
        let t = prepare_tile_traps(&mut s).expect("two traps cannot enclose the piece");
        assert_eq!(t.len(), 2);
    }
}
