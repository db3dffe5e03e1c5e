use trap_the_tiger::game::{GameSession, TotalGameStats};
use trap_the_tiger::hexgrid::{GridSize, GridTilePos};
use trap_the_tiger::level_setup::RustaceanPos;
use trap_the_tiger::levels::{LevelState, TurnState};
use trap_the_tiger::pathfinding::{escape_targets, in_bounds, pathfind, pathfind_and_move, Path};

fn stats() -> TotalGameStats {
    TotalGameStats { tiles_tapped: 0, tigers_trapped: 0, tigers_escaped: 0, games_played: 0, record_level: 1 }
}

fn open_map(g: &GridSize, traps: &[(i32, i32)]) -> Vec<bool> {
    let mut open = vec![true; g.count()];
    for t in traps {
        open[GridTilePos::new(t.0, t.1).to_index(g)] = false;
    }
    open
}

fn session_with(g: GridSize, piece: (i32, i32), traps: &[(i32, i32)]) -> GameSession {
    let mut s = GameSession::new(g, stats());
    s.level_state = LevelState::InLevel;
    s.turn_state = TurnState::RustaceanTurn;
    s.rustacean = RustaceanPos::new(piece.0, piece.1);
    for t in traps {
        s.trapped[GridTilePos::new(t.0, t.1).to_index(&g)] = true;
    }
    s
}

#[test]
fn in_bounds_ranges() {
    let g = GridSize::new(7, 12);
    assert!(in_bounds((0, 0), &g));
    assert!(in_bounds((6, 11), &g));
    assert!(!in_bounds((7, 0), &g));
    assert!(!in_bounds((0, 12), &g));
    assert!(!in_bounds((-1, 3), &g));
    assert!(!in_bounds((3, -1), &g));
}

#[test]
fn escape_targets_of_two_by_two() {
    let e = escape_targets(&GridSize::new(2, 2));
    assert_eq!(
        e,
        vec![(-1, 0), (-1, 1), (-1, 2), (0, -1), (0, 2), (1, -1), (1, 2), (2, -1), (2, 0), (2, 1)]
    );
}

#[test]
fn escape_targets_nonempty_outside_sorted() {
    let g = GridSize::new(7, 12);
    let e = escape_targets(&g);
    assert_eq!(e.len(), 40);
    assert_eq!(&e[..5], &[(-1, 0), (-1, 1), (-1, 2), (-1, 3), (-1, 4)]);
    for p in &e {
        assert!(!in_bounds(*p, &g));
    }
    for w in e.windows(2) {
        assert!(w[0] < w[1]);
    }
}

#[test]
fn open_grid_finds_a_way_out() {
    let g = GridSize::new(7, 12);
    let r = pathfind(&RustaceanPos::new(3, 6), &g, &open_map(&g, &[]));
    assert_eq!(r, Path::Found(vec![(2, 6), (1, 6), (0, 6), (-1, 6)]));
}

#[test]
fn pathfind_is_deterministic() {
    let g = GridSize::new(7, 12);
    let open = open_map(&g, &[(2, 6), (2, 5), (3, 5)]);
    let a = pathfind(&RustaceanPos::new(3, 6), &g, &open);
    let b = pathfind(&RustaceanPos::new(3, 6), &g, &open);
    assert_eq!(a, b);
}

#[test]
fn pathfind_routes_around_traps() {
    let g = GridSize::new(5, 5);
    let traps = [(2, 0), (1, 0), (0, 1), (0, 2), (0, 3), (1, 3), (2, 4), (3, 3), (4, 3), (4, 2), (4, 1), (3, 0)];
    let r = pathfind(&RustaceanPos::new(2, 2), &g, &open_map(&g, &traps));
    assert_eq!(r, Path::Found(vec![(2, 3), (1, 4), (1, 5)]));
}

#[test]
fn escape_neighbor_is_taken_at_once() {
    let g = GridSize::new(7, 12);
    let r = pathfind(&RustaceanPos::new(0, 3), &g, &open_map(&g, &[]));
    assert_eq!(r, Path::Escaped(-1, 3));
}

#[test]
fn enclosed_piece_finds_nothing() {
    let g = GridSize::new(7, 12);
    let ring = [(3, 7), (3, 5), (2, 6), (2, 5), (4, 6), (4, 5)];
    let r = pathfind(&RustaceanPos::new(3, 6), &g, &open_map(&g, &ring));
    assert_eq!(r, Path::NotFound);
}

#[test]
fn enclosed_piece_wins_the_level() {
    let g = GridSize::new(7, 12);
    let ring = [(3, 7), (3, 5), (2, 6), (2, 5), (4, 6), (4, 5)];
    let mut s = session_with(g, (3, 6), &ring);
    let r = pathfind_and_move(&mut s);
    assert_eq!(r, Path::NotFound);
    assert_eq!(s.level_state, LevelState::LevelWin);
    assert_eq!(s.stats.tigers_trapped, 1);
    assert_eq!(s.stats.tigers_escaped, 0);
    assert_eq!((s.rustacean.x, s.rustacean.y), (3, 6));
    assert_eq!(s.level_end_timer.elapsed_ms, 0);
}

#[test]
fn escaping_piece_loses_the_level() {
    let g = GridSize::new(7, 12);
    let mut s = session_with(g, (0, 3), &[]);
    let r = pathfind_and_move(&mut s);
    assert_eq!(r, Path::Escaped(-1, 3));
    assert_eq!(s.level_state, LevelState::LevelLose);
    assert_eq!(s.stats.tigers_escaped, 1);
    assert_eq!(s.stats.tigers_trapped, 0);
    assert_eq!((s.rustacean.x, s.rustacean.y), (-1, 3));
}

#[test]
fn piece_steps_along_the_walk() {
    let g = GridSize::new(7, 12);
    let mut s = session_with(g, (3, 6), &[]);
    let r = pathfind_and_move(&mut s);
    assert_eq!(r, Path::Found(vec![(2, 6), (1, 6), (0, 6), (-1, 6)]));
    assert_eq!((s.rustacean.x, s.rustacean.y), (2, 6));
    assert_eq!(s.turn_state, TurnState::PlayerTurn);
    assert_eq!(s.level_state, LevelState::InLevel);
}

#[test]
fn boxed_region_still_lets_the_piece_step() {
    let g = GridSize::new(7, 12);
    let mut traps = Vec::new();
    for x in 0..7 {
        for y in 0..12 {
            if (x, y) != (3, 6) && (x, y) != (3, 7) {
                traps.push((x, y));
            }
        }
    }
    let mut s = session_with(g, (3, 6), &traps);
    let r = pathfind_and_move(&mut s);
    assert_eq!(r, Path::NotFound);
    assert_eq!((s.rustacean.x, s.rustacean.y), (3, 7));
    assert_eq!(s.turn_state, TurnState::PlayerTurn);
    assert_eq!(s.level_state, LevelState::InLevel);
    assert_eq!(s.stats.tigers_trapped, 0);
}

#[test]
fn single_tile_grid_escapes() {
    let g = GridSize::new(1, 1);
    assert_eq!(escape_targets(&g), vec![(-1, 0), (-1, 1), (0, -1), (0, 1), (1, 0), (1, 1)]);
    let r = pathfind(&RustaceanPos::new(0, 0), &g, &open_map(&g, &[]));
    assert_eq!(r, Path::Escaped(0, 1));
}

#[test]
fn single_column_grid_escapes_sideways() {
    let g = GridSize::new(1, 3);
    assert_eq!(
        escape_targets(&g),
        vec![(-1, 0), (-1, 1), (-1, 2), (-1, 3), (0, -1), (0, 3), (1, 0), (1, 1), (1, 2), (1, 3)]
    );
    let r = pathfind(&RustaceanPos::new(0, 1), &g, &open_map(&g, &[]));
    assert_eq!(r, Path::Escaped(-1, 1));
}
