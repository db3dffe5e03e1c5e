use trap_the_tiger::hexgrid::{get_hex_horizontal_neighbor_pos, GridSize, GridTilePos};
use trap_the_tiger::level_setup::RustaceanPos;

#[test]
fn neighbors_of_even_column() {
    let n = GridTilePos::new(2, 6).get_neighbor_pos();
    assert_eq!(n, [(2, 7), (2, 5), (1, 6), (1, 7), (3, 6), (3, 7)]);
}

#[test]
fn neighbors_of_odd_column() {
    let n = get_hex_horizontal_neighbor_pos(3, 6);
    assert_eq!(n, [(3, 7), (3, 5), (2, 6), (2, 5), (4, 6), (4, 5)]);
}

#[test]
fn neighbors_of_negative_odd_column() {
    let n = get_hex_horizontal_neighbor_pos(-1, -1);
    assert_eq!(n, [(-1, 0), (-1, -2), (-2, -1), (-2, -2), (0, -1), (0, -2)]);
}

#[test]
fn rustacean_neighbors_match_tile_neighbors() {
    assert_eq!(RustaceanPos::new(4, 2).get_neighbor_pos(), GridTilePos::new(4, 2).get_neighbor_pos());
}

#[test]
fn neighbors_are_distinct_and_symmetric() {
    for x in -3..4 {
        for y in -3..4 {
            let n = get_hex_horizontal_neighbor_pos(x, y);
            for i in 0..6 {
                for j in (i + 1)..6 {
                    assert_ne!(n[i], n[j]);
                }
                let back = get_hex_horizontal_neighbor_pos(n[i].0, n[i].1);
                assert!(back.contains(&(x, y)));
            }
        }
    }
}

#[test]
fn grid_size_count() {
    let g = GridSize::new(7, 12);
    assert_eq!(g.cols, 7);
    assert_eq!(g.rows, 12);
    assert_eq!(g.count(), 84);
}

#[test]
fn tile_index_is_row_major() {
    let g = GridSize::new(7, 12);
    assert_eq!(GridTilePos::new(0, 0).to_index(&g), 0);
    assert_eq!(GridTilePos::new(3, 6).to_index(&g), 45);
    assert_eq!(GridTilePos::new(6, 11).to_index(&g), 83);
}

#[test]
fn border_tiles() {
    let g = GridSize::new(7, 12);
    assert!(GridTilePos::new(0, 5).is_border(&g));
    assert!(GridTilePos::new(6, 5).is_border(&g));
    assert!(GridTilePos::new(3, 0).is_border(&g));
    assert!(GridTilePos::new(3, 11).is_border(&g));
    assert!(!GridTilePos::new(3, 6).is_border(&g));
    assert!(!GridTilePos::new(1, 1).is_border(&g));
}
