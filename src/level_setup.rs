//! The piece and the traps laid at the start of a level.

use vstd::prelude::*;
use crate::hexgrid::{
    Coord, GridSize, GridTilePos, coord_fits, get_hex_horizontal_neighbor_pos, hex_neighbors,
    lemma_dims_below_max, lemma_index_in_range, lemma_index_injective,
    lemma_neighbors_distinct_symmetric, neighbors_match, pair_coord,
};
use crate::game::{GameSession, TotalGameStats, center};
use crate::levels::{CurrentLevelTaps, LevelState, TurnState};
use crate::pathfinding::{coords_of, lex_lt};
use vstd::set_lib::lemma_len_subset;

verus! {

/// Position of the mobile piece.
#[derive(Clone, Copy, Debug, PartialEq, Eq, Structural)]
pub struct RustaceanPos {
    pub x: i32,
    pub y: i32,
}

impl RustaceanPos {
    pub open spec fn view(self) -> Coord {
        (self.x as int, self.y as int)
    }

    pub fn new(x: i32, y: i32) -> (r: Self)
        ensures
            r.x == x,
            r.y == y,
    {
        RustaceanPos { x, y }
    }

    /// The six coordinates around the piece, in the fixed order.
    pub fn get_neighbor_pos(&self) -> (r: [(i32, i32); 6])
        requires
            coord_fits(self.view()),
        ensures
            neighbors_match(r@, self.view()),
    {
        get_hex_horizontal_neighbor_pos(self.x, self.y)
    }
}

/// Traps of a grid of `n` tiles before the level bonus: `n * 0.25974`
/// rounded to the nearest integer, halves up.
pub open spec fn trap_base(n: int) -> int {
    (n * 25974 + 50000) / 100000
}

/// Traps laid at the start of level `level`: one fewer per level after the
/// first, at most twenty fewer.
pub open spec fn trap_count_spec(level: int, n: int) -> int {
    trap_base(n) - if level - 1 < 20 { level - 1 } else { 20 }
}

/// Number of traps to lay at the start of `level` on a grid of the given size.
pub fn trap_count(level: u32, grid_size: &GridSize) -> (r: usize)
    requires
        grid_size.wf(),
        level >= 1,
        trap_count_spec(level as int, grid_size.cols * grid_size.rows) >= 0,
    ensures
        r == trap_count_spec(level as int, grid_size.cols * grid_size.rows),
        r < grid_size.cols * grid_size.rows,
{
    proof {
        assert(grid_size.cols * grid_size.rows >= 1) by (nonlinear_arith)
            requires grid_size.cols >= 1, grid_size.rows >= 1;
    }
    let n = grid_size.count() as u64;
    let base: u64 = (n * 25974 + 50000) / 100000;
    let bonus: u64 = if level < 21 { (level - 1) as u64 } else { 20 };
    proof {
        let ni = n as int;
        assert(trap_base(ni) * 100000 <= ni * 25974 + 50000) by (nonlinear_arith)
            requires ni >= 1, trap_base(ni) == (ni * 25974 + 50000) / 100000;
        assert(trap_base(ni) < ni) by (nonlinear_arith)
            requires ni >= 1, trap_base(ni) * 100000 <= ni * 25974 + 50000;
    }
    (base - bonus) as usize
}

/// Relies on rand::random_range: a value drawn from the half-open range
/// `low..high`, which it requires to be non-empty.
#[verifier::external_body]
fn random_index(low: usize, high: usize) -> (r: usize)
    requires
        low < high,
    ensures
        low <= r < high,
{
    rand::random_range(low..high)
}

/// The coordinates are distinct tiles of the grid, none of them `avoid`.
pub open spec fn distinct_tiles_avoiding(gs: GridSize, s: Seq<(i32, i32)>, avoid: Coord) -> bool {
    &&& forall|i: int| 0 <= i < s.len() ==> gs.in_bounds(#[trigger] pair_coord(s[i]))
    &&& forall|i: int| 0 <= i < s.len() ==> #[trigger] pair_coord(s[i]) != avoid
    &&& forall|i: int, j: int| 0 <= i < j < s.len() ==> #[trigger] s[i] != #[trigger] s[j]
}

/// Draws `num_of_traps` distinct random tiles of the grid, none under the piece.
pub fn find_suitable_trap_positions(
    num_of_traps: usize,
    grid_size: &GridSize,
    rustacean_pos: &RustaceanPos,
) -> (r: Vec<(i32, i32)>)
    requires
        grid_size.wf(),
        grid_size.in_bounds(rustacean_pos@),
        num_of_traps < grid_size.cols * grid_size.rows,
    ensures
        r.len() == num_of_traps,
        distinct_tiles_avoiding(*grid_size, r@, rustacean_pos@),
{
    let gs = *grid_size;
    let ghost piece = rustacean_pos@;
    proof { lemma_dims_below_max(gs); }
    // every tile but the piece's, in increasing order
    let mut candidates: Vec<(i32, i32)> = Vec::new();
    let mut x: i32 = 0;
    while x < gs.cols
        invariant
            gs == *grid_size,
            gs.wf(),
            piece == rustacean_pos@,
            gs.in_bounds(piece),
            0 <= x <= gs.cols,
            distinct_tiles_avoiding(gs, candidates@, piece),
            forall|i: int| 0 <= i < candidates.len() ==> (#[trigger] candidates@[i]).0 < x,
            candidates.len() == x * gs.rows - if piece.0 < x { 1int } else { 0 },
        decreases gs.cols - x,
    {
        let mut y: i32 = 0;
        while y < gs.rows
            invariant
                gs == *grid_size,
                gs.wf(),
                piece == rustacean_pos@,
                gs.in_bounds(piece),
                0 <= x < gs.cols,
                0 <= y <= gs.rows,
                distinct_tiles_avoiding(gs, candidates@, piece),
                forall|i: int|
                    0 <= i < candidates.len() ==> lex_lt(
                        #[trigger] pair_coord(candidates@[i]),
                        (x as int, y as int),
                    ),
                candidates.len() == x * gs.rows + y - if piece.0 < x || (piece.0 == x && piece.1
                    < y) { 1int } else { 0 },
            decreases gs.rows - y,
        {
            if x != rustacean_pos.x || y != rustacean_pos.y {
                let ghost old_c = candidates@;
                candidates.push((x, y));
                proof {
                    assert forall|i: int, j: int|
                        0 <= i < j < candidates.len() implies #[trigger] candidates@[i]
                        != #[trigger] candidates@[j] by {
                        if j == candidates.len() - 1 {
                            assert(lex_lt(pair_coord(old_c[i]), (x as int, y as int)));
                        } else {
                            assert(old_c[i] != old_c[j]);
                        }
                    }
                    assert forall|i: int| 0 <= i < candidates.len() implies lex_lt(
                        #[trigger] pair_coord(candidates@[i]),
                        (x as int, y as int + 1),
                    ) by {
                        if i < old_c.len() {
                            assert(lex_lt(pair_coord(old_c[i]), (x as int, y as int)));
                        }
                    }
                }
            }
            y += 1;
        }
        proof {
            assert forall|i: int| 0 <= i < candidates.len() implies (#[trigger] candidates@[i]).0 < x + 1 by {
                assert(lex_lt(pair_coord(candidates@[i]), (x as int, y as int)));
            }
            assert((x + 1) * gs.rows == x * gs.rows + gs.rows) by (nonlinear_arith);
        }
        x += 1;
    }
    proof {
        assert(candidates.len() == gs.cols * gs.rows - 1);
    }
    // a partial shuffle: position i receives a tile drawn from those not yet placed
    let len = candidates.len();
    let mut i: usize = 0;
    while i < num_of_traps
        invariant
            i <= num_of_traps,
            num_of_traps < len + 1,
            candidates.len() == len,
            distinct_tiles_avoiding(gs, candidates@, piece),
        decreases num_of_traps - i,
    {
        let j = random_index(i, len);
        let a = candidates[i];
        let b = candidates[j];
        let ghost old_c = candidates@;
        candidates.set(i, b);
        candidates.set(j, a);
        proof {
            assert forall|p: int, q: int|
                0 <= p < q < candidates.len() implies #[trigger] candidates@[p]
                != #[trigger] candidates@[q] by {
                let op = if p == i { j as int } else if p == j { i as int } else { p };
                let oq = if q == i { j as int } else if q == j { i as int } else { q };
                assert(candidates@[p] == old_c[op]);
                assert(candidates@[q] == old_c[oq]);
                assert(op != oq);
                if op < oq {
                    assert(old_c[op] != old_c[oq]);
                } else {
                    assert(old_c[oq] != old_c[op]);
                }
            }
            assert forall|p: int| 0 <= p < candidates.len() implies gs.in_bounds(
                #[trigger] pair_coord(candidates@[p]),
            ) && pair_coord(candidates@[p]) != piece by {
                let op = if p == i { j as int } else if p == j { i as int } else { p };
                assert(candidates@[p] == old_c[op]);
            }
        }
        i += 1;
    }
    let mut trap_positions: Vec<(i32, i32)> = Vec::new();
    let mut k: usize = 0;
    while k < num_of_traps
        invariant
            k <= num_of_traps,
            num_of_traps <= candidates.len(),
            distinct_tiles_avoiding(gs, candidates@, piece),
            trap_positions@ == candidates@.subrange(0, k as int),
        decreases num_of_traps - k,
    {
        trap_positions.push(candidates[k]);
        proof {
            assert(trap_positions@ =~= candidates@.subrange(0, k + 1));
        }
        k += 1;
    }
    trap_positions
}

/// Whether every neighbour of the piece is among `trap_positions`.
pub fn traps_enclose(rustacean_pos: &RustaceanPos, trap_positions: &Vec<(i32, i32)>) -> (r: bool)
    requires
        coord_fits(rustacean_pos@),
    ensures
        r == forall|j: int|
            0 <= j < 6 ==> coords_of(trap_positions@).contains(#[trigger] hex_neighbors(rustacean_pos@)[j]),
{
    let ghost c = rustacean_pos@;
    let ns = rustacean_pos.get_neighbor_pos();
    let mut j: usize = 0;
    while j < 6
        invariant
            0 <= j <= 6,
            c == rustacean_pos@,
            neighbors_match(ns@, c),
            forall|jj: int| 0 <= jj < j ==> coords_of(trap_positions@).contains(#[trigger] hex_neighbors(c)[jj]),
        decreases 6 - j,
    {
        let nb = ns[j];
        let mut found = false;
        let mut k: usize = 0;
        while k < trap_positions.len()
            invariant
                k <= trap_positions.len(),
                found == exists|kk: int| 0 <= kk < k && trap_positions@[kk] == nb,
            decreases trap_positions.len() - k,
        {
            let t = trap_positions[k];
            if t.0 == nb.0 && t.1 == nb.1 {
                found = true;
            }
            k += 1;
        }
        proof {
            let nc = hex_neighbors(c)[j as int];
            assert(pair_coord(nb) == nc);
            if found {
                let kk = choose|kk: int| 0 <= kk < k && trap_positions@[kk] == nb;
                assert(coords_of(trap_positions@)[kk] == nc);
            } else {
                if coords_of(trap_positions@).contains(nc) {
                    let kk = choose|kk: int|
                        0 <= kk < coords_of(trap_positions@).len() && coords_of(trap_positions@)[kk] == nc;
                    assert(trap_positions@[kk] == nb);
                }
            }
        }
        if !found {
            return false;
        }
        j += 1;
    }
    true
}

/// Places the piece on the centre tile of the grid.
pub fn spawn_rustacean(session: &mut GameSession)
    requires
        old(session).grid_size.wf(),
    ensures
        *final(session) == (GameSession {
            rustacean: RustaceanPos {
                x: (old(session).grid_size.cols / 2) as i32,
                y: (old(session).grid_size.rows / 2) as i32,
            },
            ..*old(session)
        }),
        final(session).rustacean@ == center(old(session).grid_size),
{
    session.rustacean = RustaceanPos::new(session.grid_size.cols / 2, session.grid_size.rows / 2);
}

/// Whether a tap on `tile` is taken: it is the player's turn and the tile is
/// an untrapped tile of the grid other than the piece's.
pub open spec fn tap_taken(s: GameSession, tile: Coord) -> bool {
    &&& s.turn_state == TurnState::PlayerTurn
    &&& s.grid_size.in_bounds(tile)
    &&& !s.trapped@[s.grid_size.index_of(tile)]
    &&& tile != s.rustacean@
}

/// Handles a tap on `tile_pos`. A tap that is taken traps the tile, gives
/// the move to the piece and counts one more tap, for the level and in the
/// statistics; any other tap changes nothing.
pub fn tile_observer(session: &mut GameSession, tile_pos: &GridTilePos) -> (r: bool)
    requires
        old(session).wf(),
        tap_taken(*old(session), tile_pos@) ==> old(session).stats.tiles_tapped < u64::MAX
            && old(session).level_taps.0 < u32::MAX,
    ensures
        r == tap_taken(*old(session), tile_pos@),
        final(session).wf(),
        r ==> *final(session) == (GameSession {
            trapped: final(session).trapped,
            turn_state: TurnState::RustaceanTurn,
            level_taps: CurrentLevelTaps((old(session).level_taps.0 + 1) as u32),
            stats: TotalGameStats {
                tiles_tapped: (old(session).stats.tiles_tapped + 1) as u64,
                ..old(session).stats
            },
            ..*old(session)
        }),
        r ==> final(session).trapped@ == old(session).trapped@.update(
            old(session).grid_size.index_of(tile_pos@),
            true,
        ),
        !r ==> *final(session) == *old(session),
{
    if session.turn_state != TurnState::PlayerTurn {
        return false;
    }
    let pos = (tile_pos.x, tile_pos.y);
    if !(pos.0 >= 0 && pos.0 < session.grid_size.cols && pos.1 >= 0 && pos.1 < session.grid_size.rows) {
        return false;
    }
    proof { lemma_index_in_range(session.grid_size, tile_pos@); }
    let i = tile_pos.to_index(&session.grid_size);
    if session.trapped[i] {
        return false;
    }
    if tile_pos.x == session.rustacean.x && tile_pos.y == session.rustacean.y {
        return false;
    }
    let ghost old_s = *session;
    session.trapped.set(i, true);
    session.turn_state = TurnState::RustaceanTurn;
    session.stats.tiles_tapped += 1;
    session.level_taps = CurrentLevelTaps(session.level_taps.0 + 1);
    proof {
        let gs = session.grid_size;
        if old_s.level_state == LevelState::InLevel || old_s.level_state == LevelState::LevelWin {
            lemma_index_in_range(gs, session.rustacean@);
            if gs.index_of(session.rustacean@) == i {
                lemma_index_injective(gs, session.rustacean@, tile_pos@);
            }
        }
    }
    true
}

/// The traps drawn for a level start: their count follows the level, they are
/// distinct tiles of the grid and none is under the piece.
pub open spec fn valid_draw(s: GameSession, t: Seq<(i32, i32)>) -> bool {
    &&& t.len() == trap_count_spec(s.current_level.0 as int, s.grid_size.cols * s.grid_size.rows)
    &&& distinct_tiles_avoiding(s.grid_size, t, s.rustacean@)
}

/// The drawn tiles cover all six neighbours of `c`.
pub open spec fn encloses(t: Seq<(i32, i32)>, c: Coord) -> bool {
    forall|j: int| 0 <= j < 6 ==> coords_of(t).contains(#[trigger] hex_neighbors(c)[j])
}

/// The trap flags of `new` are those of `old` with the tiles of `t` raised,
/// and nothing else differs.
pub open spec fn traps_added(old: GameSession, new: GameSession, t: Seq<(i32, i32)>) -> bool {
    &&& new == (GameSession { trapped: new.trapped, ..old })
    &&& new.trapped.len() == old.trapped.len()
    &&& forall|c: Coord|
        old.grid_size.in_bounds(c) ==> (#[trigger] new.is_trapped(c) <==> (old.is_trapped(c)
            || coords_of(t).contains(c)))
}

/// A set of tiles that encloses a tile holds at least six entries.
pub proof fn lemma_enclosing_draw_len(t: Seq<(i32, i32)>, c: Coord)
    requires
        encloses(t, c),
    ensures
        t.len() >= 6,
{
    broadcast use vstd::seq_lib::seq_to_set_is_finite;
    let nb = hex_neighbors(c);
    let ct = coords_of(t);
    lemma_neighbors_distinct_symmetric(c);
    assert(nb.no_duplicates());
    nb.unique_seq_to_set();
    ct.lemma_cardinality_of_set();
    assert forall|x: Coord| nb.to_set().contains(x) implies ct.to_set().contains(x) by {
        let j = choose|j: int| 0 <= j < nb.len() && nb[j] == x;
        assert(ct.contains(nb[j]));
    }
    lemma_len_subset(nb.to_set(), ct.to_set());
}

/// Keeps the drawn traps `trap_positions` unless they enclose the piece: kept
/// traps are raised on the grid and `true` comes back; otherwise the session
/// is unchanged and the result is `false`.
pub fn place_drawn_traps(session: &mut GameSession, trap_positions: &Vec<(i32, i32)>) -> (r: bool)
    requires
        old(session).wf(),
        old(session).level_state == LevelState::InLevel,
        distinct_tiles_avoiding(old(session).grid_size, trap_positions@, old(session).rustacean@),
    ensures
        final(session).wf(),
        r == !encloses(trap_positions@, old(session).rustacean@),
        r ==> traps_added(*old(session), *final(session), trap_positions@),
        !r ==> *final(session) == *old(session),
{
    let gs = session.grid_size;
    proof { lemma_dims_below_max(gs); }
    if traps_enclose(&session.rustacean, trap_positions) {
        return false;
    }
    let ghost old_s = *session;
    let mut k: usize = 0;
    while k < trap_positions.len()
        invariant
            gs == old_s.grid_size,
            gs.wf(),
            *session == (GameSession { trapped: session.trapped, ..old_s }),
            session.trapped.len() == old_s.trapped.len(),
            old_s.wf(),
            old_s.level_state == LevelState::InLevel,
            k <= trap_positions.len(),
            distinct_tiles_avoiding(gs, trap_positions@, old_s.rustacean@),
            forall|c: Coord|
                gs.in_bounds(c) ==> (#[trigger] session.is_trapped(c) <==> (old_s.is_trapped(c)
                    || coords_of(trap_positions@.subrange(0, k as int)).contains(c))),
        decreases trap_positions.len() - k,
    {
        let t = trap_positions[k];
        let ghost tc = pair_coord(t);
        proof { lemma_index_in_range(gs, tc); }
        let i = GridTilePos::new(t.0, t.1).to_index(&gs);
        let ghost before = *session;
        session.trapped.set(i, true);
        proof {
            assert forall|c: Coord| gs.in_bounds(c) implies (#[trigger] session.is_trapped(c) <==> (
            old_s.is_trapped(c) || coords_of(trap_positions@.subrange(0, k + 1)).contains(c))) by {
                let pre = coords_of(trap_positions@.subrange(0, k as int));
                let post = coords_of(trap_positions@.subrange(0, k + 1));
                assert(post =~= pre.push(tc));
                assert(post[k as int] == tc);
                lemma_index_in_range(gs, c);
                if gs.index_of(c) == i {
                    lemma_index_injective(gs, c, tc);
                }
                assert(session.is_trapped(c) == (before.is_trapped(c) || c == tc));
                assert(before.is_trapped(c) <==> (old_s.is_trapped(c) || pre.contains(c)));
                if pre.contains(c) {
                    let m = choose|m: int| 0 <= m < pre.len() && pre[m] == c;
                    assert(post[m] == c);
                }
                if post.contains(c) && c != tc {
                    let m = choose|m: int| 0 <= m < post.len() && post[m] == c;
                    assert(pre[m] == c);
                }
            }
        }
        k += 1;
    }
    proof {
        assert(trap_positions@.subrange(0, trap_positions.len() as int) =~= trap_positions@);
        let gs = session.grid_size;
        lemma_index_in_range(gs, session.rustacean@);
        assert(!session.is_trapped(session.rustacean@)) by {
            if coords_of(trap_positions@).contains(session.rustacean@) {
                let m = choose|m: int|
                    0 <= m < coords_of(trap_positions@).len() && coords_of(trap_positions@)[m] == session.rustacean@;
                assert(pair_coord(trap_positions@[m]) != old_s.rustacean@);
            }
        }
    }
    true
}

/// Traps kept on an untrapped grid leave the piece at least one neighbour
/// that is not a trapped tile.
pub proof fn lemma_kept_draw_leaves_free_neighbor(old: GameSession, new: GameSession, t: Seq<(i32, i32)>)
    requires
        old.wf(),
        old.no_traps(),
        !encloses(t, old.rustacean@),
        traps_added(old, new, t),
    ensures
        exists|j: int| 0 <= j < 6 && !new.is_trapped(#[trigger] hex_neighbors(old.rustacean@)[j]),
{
    let c = old.rustacean@;
    let j = choose|j: int| 0 <= j < 6 && !coords_of(t).contains(#[trigger] hex_neighbors(c)[j]);
    let n = hex_neighbors(c)[j];
    if old.grid_size.in_bounds(n) {
        lemma_index_in_range(old.grid_size, n);
        assert(!old.trapped@[old.grid_size.index_of(n)]);
    }
    assert(!new.is_trapped(n));
}

/// Lays the traps of a level that has just started: draws `trap_count` tiles
/// with `find_suitable_trap_positions` and keeps them, through
/// `place_drawn_traps`, unless they enclose the piece. The tiles kept are
/// returned; when they are not kept the session is unchanged and `None` comes
/// back, and the caller draws again. A draw can only be refused when every
/// neighbour of the piece is on the grid and at least six traps are drawn.
pub fn prepare_tile_traps(session: &mut GameSession) -> (r: Option<Vec<(i32, i32)>>)
    requires
        old(session).wf(),
        old(session).level_state == LevelState::InLevel,
        trap_count_spec(
            old(session).current_level.0 as int,
            old(session).grid_size.cols * old(session).grid_size.rows,
        ) >= 0,
    ensures
        final(session).wf(),
        r is None ==> *final(session) == *old(session),
        r is None ==> forall|j: int|
            0 <= j < 6 ==> old(session).grid_size.in_bounds(#[trigger] hex_neighbors(old(session).rustacean@)[j]),
        r is None ==> trap_count_spec(
            old(session).current_level.0 as int,
            old(session).grid_size.cols * old(session).grid_size.rows,
        ) >= 6,
        r matches Some(t) ==> {
            &&& valid_draw(*old(session), t@)
            &&& !encloses(t@, old(session).rustacean@)
            &&& traps_added(*old(session), *final(session), t@)
        },
{
    let gs = session.grid_size;
    proof { lemma_dims_below_max(gs); }
    let num_of_traps = trap_count(session.current_level.0, &gs);
    let trap_positions = find_suitable_trap_positions(num_of_traps, &gs, &session.rustacean);
    let ghost old_s = *session;
    if place_drawn_traps(session, &trap_positions) {
        Some(trap_positions)
    } else {
        proof {
            let c = old_s.rustacean@;
            lemma_enclosing_draw_len(trap_positions@, c);
            assert forall|j: int| 0 <= j < 6 implies old_s.grid_size.in_bounds(#[trigger] hex_neighbors(c)[j]) by {
                let ct = coords_of(trap_positions@);
                assert(ct.contains(hex_neighbors(c)[j]));
                let k = choose|k: int| 0 <= k < ct.len() && ct[k] == hex_neighbors(c)[j];
                assert(gs.in_bounds(pair_coord(trap_positions@[k])));
            }
        }
        None
    }
}

} // verus!
