//! Escape positions around a grid and the breadth-first search that leads the
//! piece to one of them.

use vstd::prelude::*;
use vstd::set_lib::{lemma_int_range, lemma_len_subset, set_int_range};
use crate::game::{GameSession, TotalGameStats};
use crate::hexgrid::{
    Coord, GridSize, GridTilePos, adjacent, coord_fits, get_hex_horizontal_neighbor_pos,
    hex_neighbors, lemma_adjacent_close, lemma_adjacent_symmetric, lemma_dims_below_max,
    lemma_index_in_range, lemma_index_injective, neighbors_match, pair_coord,
};
use crate::level_setup::RustaceanPos;
use crate::walks::{
    key_lt, lemma_same_key_same_walk, steps_adjacent, lemma_key_asym, lemma_key_push, lemma_key_push_same, lemma_key_trans,
    lemma_key_trichotomy, lemma_nbr_index, lemma_nbr_index_adjacent, lemma_walk_key_push, nbr_index,
    step_from, walk_end, walk_key,
};
use crate::levels::{LevelState, TurnState, run_levelend_timer, set_player_turn};

verus! {

/// An off-grid coordinate next to a border tile of the grid.
pub open spec fn is_escape(gs: GridSize, c: Coord) -> bool {
    &&& !gs.in_bounds(c)
    &&& exists|t: Coord| gs.in_bounds(t) && gs.is_border(t) && #[trigger] adjacent(t, c)
}

/// The spec coordinates of a sequence of executable pairs.
pub open spec fn coords_of(s: Seq<(i32, i32)>) -> Seq<Coord> {
    s.map_values(|p: (i32, i32)| pair_coord(p))
}

/// Strict lexicographic order on coordinates: by column, then by row.
pub open spec fn lex_lt(a: Coord, b: Coord) -> bool {
    a.0 < b.0 || (a.0 == b.0 && a.1 < b.1)
}

/// The coordinate lies within the grid.
pub fn in_bounds(pos: (i32, i32), grid_size: &GridSize) -> (r: bool)
    ensures
        r == grid_size.in_bounds(pair_coord(pos)),
{
    pos.0 >= 0 && pos.0 < grid_size.cols && pos.1 >= 0 && pos.1 < grid_size.rows
}

/// Every escape position lies in the ring just around the grid.
pub proof fn lemma_escape_near_grid(gs: GridSize, c: Coord)
    requires
        is_escape(gs, c),
    ensures
        -1 <= c.0 <= gs.cols,
        -1 <= c.1 <= gs.rows,
{
    let t = choose|t: Coord| gs.in_bounds(t) && gs.is_border(t) && #[trigger] adjacent(t, c);
    lemma_adjacent_close(t, c);
}

/// Whether `pos` is an escape position of the grid.
fn is_escape_target(pos: (i32, i32), grid_size: &GridSize) -> (r: bool)
    requires
        grid_size.wf(),
        coord_fits(pair_coord(pos)),
    ensures
        r == is_escape(*grid_size, pair_coord(pos)),
{
    let ghost c = pair_coord(pos);
    if in_bounds(pos, grid_size) {
        return false;
    }
    let ns = get_hex_horizontal_neighbor_pos(pos.0, pos.1);
    let mut i: usize = 0;
    while i < 6
        invariant
            0 <= i <= 6,
            c == pair_coord(pos),
            neighbors_match(ns@, c),
            !grid_size.in_bounds(c),
            forall|j: int| 0 <= j < i ==> !grid_size.in_bounds(#[trigger] hex_neighbors(c)[j]),
        decreases 6 - i,
    {
        if in_bounds(ns[i], grid_size) {
            proof {
                let t = hex_neighbors(c)[i as int];
                assert(pair_coord(ns@[i as int]) == t);
                assert(adjacent(c, t));
                lemma_adjacent_symmetric(c, t);
                lemma_adjacent_close(c, t);
                assert(grid_size.in_bounds(t) && grid_size.is_border(t) && adjacent(t, c));
            }
            return true;
        }
        i += 1;
    }
    proof {
        if is_escape(*grid_size, c) {
            let t = choose|t: Coord|
                grid_size.in_bounds(t) && grid_size.is_border(t) && #[trigger] adjacent(t, c);
            lemma_adjacent_symmetric(t, c);
            let j = choose|j: int| 0 <= j < hex_neighbors(c).len() && hex_neighbors(c)[j] == t;
            assert(!grid_size.in_bounds(hex_neighbors(c)[j]));
        }
    }
    false
}

/// All off-grid coordinates next to a border tile, without duplicates and in
/// increasing lexicographic order.
pub fn escape_targets(grid_size: &GridSize) -> (r: Vec<(i32, i32)>)
    requires
        grid_size.wf(),
    ensures
        forall|c: Coord| coords_of(r@).contains(c) <==> is_escape(*grid_size, c),
        forall|i: int, j: int|
            0 <= i < j < r.len() ==> lex_lt(#[trigger] pair_coord(r@[i]), #[trigger] pair_coord(r@[j])),
{
    let gs = *grid_size;
    proof { lemma_dims_below_max(gs); }
    let mut escapes: Vec<(i32, i32)> = Vec::new();
    let mut x: i32 = -1;
    while x <= gs.cols
        invariant
            gs == *grid_size,
            gs.wf(),
            gs.cols < i32::MAX,
            gs.rows < i32::MAX,
            -1 <= x <= gs.cols + 1,
            forall|c: Coord|
                coords_of(escapes@).contains(c) <==> (is_escape(gs, c) && c.0 < x),
            forall|i: int, j: int|
                0 <= i < j < escapes.len() ==> lex_lt(
                    #[trigger] pair_coord(escapes@[i]),
                    #[trigger] pair_coord(escapes@[j]),
                ),
            forall|i: int| 0 <= i < escapes.len() ==> (#[trigger] escapes@[i]).0 < x,
        decreases gs.cols + 1 - x,
    {
        let mut y: i32 = -1;
        while y <= gs.rows
            invariant
                gs == *grid_size,
                gs.wf(),
                gs.cols < i32::MAX,
                gs.rows < i32::MAX,
                -1 <= x <= gs.cols,
                -1 <= y <= gs.rows + 1,
                forall|c: Coord|
                    coords_of(escapes@).contains(c) <==> (is_escape(gs, c) && (c.0 < x || (
                    c.0 == x && c.1 < y))),
                forall|i: int, j: int|
                    0 <= i < j < escapes.len() ==> lex_lt(
                        #[trigger] pair_coord(escapes@[i]),
                        #[trigger] pair_coord(escapes@[j]),
                    ),
                forall|i: int|
                    0 <= i < escapes.len() ==> lex_lt(
                        #[trigger] pair_coord(escapes@[i]),
                        (x as int, y as int),
                    ),
            decreases gs.rows + 1 - y,
        {
            let found = is_escape_target((x, y), &gs);
            let ghost old_escapes = escapes@;
            if found {
                escapes.push((x, y));
                proof {
                    assert(coords_of(escapes@) =~= coords_of(old_escapes).push((x as int, y as int)));
                }
            }
            proof {
                assert forall|c: Coord|
                    coords_of(escapes@).contains(c) <==> (is_escape(gs, c) && (c.0 < x || (c.0
                        == x && c.1 < y + 1))) by {
                    if coords_of(escapes@).contains(c) && c != (x as int, y as int) {
                        assert(coords_of(old_escapes).contains(c));
                    }
                    if is_escape(gs, c) && (c.0 < x || (c.0 == x && c.1 < y)) {
                        let k = choose|k: int|
                            0 <= k < coords_of(old_escapes).len() && coords_of(old_escapes)[k] == c;
                        assert(coords_of(escapes@)[k] == c);
                    }
                    if found && c == (x as int, y as int) {
                        assert(coords_of(escapes@)[escapes.len() - 1] == c);
                    }
                }
            }
            y += 1;
        }
        proof {
            assert forall|i: int| 0 <= i < escapes.len() implies (#[trigger] escapes@[i]).0 < x + 1 by {
                assert(lex_lt(pair_coord(escapes@[i]), (x as int, y as int)));
            }
            assert forall|c: Coord|
                coords_of(escapes@).contains(c) <==> (is_escape(gs, c) && c.0 < x + 1) by {
                if is_escape(gs, c) {
                    lemma_escape_near_grid(gs, c);
                }
            }
        }
        x += 1;
    }
    proof {
        assert forall|c: Coord| coords_of(escapes@).contains(c) <==> is_escape(gs, c) by {
            if is_escape(gs, c) {
                lemma_escape_near_grid(gs, c);
            }
        }
    }
    escapes
}

/// Outcome of a search for the way out.
#[derive(Clone, Debug, PartialEq, Eq)]
pub enum Path {
    /// An escape position right next to the piece.
    Escaped(i32, i32),
    /// A walk from a neighbour of the piece through open tiles, ending on an
    /// escape position.
    Found(Vec<(i32, i32)>),
    /// No open tile leads to an escape position.
    NotFound,
}

/// A tile of the grid that is not trapped; `open` is indexed row-major.
pub open spec fn is_open(gs: GridSize, open: Seq<bool>, c: Coord) -> bool {
    gs.in_bounds(c) && open[gs.index_of(c)]
}

/// A walk from `start` (excluded) to an escape position (included), each
/// step to a neighbour, through open tiles only.
pub open spec fn escape_walk(gs: GridSize, open: Seq<bool>, start: Coord, p: Seq<Coord>) -> bool {
    &&& p.len() >= 1
    &&& adjacent(start, p[0])
    &&& forall|i: int| 0 <= i < p.len() - 1 ==> adjacent(#[trigger] p[i], p[i + 1])
    &&& forall|i: int| 0 <= i < p.len() - 1 ==> is_open(gs, open, #[trigger] p[i])
    &&& is_escape(gs, p.last())
}

/// One of the six neighbours of `c` is an escape position.
pub open spec fn has_escape_neighbor(gs: GridSize, c: Coord) -> bool {
    exists|i: int| 0 <= i < 6 && is_escape(gs, #[trigger] hex_neighbors(c)[i])
}

/// `e` is the first neighbour of `c`, in the fixed order, that is an escape position.
pub open spec fn first_escape_neighbor(gs: GridSize, c: Coord, e: Coord) -> bool {
    exists|i: int|
        0 <= i < 6 && hex_neighbors(c)[i] == e && is_escape(gs, e) && forall|j: int|
            0 <= j < i ==> !is_escape(gs, #[trigger] hex_neighbors(c)[j])
}

/// What a search from `start` over the open tiles returns. A walk found is
/// as short as any escape walk and, among those as short, the first in the
/// order of the neighbours taken at each step.
pub open spec fn pathfind_post(gs: GridSize, open: Seq<bool>, start: Coord, r: Path) -> bool {
    match r {
        Path::Escaped(x, y) => first_escape_neighbor(gs, start, (x as int, y as int)),
        Path::Found(p) => {
            &&& !has_escape_neighbor(gs, start)
            &&& escape_walk(gs, open, start, coords_of(p@))
            &&& forall|q: Seq<Coord>| #[trigger] escape_walk(gs, open, start, q) ==> p.len() <= q.len()
            &&& forall|q: Seq<Coord>|
                #[trigger] escape_walk(gs, open, start, q) && q.len() == p.len() ==> !key_lt(
                    walk_key(start, q),
                    walk_key(start, coords_of(p@)),
                )
        },
        Path::NotFound => !has_escape_neighbor(gs, start) && forall|p: Seq<Coord>|
            !#[trigger] escape_walk(gs, open, start, p),
    }
}

/// A walk from `start` (excluded) through open tiles, each step to a neighbour.
pub open spec fn open_walk(gs: GridSize, open: Seq<bool>, start: Coord, w: Seq<Coord>) -> bool {
    &&& forall|i: int| 0 <= i < w.len() ==> adjacent(step_from(start, w, i), #[trigger] w[i])
    &&& forall|i: int| 0 <= i < w.len() ==> is_open(gs, open, #[trigger] w[i])
}

/// An escape walk is an open walk followed by one step onto an escape position.
pub proof fn lemma_escape_walk_split(gs: GridSize, open: Seq<bool>, start: Coord, p: Seq<Coord>)
    ensures
        escape_walk(gs, open, start, p) <==> (p.len() >= 1 && open_walk(gs, open, start, p.take(p.len() - 1))
            && adjacent(walk_end(start, p.take(p.len() - 1)), p.last()) && is_escape(gs, p.last())),
{
    if p.len() >= 1 {
        let w = p.take(p.len() - 1);
        if escape_walk(gs, open, start, p) {
            assert forall|i: int| 0 <= i < w.len() implies adjacent(step_from(start, w, i), #[trigger] w[i]) by {
                if i > 0 {
                    assert(adjacent(p[i - 1], p[i]));
                }
            }
            if w.len() > 0 {
                assert(adjacent(p[w.len() - 1], p[w.len() as int]));
            }
        }
        if open_walk(gs, open, start, w) && adjacent(walk_end(start, w), p.last()) && is_escape(gs, p.last()) {
            if p.len() > 1 {
                assert(adjacent(step_from(start, w, 0), w[0]));
            }
            assert forall|i: int| 0 <= i < p.len() - 1 implies adjacent(#[trigger] p[i], p[i + 1]) by {
                if i + 1 < w.len() {
                    assert(adjacent(step_from(start, w, i + 1), w[i + 1]));
                }
            }
            assert forall|i: int| 0 <= i < p.len() - 1 implies is_open(gs, open, #[trigger] p[i]) by {
                assert(is_open(gs, open, w[i]));
            }
        }
    }
}

/// A prefix of an open walk is an open walk.
proof fn lemma_open_walk_take(gs: GridSize, open: Seq<bool>, start: Coord, w: Seq<Coord>, k: int)
    requires
        open_walk(gs, open, start, w),
        0 <= k <= w.len(),
    ensures
        open_walk(gs, open, start, w.take(k)),
{
    let w2 = w.take(k);
    assert forall|i: int| 0 <= i < w2.len() implies adjacent(step_from(start, w2, i), #[trigger] w2[i]) by {
        assert(adjacent(step_from(start, w, i), w[i]));
    }
    assert forall|i: int| 0 <= i < w2.len() implies is_open(gs, open, #[trigger] w2[i]) by {
        assert(is_open(gs, open, w[i]));
    }
}

/// An open walk extended by a step to an open neighbour of its end.
proof fn lemma_open_walk_push(gs: GridSize, open: Seq<bool>, start: Coord, w: Seq<Coord>, x: Coord)
    requires
        open_walk(gs, open, start, w),
        adjacent(walk_end(start, w), x),
        is_open(gs, open, x),
    ensures
        open_walk(gs, open, start, w.push(x)),
        walk_end(start, w.push(x)) == x,
{
    let w2 = w.push(x);
    assert forall|i: int| 0 <= i < w2.len() implies adjacent(step_from(start, w2, i), #[trigger] w2[i]) by {
        if i < w.len() {
            assert(adjacent(step_from(start, w, i), w[i]));
        }
    }
    assert forall|i: int| 0 <= i < w2.len() implies is_open(gs, open, #[trigger] w2[i]) by {
        if i < w.len() {
            assert(is_open(gs, open, w[i]));
        }
    }
}

/// The tile `c` has been reached by the search.
spec fn seen(gs: GridSize, visited: Seq<bool>, c: Coord) -> bool {
    gs.in_bounds(c) && visited[gs.index_of(c)]
}

/// Search depth recorded for a tile.
spec fn depth(gs: GridSize, dep: Seq<nat>, c: Coord) -> nat {
    dep[gs.index_of(c)]
}

/// Every reached tile but the start is open and was reached from a reached
/// neighbour one step closer to the start.
#[verifier::opaque]
spec fn parent_links(
    gs: GridSize,
    open: Seq<bool>,
    visited: Seq<bool>,
    came_from: Seq<(i32, i32)>,
    dep: Seq<nat>,
    start: Coord,
) -> bool {
    forall|c: Coord|
        #[trigger] seen(gs, visited, c) && c != start ==> {
            let p = pair_coord(came_from[gs.index_of(c)]);
            &&& is_open(gs, open, c)
            &&& seen(gs, visited, p)
            &&& adjacent(p, c)
            &&& depth(gs, dep, c) == depth(gs, dep, p) + 1
        }
}

/// No neighbour of `c` is an escape position, and its open neighbours are
/// reached, at most one step deeper than `c`.
spec fn closed_at(gs: GridSize, open: Seq<bool>, visited: Seq<bool>, dep: Seq<nat>, c: Coord) -> bool {
    forall|j: int|
        0 <= j < 6 ==> !is_escape(gs, #[trigger] hex_neighbors(c)[j]) && (is_open(
            gs,
            open,
            hex_neighbors(c)[j],
        ) ==> seen(gs, visited, hex_neighbors(c)[j]) && depth(gs, dep, hex_neighbors(c)[j]) <= depth(
            gs,
            dep,
            c,
        ) + 1)
}

proof fn lemma_mark_seen(gs: GridSize, visited: Seq<bool>, c: Coord)
    requires
        gs.wf(),
        gs.in_bounds(c),
        visited.len() == gs.cols * gs.rows,
    ensures
        forall|d: Coord|
            #[trigger] seen(gs, visited.update(gs.index_of(c), true), d) == (seen(gs, visited, d)
                || d == c),
{
    lemma_index_in_range(gs, c);
    assert forall|d: Coord|
        #[trigger] seen(gs, visited.update(gs.index_of(c), true), d) == (seen(gs, visited, d) || d
            == c) by {
        if gs.in_bounds(d) {
            lemma_index_in_range(gs, d);
            if gs.index_of(d) == gs.index_of(c) {
                lemma_index_injective(gs, c, d);
            }
        }
    }
}

/// Every queued tile is reached, and every reached tile is queued.
#[verifier::opaque]
spec fn queue_covers(gs: GridSize, visited: Seq<bool>, queue: Seq<(i32, i32)>) -> bool {
    &&& forall|q: int| 0 <= q < queue.len() ==> seen(gs, visited, pair_coord(#[trigger] queue[q]))
    &&& forall|c: Coord|
        #[trigger] seen(gs, visited, c) ==> exists|q: int|
            0 <= q < queue.len() && pair_coord(queue[q]) == c
}

/// The tiles before `head` in the queue have been expanded.
#[verifier::opaque]
spec fn expanded(
    gs: GridSize,
    open: Seq<bool>,
    visited: Seq<bool>,
    dep: Seq<nat>,
    queue: Seq<(i32, i32)>,
    head: int,
) -> bool {
    forall|q: int| 0 <= q < head ==> closed_at(gs, open, visited, dep, pair_coord(#[trigger] queue[q]))
}

/// The queue starts with the start tile, at depth zero; depths never
/// decrease along the queue and stay within one of the tile at `head`.
#[verifier::opaque]
spec fn layered(gs: GridSize, dep: Seq<nat>, queue: Seq<(i32, i32)>, head: int, start: Coord) -> bool {
    &&& queue.len() >= 1
    &&& pair_coord(queue[0]) == start
    &&& depth(gs, dep, start) == 0
    &&& forall|q1: int, q2: int|
        0 <= q1 <= q2 < queue.len() ==> depth(gs, dep, pair_coord(#[trigger] queue[q1])) <= depth(
            gs,
            dep,
            pair_coord(#[trigger] queue[q2]),
        )
    &&& head < queue.len() ==> forall|q: int|
        0 <= q < queue.len() ==> depth(gs, dep, pair_coord(#[trigger] queue[q])) <= depth(
            gs,
            dep,
            pair_coord(queue[head]),
        ) + 1
}

/// `idxs` is the finite set of reached indices, one per queued tile.
#[verifier::opaque]
spec fn counted(idxs: Set<int>, visited: Seq<bool>, n: int, queue_len: int) -> bool {
    &&& idxs.finite()
    &&& idxs.len() == queue_len
    &&& forall|j: int| idxs.contains(j) <==> 0 <= j < n && visited[j]
}

/// A reached tile is at most one step deeper than the tile at `head`.
proof fn lemma_seen_depth_bound(
    gs: GridSize,
    visited: Seq<bool>,
    dep: Seq<nat>,
    queue: Seq<(i32, i32)>,
    head: int,
    s: Coord,
    c: Coord,
)
    requires
        queue_covers(gs, visited, queue),
        layered(gs, dep, queue, head, s),
        0 <= head < queue.len(),
        seen(gs, visited, c),
    ensures
        depth(gs, dep, c) <= depth(gs, dep, pair_coord(queue[head])) + 1,
{
    reveal(queue_covers);
    reveal(layered);
    let q0 = choose|q: int| 0 <= q < queue.len() && pair_coord(queue[q]) == c;
    assert(depth(gs, dep, pair_coord(queue[q0])) <= depth(gs, dep, pair_coord(queue[head])) + 1);
}

/// Reaching the open tile `nb` from the tile `cur` at `head` keeps the
/// search's invariants.
proof fn lemma_visit(
    gs: GridSize,
    open: Seq<bool>,
    visited: Seq<bool>,
    came_from: Seq<(i32, i32)>,
    dep: Seq<nat>,
    queue: Seq<(i32, i32)>,
    head: int,
    idxs: Set<int>,
    s: Coord,
    cur: (i32, i32),
    nb: (i32, i32),
)
    requires
        gs.wf(),
        open.len() == gs.cols * gs.rows,
        visited.len() == gs.cols * gs.rows,
        came_from.len() == gs.cols * gs.rows,
        dep.len() == gs.cols * gs.rows,
        seen(gs, visited, s),
        0 <= head < queue.len(),
        cur == queue[head],
        seen(gs, visited, pair_coord(cur)),
        adjacent(pair_coord(cur), pair_coord(nb)),
        is_open(gs, open, pair_coord(nb)),
        !visited[gs.index_of(pair_coord(nb))],
        queue_covers(gs, visited, queue),
        parent_links(gs, open, visited, came_from, dep, s),
        expanded(gs, open, visited, dep, queue, head),
        layered(gs, dep, queue, head, s),
        counted(idxs, visited, gs.cols * gs.rows, queue.len() as int),
    ensures
        ({
            let i = gs.index_of(pair_coord(nb));
            let v2 = visited.update(i, true);
            let cf2 = came_from.update(i, cur);
            let dep2 = dep.update(i, depth(gs, dep, pair_coord(cur)) + 1);
            let q2 = queue.push(nb);
            &&& forall|c: Coord| #[trigger] seen(gs, v2, c) == (seen(gs, visited, c) || c == pair_coord(nb))
            &&& forall|c: Coord| seen(gs, visited, c) ==> #[trigger] depth(gs, dep2, c) == depth(gs, dep, c)
            &&& depth(gs, dep2, pair_coord(nb)) == depth(gs, dep, pair_coord(cur)) + 1
            &&& queue_covers(gs, v2, q2)
            &&& parent_links(gs, open, v2, cf2, dep2, s)
            &&& expanded(gs, open, v2, dep2, q2, head)
            &&& layered(gs, dep2, q2, head, s)
            &&& counted(idxs.insert(i), v2, gs.cols * gs.rows, q2.len() as int)
        }),
{
    reveal(queue_covers);
    reveal(parent_links);
    reveal(expanded);
    reveal(layered);
    reveal(counted);
    let cc = pair_coord(cur);
    let nc = pair_coord(nb);
    let i = gs.index_of(nc);
    let v2 = visited.update(i, true);
    let cf2 = came_from.update(i, cur);
    let dep2 = dep.update(i, depth(gs, dep, cc) + 1);
    let q2 = queue.push(nb);
    lemma_index_in_range(gs, nc);
    lemma_index_in_range(gs, cc);
    lemma_mark_seen(gs, visited, nc);
    assert forall|c: Coord| seen(gs, visited, c) implies #[trigger] depth(gs, dep2, c) == depth(gs, dep, c) by {
        lemma_index_in_range(gs, c);
    }
    assert forall|c: Coord| #[trigger] seen(gs, v2, c) implies exists|q: int|
        0 <= q < q2.len() && pair_coord(q2[q]) == c by {
        if c == nc {
            assert(pair_coord(q2[q2.len() - 1]) == c);
        } else {
            assert(seen(gs, visited, c));
            let q0 = choose|q: int| 0 <= q < queue.len() && pair_coord(queue[q]) == c;
            assert(q2[q0] == queue[q0]);
        }
    }
    assert forall|q: int| 0 <= q < q2.len() implies seen(gs, v2, pair_coord(#[trigger] q2[q])) by {
        if q < queue.len() {
            assert(q2[q] == queue[q]);
            assert(seen(gs, visited, pair_coord(queue[q])));
        }
    }
    assert forall|c: Coord| #[trigger] seen(gs, v2, c) && c != s implies {
        let p = pair_coord(cf2[gs.index_of(c)]);
        &&& is_open(gs, open, c)
        &&& seen(gs, v2, p)
        &&& adjacent(p, c)
        &&& depth(gs, dep2, c) == depth(gs, dep2, p) + 1
    } by {
        if c == nc {
            assert(cf2[gs.index_of(c)] == cur);
        } else {
            assert(seen(gs, visited, c));
            lemma_index_in_range(gs, c);
            if gs.index_of(c) == i {
                lemma_index_injective(gs, c, nc);
            }
            let p = pair_coord(came_from[gs.index_of(c)]);
            assert(cf2[gs.index_of(c)] == came_from[gs.index_of(c)]);
            assert(seen(gs, visited, p));
        }
    }
    assert forall|q: int| 0 <= q < head implies closed_at(gs, open, v2, dep2, pair_coord(#[trigger] q2[q])) by {
        assert(q2[q] == queue[q]);
        let c = pair_coord(queue[q]);
        assert(closed_at(gs, open, visited, dep, c));
        assert(seen(gs, visited, c));
        assert forall|j: int| 0 <= j < 6 && is_open(gs, open, #[trigger] hex_neighbors(c)[j]) implies depth(
            gs,
            dep2,
            hex_neighbors(c)[j],
        ) <= depth(gs, dep2, c) + 1 by {
            assert(seen(gs, visited, hex_neighbors(c)[j]));
        }
    }
    assert forall|q1: int, q2i: int| 0 <= q1 <= q2i < q2.len() implies depth(
        gs,
        dep2,
        pair_coord(#[trigger] q2[q1]),
    ) <= depth(gs, dep2, pair_coord(#[trigger] q2[q2i])) by {
        if q1 < queue.len() {
            assert(q2[q1] == queue[q1]);
            assert(seen(gs, visited, pair_coord(queue[q1])));
        }
        if q2i < queue.len() {
            assert(q2[q2i] == queue[q2i]);
            assert(seen(gs, visited, pair_coord(queue[q2i])));
        } else if q1 < queue.len() {
            assert(depth(gs, dep, pair_coord(queue[q1])) <= depth(gs, dep, pair_coord(queue[head])) + 1);
        }
    }
    assert(q2[head] == queue[head]);
    assert forall|q: int| 0 <= q < q2.len() implies depth(gs, dep2, pair_coord(#[trigger] q2[q])) <= depth(
        gs,
        dep2,
        pair_coord(q2[head]),
    ) + 1 by {
        if q < queue.len() {
            assert(q2[q] == queue[q]);
            assert(seen(gs, visited, pair_coord(queue[q])));
        }
    }
    assert(q2[0] == queue[0]);
    assert(!idxs.contains(i));
    assert(queue_covers(gs, v2, q2));
    assert(parent_links(gs, open, v2, cf2, dep2, s));
    assert(expanded(gs, open, v2, dep2, q2, head));
    assert(layered(gs, dep2, q2, head, s));
    assert(counted(idxs.insert(i), v2, gs.cols * gs.rows, q2.len() as int));
}

/// Each reached tile has a search path: an open walk from the start that ends
/// on it, as long as its depth, one step longer than its parent's, and first
/// in key order among the open walks of that length that end on it.
#[verifier::opaque]
spec fn tree_paths(
    gs: GridSize,
    open: Seq<bool>,
    visited: Seq<bool>,
    came_from: Seq<(i32, i32)>,
    dep: Seq<nat>,
    tp: Seq<Seq<Coord>>,
    start: Coord,
) -> bool {
    forall|c: Coord|
        #[trigger] seen(gs, visited, c) ==> {
            let t = tp[gs.index_of(c)];
            &&& open_walk(gs, open, start, t)
            &&& walk_end(start, t) == c
            &&& t.len() == depth(gs, dep, c)
            &&& (c != start ==> t == tp[gs.index_of(pair_coord(came_from[gs.index_of(c)]))].push(c))
            &&& forall|w: Seq<Coord>|
                open_walk(gs, open, start, w) && walk_end(start, w) == c && w.len() == t.len() ==> !key_lt(
                    #[trigger] walk_key(start, w),
                    walk_key(start, t),
                )
        }
}

/// The search path of a reached tile is as long as its depth.
proof fn lemma_tree_len(
    gs: GridSize,
    open: Seq<bool>,
    visited: Seq<bool>,
    came_from: Seq<(i32, i32)>,
    dep: Seq<nat>,
    tp: Seq<Seq<Coord>>,
    start: Coord,
    c: Coord,
)
    requires
        tree_paths(gs, open, visited, came_from, dep, tp, start),
        seen(gs, visited, c),
    ensures
        tp[gs.index_of(c)].len() == depth(gs, dep, c),
{
    reveal(tree_paths);
}

/// The search path of a reached tile is first in key order among the open
/// walks of its length that end on it.
proof fn lemma_tree_first(
    gs: GridSize,
    open: Seq<bool>,
    visited: Seq<bool>,
    came_from: Seq<(i32, i32)>,
    dep: Seq<nat>,
    tp: Seq<Seq<Coord>>,
    start: Coord,
    c: Coord,
    w: Seq<Coord>,
)
    requires
        tree_paths(gs, open, visited, came_from, dep, tp, start),
        seen(gs, visited, c),
        open_walk(gs, open, start, w),
        walk_end(start, w) == c,
        w.len() == depth(gs, dep, c),
    ensures
        !key_lt(walk_key(start, w), walk_key(start, tp[gs.index_of(c)])),
{
    reveal(tree_paths);
    assert(tp[gs.index_of(c)].len() == depth(gs, dep, c));
}

/// Key of the search path of `c`.
spec fn tkey(gs: GridSize, tp: Seq<Seq<Coord>>, start: Coord, c: Coord) -> Seq<int> {
    walk_key(start, tp[gs.index_of(c)])
}

/// Along the queue, keys increase among tiles of one depth; the queued tiles
/// one step deeper than the tile at `head` come, in key order, before its
/// `jb`-th neighbour.
#[verifier::opaque]
spec fn queue_keys(
    gs: GridSize,
    dep: Seq<nat>,
    tp: Seq<Seq<Coord>>,
    queue: Seq<(i32, i32)>,
    head: int,
    jb: int,
    start: Coord,
) -> bool {
    &&& forall|q1: int, q2: int|
        0 <= q1 < q2 < queue.len() ==> {
            let c1 = pair_coord(#[trigger] queue[q1]);
            let c2 = pair_coord(#[trigger] queue[q2]);
            depth(gs, dep, c1) < depth(gs, dep, c2) || (depth(gs, dep, c1) == depth(gs, dep, c2) && key_lt(
                tkey(gs, tp, start, c1),
                tkey(gs, tp, start, c2),
            ))
        }
    &&& head < queue.len() ==> forall|q: int|
        0 <= q < queue.len() && depth(gs, dep, pair_coord(#[trigger] queue[q])) == depth(
            gs,
            dep,
            pair_coord(queue[head]),
        ) + 1 ==> key_lt(
            tkey(gs, tp, start, pair_coord(queue[q])),
            tkey(gs, tp, start, pair_coord(queue[head])).push(jb),
        )
}

/// Two queued tiles in queue order are in depth order, and in key order
/// within one depth.
proof fn lemma_queue_order(
    gs: GridSize,
    dep: Seq<nat>,
    tp: Seq<Seq<Coord>>,
    queue: Seq<(i32, i32)>,
    head: int,
    jb: int,
    start: Coord,
    q1: int,
    q2: int,
)
    requires
        queue_keys(gs, dep, tp, queue, head, jb, start),
        0 <= q1 < q2 < queue.len(),
    ensures
        ({
            let c1 = pair_coord(queue[q1]);
            let c2 = pair_coord(queue[q2]);
            depth(gs, dep, c1) < depth(gs, dep, c2) || (depth(gs, dep, c1) == depth(gs, dep, c2) && key_lt(
                tkey(gs, tp, start, c1),
                tkey(gs, tp, start, c2),
            ))
        }),
{
    reveal(queue_keys);
}

/// The start is queued first, at depth zero.
proof fn lemma_layered_start(gs: GridSize, dep: Seq<nat>, queue: Seq<(i32, i32)>, head: int, start: Coord)
    requires
        layered(gs, dep, queue, head, start),
    ensures
        depth(gs, dep, start) == 0,
{
    reveal(layered);
}

/// The end of an open walk no longer than `d`, through a region whose tiles
/// shallower than `d` are closed, is reached, no deeper than the walk is long.
#[verifier::rlimit(60)]
proof fn lemma_walk_end_seen(
    gs: GridSize,
    open: Seq<bool>,
    visited: Seq<bool>,
    dep: Seq<nat>,
    start: Coord,
    d: nat,
    w: Seq<Coord>,
)
    requires
        seen(gs, visited, start),
        depth(gs, dep, start) == 0,
        forall|c: Coord|
            seen(gs, visited, c) && depth(gs, dep, c) < d ==> #[trigger] closed_at(gs, open, visited, dep, c),
        open_walk(gs, open, start, w),
        w.len() <= d,
    ensures
        seen(gs, visited, walk_end(start, w)),
        depth(gs, dep, walk_end(start, w)) <= w.len(),
    decreases w.len(),
{
    if w.len() > 0 {
        let n = w.len() - 1;
        let w2 = w.take(n);
        lemma_open_walk_take(gs, open, start, w, n);
        lemma_walk_end_seen(gs, open, visited, dep, start, d, w2);
        let u = walk_end(start, w2);
        assert(step_from(start, w, n) == u);
        assert(adjacent(u, w[n]));
        assert(is_open(gs, open, w[n]));
        let j = choose|j: int| 0 <= j < hex_neighbors(u).len() && hex_neighbors(u)[j] == w[n];
        assert(closed_at(gs, open, visited, dep, u));
    }
}

/// With the tiles shallower than `d` all closed, every escape walk takes at
/// least `d + 1` steps.
proof fn lemma_no_shorter_walk(
    gs: GridSize,
    open: Seq<bool>,
    visited: Seq<bool>,
    dep: Seq<nat>,
    start: Coord,
    d: nat,
    p: Seq<Coord>,
)
    requires
        seen(gs, visited, start),
        depth(gs, dep, start) == 0,
        forall|c: Coord|
            seen(gs, visited, c) && depth(gs, dep, c) < d ==> #[trigger] closed_at(gs, open, visited, dep, c),
        escape_walk(gs, open, start, p),
    ensures
        p.len() >= d + 1,
{
    if p.len() < d + 1 {
        lemma_escape_walk_split(gs, open, start, p);
        let w = p.take(p.len() - 1);
        lemma_walk_end_seen(gs, open, visited, dep, start, d, w);
        let u = walk_end(start, w);
        let j = choose|j: int| 0 <= j < hex_neighbors(u).len() && hex_neighbors(u)[j] == p.last();
        assert(closed_at(gs, open, visited, dep, u));
    }
}

/// A walk as long as the depth of the tile at `head`, followed by a step that
/// no expanded tile could take, ends on a tile of that depth that is the one
/// at `head` or comes after it in key order; and its key is not below that
/// tile's search path key.
proof fn lemma_key_bound(
    gs: GridSize,
    open: Seq<bool>,
    visited: Seq<bool>,
    came_from: Seq<(i32, i32)>,
    dep: Seq<nat>,
    tp: Seq<Seq<Coord>>,
    queue: Seq<(i32, i32)>,
    head: int,
    jb: int,
    s: Coord,
    w: Seq<Coord>,
    x: Coord,
)
    requires
        queue_covers(gs, visited, queue),
        layered(gs, dep, queue, head, s),
        expanded(gs, open, visited, dep, queue, head),
        tree_paths(gs, open, visited, came_from, dep, tp, s),
        queue_keys(gs, dep, tp, queue, head, jb, s),
        0 <= head < queue.len(),
        seen(gs, visited, s),
        open_walk(gs, open, s, w),
        w.len() == depth(gs, dep, pair_coord(queue[head])),
        adjacent(walk_end(s, w), x),
        is_escape(gs, x) || (is_open(gs, open, x) && !seen(gs, visited, x)),
    ensures
        ({
            let u = walk_end(s, w);
            let h = pair_coord(queue[head]);
            &&& seen(gs, visited, u)
            &&& depth(gs, dep, u) == depth(gs, dep, h)
            &&& (u == h || key_lt(tkey(gs, tp, s, h), tkey(gs, tp, s, u)))
            &&& !key_lt(walk_key(s, w), tkey(gs, tp, s, u))
        }),
{
    let h = pair_coord(queue[head]);
    let d = depth(gs, dep, h);
    lemma_layered_start(gs, dep, queue, head, s);
    lemma_shallow_closed(gs, open, visited, dep, queue, head, s);
    lemma_walk_end_seen(gs, open, visited, dep, s, d, w);
    let u = walk_end(s, w);
    let j = choose|j: int| 0 <= j < hex_neighbors(u).len() && hex_neighbors(u)[j] == x;
    if depth(gs, dep, u) < d {
        assert(closed_at(gs, open, visited, dep, u));
    }
    assert(exists|q: int| 0 <= q < queue.len() && pair_coord(queue[q]) == u) by {
        reveal(queue_covers);
    }
    let q0 = choose|q: int| 0 <= q < queue.len() && pair_coord(queue[q]) == u;
    if q0 < head {
        reveal(expanded);
        assert(closed_at(gs, open, visited, dep, pair_coord(queue[q0])));
    } else if q0 > head {
        lemma_queue_order(gs, dep, tp, queue, head, jb, s, head, q0);
    }
    lemma_tree_first(gs, open, visited, came_from, dep, tp, s, u, w);
}

/// When the tiles before `head` are closed, so is every reached tile shallower
/// than the tile at `head`.
proof fn lemma_shallow_closed(
    gs: GridSize,
    open: Seq<bool>,
    visited: Seq<bool>,
    dep: Seq<nat>,
    queue: Seq<(i32, i32)>,
    head: int,
    s: Coord,
)
    requires
        queue_covers(gs, visited, queue),
        layered(gs, dep, queue, head, s),
        expanded(gs, open, visited, dep, queue, head),
        0 <= head < queue.len(),
    ensures
        forall|c: Coord|
            seen(gs, visited, c) && depth(gs, dep, c) < depth(gs, dep, pair_coord(queue[head]))
                ==> #[trigger] closed_at(gs, open, visited, dep, c),
{
    reveal(queue_covers);
    reveal(layered);
    reveal(expanded);
    assert forall|c: Coord|
        seen(gs, visited, c) && depth(gs, dep, c) < depth(gs, dep, pair_coord(queue[head]))
            implies #[trigger] closed_at(gs, open, visited, dep, c) by {
        let q0 = choose|q: int| 0 <= q < queue.len() && pair_coord(queue[q]) == c;
        if q0 >= head {
            assert(depth(gs, dep, pair_coord(queue[head])) <= depth(gs, dep, pair_coord(queue[q0])));
        }
        assert(closed_at(gs, open, visited, dep, pair_coord(queue[q0])));
    }
}

/// When every reached tile is closed, no walk leaves for an escape position.
proof fn lemma_closed_region_no_walk(
    gs: GridSize,
    open: Seq<bool>,
    visited: Seq<bool>,
    dep: Seq<nat>,
    start: Coord,
    p: Seq<Coord>,
)
    requires
        seen(gs, visited, start),
        depth(gs, dep, start) == 0,
        forall|c: Coord| seen(gs, visited, c) ==> #[trigger] closed_at(gs, open, visited, dep, c),
    ensures
        !escape_walk(gs, open, start, p),
{
    if escape_walk(gs, open, start, p) {
        lemma_no_shorter_walk(gs, open, visited, dep, start, p.len() as nat, p);
    }
}

/// From `u` at the head or after it in key order, a step to `x` at position
/// `jx` from a walk no lower in key than `u`'s search path is no lower in key
/// than the step from the head's search path to its `j`-th neighbour, when
/// `jx >= j` in case `u` is the head.
proof fn lemma_step_key_order(hk: Seq<int>, uk: Seq<int>, wk: Seq<int>, same: bool, j: int, jx: int)
    requires
        hk.len() == uk.len(),
        uk.len() == wk.len(),
        same ==> hk == uk && jx >= j,
        !same ==> key_lt(hk, uk),
        !key_lt(wk, uk),
    ensures
        !key_lt(wk.push(jx), hk.push(j)),
{
    lemma_key_trichotomy(wk, uk);
    if same {
        if wk == uk {
            if jx > j {
                lemma_key_push_same(hk, j, jx);
                lemma_key_asym(hk.push(j), wk.push(jx));
            } else {
                assert(wk.push(jx) =~= hk.push(j));
                if key_lt(wk.push(jx), hk.push(j)) {
                    lemma_key_asym(wk.push(jx), hk.push(j));
                }
            }
        } else {
            lemma_key_push(hk, wk, j, jx);
            lemma_key_asym(hk.push(j), wk.push(jx));
        }
    } else {
        if wk == uk {
            lemma_key_push(hk, wk, j, jx);
        } else {
            lemma_key_trans(hk, uk, wk);
            lemma_key_push(hk, wk, j, jx);
        }
        lemma_key_asym(hk.push(j), wk.push(jx));
    }
}

/// The search path of the head extended to its unreached open `j`-th
/// neighbour is first in key order among the open walks of its length to it.
#[verifier::rlimit(60)]
proof fn lemma_new_path_first(
    gs: GridSize,
    open: Seq<bool>,
    visited: Seq<bool>,
    came_from: Seq<(i32, i32)>,
    dep: Seq<nat>,
    tp: Seq<Seq<Coord>>,
    queue: Seq<(i32, i32)>,
    head: int,
    j: int,
    s: Coord,
    w2: Seq<Coord>,
)
    requires
        queue_covers(gs, visited, queue),
        layered(gs, dep, queue, head, s),
        expanded(gs, open, visited, dep, queue, head),
        tree_paths(gs, open, visited, came_from, dep, tp, s),
        queue_keys(gs, dep, tp, queue, head, j, s),
        0 <= head < queue.len(),
        0 <= j < 6,
        seen(gs, visited, s),
        is_open(gs, open, hex_neighbors(pair_coord(queue[head]))[j]),
        !seen(gs, visited, hex_neighbors(pair_coord(queue[head]))[j]),
        open_walk(gs, open, s, w2),
        walk_end(s, w2) == hex_neighbors(pair_coord(queue[head]))[j],
        w2.len() == depth(gs, dep, pair_coord(queue[head])) + 1,
    ensures
        !key_lt(walk_key(s, w2), tkey(gs, tp, s, pair_coord(queue[head])).push(j)),
{
    let h = pair_coord(queue[head]);
    let v = hex_neighbors(h)[j];
    let n = w2.len() - 1;
    let w = w2.take(n);
    lemma_open_walk_take(gs, open, s, w2, n);
    assert(step_from(s, w2, n) == walk_end(s, w));
    assert(adjacent(walk_end(s, w), v));
    lemma_key_bound(gs, open, visited, came_from, dep, tp, queue, head, j, s, w, v);
    let u = walk_end(s, w);
    assert(w.push(v) =~= w2);
    lemma_walk_key_push(s, w, v);
    lemma_tree_len(gs, open, visited, came_from, dep, tp, s, u);
    reveal(queue_covers);
    assert(seen(gs, visited, h));
    lemma_tree_len(gs, open, visited, came_from, dep, tp, s, h);
    if u == h {
        lemma_nbr_index(h, v, j);
    }
    lemma_step_key_order(tkey(gs, tp, s, h), tkey(gs, tp, s, u), walk_key(s, w), u == h, j, nbr_index(u, v));
}

/// The search path of the head extended to its `j`-th neighbour, an escape
/// position when no earlier neighbour is one, is first in key order among the
/// escape walks of its length.
#[verifier::rlimit(60)]
proof fn lemma_found_path_first(
    gs: GridSize,
    open: Seq<bool>,
    visited: Seq<bool>,
    came_from: Seq<(i32, i32)>,
    dep: Seq<nat>,
    tp: Seq<Seq<Coord>>,
    queue: Seq<(i32, i32)>,
    head: int,
    j: int,
    s: Coord,
    q: Seq<Coord>,
)
    requires
        queue_covers(gs, visited, queue),
        layered(gs, dep, queue, head, s),
        expanded(gs, open, visited, dep, queue, head),
        tree_paths(gs, open, visited, came_from, dep, tp, s),
        queue_keys(gs, dep, tp, queue, head, j, s),
        0 <= head < queue.len(),
        0 <= j < 6,
        seen(gs, visited, s),
        forall|jj: int| 0 <= jj < j ==> !is_escape(gs, #[trigger] hex_neighbors(pair_coord(queue[head]))[jj]),
        escape_walk(gs, open, s, q),
        q.len() == depth(gs, dep, pair_coord(queue[head])) + 1,
    ensures
        !key_lt(walk_key(s, q), tkey(gs, tp, s, pair_coord(queue[head])).push(j)),
{
    let h = pair_coord(queue[head]);
    let n = q.len() - 1;
    let w = q.take(n);
    let x = q.last();
    lemma_escape_walk_split(gs, open, s, q);
    lemma_key_bound(gs, open, visited, came_from, dep, tp, queue, head, j, s, w, x);
    let u = walk_end(s, w);
    assert(w.push(x) =~= q);
    lemma_walk_key_push(s, w, x);
    lemma_tree_len(gs, open, visited, came_from, dep, tp, s, u);
    reveal(queue_covers);
    assert(seen(gs, visited, h));
    lemma_tree_len(gs, open, visited, came_from, dep, tp, s, h);
    if u == h {
        lemma_nbr_index_adjacent(h, x);
        let jx = nbr_index(h, x);
        if jx < j {
            assert(!is_escape(gs, hex_neighbors(h)[jx]));
        }
    }
    lemma_step_key_order(tkey(gs, tp, s, h), tkey(gs, tp, s, u), walk_key(s, w), u == h, j, nbr_index(u, x));
}

/// Moving on to the next neighbour of the head keeps the queue's key order.
proof fn lemma_queue_keys_next(
    gs: GridSize,
    dep: Seq<nat>,
    tp: Seq<Seq<Coord>>,
    queue: Seq<(i32, i32)>,
    head: int,
    j: int,
    s: Coord,
)
    requires
        queue_keys(gs, dep, tp, queue, head, j, s),
        0 <= head < queue.len(),
    ensures
        queue_keys(gs, dep, tp, queue, head, j + 1, s),
{
    reveal(queue_keys);
    let hk = tkey(gs, tp, s, pair_coord(queue[head]));
    lemma_key_push_same(hk, j, j + 1);
    assert forall|q: int|
        0 <= q < queue.len() && depth(gs, dep, pair_coord(#[trigger] queue[q])) == depth(
            gs,
            dep,
            pair_coord(queue[head]),
        ) + 1 implies key_lt(tkey(gs, tp, s, pair_coord(queue[q])), hk.push(j + 1)) by {
        let qk = tkey(gs, tp, s, pair_coord(queue[q]));
        assert(key_lt(qk, hk.push(j)));
        let k = choose|k: int|
            0 <= k < qk.len() && k < hk.push(j).len() && qk[k] < hk.push(j)[k] && forall|i: int|
                0 <= i < k ==> #[trigger] qk[i] == hk.push(j)[i];
        assert forall|i: int| 0 <= i < k implies #[trigger] qk[i] == hk.push(j + 1)[i] by {
            assert(qk[i] == hk.push(j)[i]);
        }
        assert(qk[k] < hk.push(j + 1)[k]);
    }
    assert(queue_keys(gs, dep, tp, queue, head, j + 1, s));
}

/// Moving on to the next tile of the queue keeps the queue's key order.
proof fn lemma_queue_keys_advance(
    gs: GridSize,
    dep: Seq<nat>,
    tp: Seq<Seq<Coord>>,
    queue: Seq<(i32, i32)>,
    head: int,
    s: Coord,
)
    requires
        queue_keys(gs, dep, tp, queue, head, 6, s),
        layered(gs, dep, queue, head, s),
        0 <= head < queue.len(),
        forall|q: int|
            0 <= q < queue.len() ==> (#[trigger] tp[gs.index_of(pair_coord(queue[q]))]).len() == depth(
                gs,
                dep,
                pair_coord(queue[q]),
            ),
    ensures
        queue_keys(gs, dep, tp, queue, head + 1, 0, s),
{
    reveal(queue_keys);
    reveal(layered);
    if head + 1 < queue.len() {
        let h = pair_coord(queue[head]);
        let h2 = pair_coord(queue[head + 1]);
        let hk = tkey(gs, tp, s, h);
        let h2k = tkey(gs, tp, s, h2);
        assert(depth(gs, dep, h) <= depth(gs, dep, h2));
        assert forall|q: int|
            0 <= q < queue.len() && depth(gs, dep, pair_coord(#[trigger] queue[q])) == depth(gs, dep, h2) + 1
                implies key_lt(tkey(gs, tp, s, pair_coord(queue[q])), h2k.push(0)) by {
            let c = pair_coord(queue[q]);
            let qk = tkey(gs, tp, s, c);
            assert(depth(gs, dep, c) <= depth(gs, dep, h) + 1);
            assert(depth(gs, dep, h) == depth(gs, dep, h2));
            assert(key_lt(hk, h2k));
            assert(key_lt(qk, hk.push(6)));
            let d = hk.len() as int;
            assert(tp[gs.index_of(c)].len() == depth(gs, dep, c));
            assert(tp[gs.index_of(h)].len() == depth(gs, dep, h));
            assert(tp[gs.index_of(h2)].len() == depth(gs, dep, h2));
            assert(qk.len() == d + 1);
            let k = choose|k: int|
                0 <= k < qk.len() && k < hk.push(6).len() && qk[k] < hk.push(6)[k] && forall|i: int|
                    0 <= i < k ==> #[trigger] qk[i] == hk.push(6)[i];
            let qt = qk.take(d);
            if k < d {
                assert forall|i: int| 0 <= i < k implies #[trigger] qt[i] == hk[i] by {
                    assert(qk[i] == hk.push(6)[i]);
                }
                assert(key_lt(qt, hk));
                lemma_key_trans(qt, hk, h2k);
            } else {
                assert forall|i: int| 0 <= i < d implies qt[i] == hk[i] by {
                    assert(qk[i] == hk.push(6)[i]);
                }
                assert(qt =~= hk);
            }
            lemma_key_push(qt, h2k, qk[d], 0);
            assert(qt.push(qk[d]) =~= qk);
        }
    }
    assert(queue_keys(gs, dep, tp, queue, head + 1, 0, s));
}

/// Reaching the open tile `nb`, the head's `j`-th neighbour, keeps the search
/// paths.
#[verifier::rlimit(60)]
proof fn lemma_visit_tree(
    gs: GridSize,
    open: Seq<bool>,
    visited: Seq<bool>,
    came_from: Seq<(i32, i32)>,
    dep: Seq<nat>,
    tp: Seq<Seq<Coord>>,
    queue: Seq<(i32, i32)>,
    head: int,
    j: int,
    s: Coord,
    cur: (i32, i32),
    nb: (i32, i32),
)
    requires
        gs.wf(),
        open.len() == gs.cols * gs.rows,
        visited.len() == gs.cols * gs.rows,
        came_from.len() == gs.cols * gs.rows,
        dep.len() == gs.cols * gs.rows,
        tp.len() == gs.cols * gs.rows,
        seen(gs, visited, s),
        0 <= head < queue.len(),
        cur == queue[head],
        0 <= j < 6,
        pair_coord(nb) == hex_neighbors(pair_coord(cur))[j],
        is_open(gs, open, pair_coord(nb)),
        !visited[gs.index_of(pair_coord(nb))],
        queue_covers(gs, visited, queue),
        parent_links(gs, open, visited, came_from, dep, s),
        expanded(gs, open, visited, dep, queue, head),
        layered(gs, dep, queue, head, s),
        tree_paths(gs, open, visited, came_from, dep, tp, s),
        queue_keys(gs, dep, tp, queue, head, j, s),
    ensures
        ({
            let cc = pair_coord(cur);
            let i = gs.index_of(pair_coord(nb));
            let v2 = visited.update(i, true);
            let cf2 = came_from.update(i, cur);
            let dep2 = dep.update(i, depth(gs, dep, cc) + 1);
            let tp2 = tp.update(i, tp[gs.index_of(cc)].push(pair_coord(nb)));
            let q2 = queue.push(nb);
            &&& tree_paths(gs, open, v2, cf2, dep2, tp2, s)
            &&& tp2.len() == tp.len()
        }),
{
    let cc = pair_coord(cur);
    let nc = pair_coord(nb);
    let i = gs.index_of(nc);
    let v2 = visited.update(i, true);
    let cf2 = came_from.update(i, cur);
    let dep2 = dep.update(i, depth(gs, dep, cc) + 1);
    let tp2 = tp.update(i, tp[gs.index_of(cc)].push(nc));
    let q2 = queue.push(nb);
    let ck = tkey(gs, tp, s, cc);
    assert(seen(gs, visited, cc)) by {
        reveal(queue_covers);
    }
    lemma_index_in_range(gs, nc);
    lemma_index_in_range(gs, cc);
    lemma_mark_seen(gs, visited, nc);
    assert(adjacent(cc, nc));
    assert forall|c: Coord| seen(gs, visited, c) implies #[trigger] tp2[gs.index_of(c)] == tp[gs.index_of(c)]
        && dep2[gs.index_of(c)] == dep[gs.index_of(c)] by {
        lemma_index_in_range(gs, c);
    }
    reveal(tree_paths);
    let tc = tp[gs.index_of(cc)];
    assert(open_walk(gs, open, s, tc) && walk_end(s, tc) == cc && tc.len() == depth(gs, dep, cc));
    lemma_open_walk_push(gs, open, s, tc, nc);
    lemma_walk_key_push(s, tc, nc);
    lemma_nbr_index(cc, nc, j);
    assert(walk_key(s, tc.push(nc)) == ck.push(j));
    assert forall|w: Seq<Coord>|
        open_walk(gs, open, s, w) && walk_end(s, w) == nc && w.len() == tc.len() + 1 implies !key_lt(
        #[trigger] walk_key(s, w),
        ck.push(j),
    ) by {
        lemma_new_path_first(gs, open, visited, came_from, dep, tp, queue, head, j, s, w);
    }
    assert forall|c: Coord| #[trigger] seen(gs, v2, c) implies {
        let t = tp2[gs.index_of(c)];
        &&& open_walk(gs, open, s, t)
        &&& walk_end(s, t) == c
        &&& t.len() == depth(gs, dep2, c)
        &&& (c != s ==> t == tp2[gs.index_of(pair_coord(cf2[gs.index_of(c)]))].push(c))
        &&& forall|w: Seq<Coord>|
            open_walk(gs, open, s, w) && walk_end(s, w) == c && w.len() == t.len() ==> !key_lt(
                #[trigger] walk_key(s, w),
                walk_key(s, t),
            )
    } by {
        if c == nc {
            assert(tp2[gs.index_of(c)] == tc.push(nc));
            assert(cf2[gs.index_of(c)] == cur);
            if c != s {
                assert(tp2[gs.index_of(cc)] == tc);
            }
        } else {
            assert(seen(gs, visited, c));
            lemma_index_in_range(gs, c);
            if gs.index_of(c) == i {
                lemma_index_injective(gs, c, nc);
            }
            assert(cf2[gs.index_of(c)] == came_from[gs.index_of(c)]);
            if c != s {
                reveal(parent_links);
                let p = pair_coord(came_from[gs.index_of(c)]);
                assert(seen(gs, visited, p));
            }
        }
    }
    assert(tree_paths(gs, open, v2, cf2, dep2, tp2, s));
}

/// Reaching the open tile `nb`, the head's `j`-th neighbour, keeps the
/// queue's key order.
#[verifier::rlimit(60)]
proof fn lemma_visit_keys(
    gs: GridSize,
    open: Seq<bool>,
    visited: Seq<bool>,
    came_from: Seq<(i32, i32)>,
    dep: Seq<nat>,
    tp: Seq<Seq<Coord>>,
    queue: Seq<(i32, i32)>,
    head: int,
    j: int,
    s: Coord,
    cur: (i32, i32),
    nb: (i32, i32),
)
    requires
        gs.wf(),
        visited.len() == gs.cols * gs.rows,
        dep.len() == gs.cols * gs.rows,
        tp.len() == gs.cols * gs.rows,
        0 <= head < queue.len(),
        cur == queue[head],
        0 <= j < 6,
        pair_coord(nb) == hex_neighbors(pair_coord(cur))[j],
        gs.in_bounds(pair_coord(nb)),
        !visited[gs.index_of(pair_coord(nb))],
        queue_covers(gs, visited, queue),
        layered(gs, dep, queue, head, s),
        tree_paths(gs, open, visited, came_from, dep, tp, s),
        queue_keys(gs, dep, tp, queue, head, j, s),
    ensures
        ({
            let cc = pair_coord(cur);
            let i = gs.index_of(pair_coord(nb));
            let dep2 = dep.update(i, depth(gs, dep, cc) + 1);
            let tp2 = tp.update(i, tp[gs.index_of(cc)].push(pair_coord(nb)));
            queue_keys(gs, dep2, tp2, queue.push(nb), head, j + 1, s)
        }),
{
    let cc = pair_coord(cur);
    let nc = pair_coord(nb);
    let i = gs.index_of(nc);
    let dep2 = dep.update(i, depth(gs, dep, cc) + 1);
    let tp2 = tp.update(i, tp[gs.index_of(cc)].push(nc));
    let q2 = queue.push(nb);
    let ck = tkey(gs, tp, s, cc);
    reveal(queue_covers);
    assert(seen(gs, visited, cc));
    lemma_index_in_range(gs, nc);
    lemma_index_in_range(gs, cc);
    assert(forall|q: int| 0 <= q < queue.len() ==> seen(gs, visited, pair_coord(#[trigger] queue[q])));
    assert forall|c: Coord| seen(gs, visited, c) implies #[trigger] tp2[gs.index_of(c)] == tp[gs.index_of(c)] by {
        lemma_index_in_range(gs, c);
    }
    assert forall|c: Coord| seen(gs, visited, c) implies #[trigger] dep2[gs.index_of(c)] == dep[gs.index_of(c)] by {
        lemma_index_in_range(gs, c);
    }
    let tc = tp[gs.index_of(cc)];
    assert(walk_end(s, tc) == cc) by {
        reveal(tree_paths);
    }
    lemma_walk_key_push(s, tc, nc);
    lemma_nbr_index(cc, nc, j);
    assert(tkey(gs, tp2, s, nc) == ck.push(j));
    reveal(queue_keys);
    reveal(layered);
    assert forall|qa: int, qb: int| 0 <= qa < qb < q2.len() implies {
        let c1 = pair_coord(#[trigger] q2[qa]);
        let c2 = pair_coord(#[trigger] q2[qb]);
        depth(gs, dep2, c1) < depth(gs, dep2, c2) || (depth(gs, dep2, c1) == depth(gs, dep2, c2) && key_lt(
            tkey(gs, tp2, s, c1),
            tkey(gs, tp2, s, c2),
        ))
    } by {
        assert(q2[qa] == queue[qa]);
        let c1 = pair_coord(queue[qa]);
        assert(seen(gs, visited, c1));
        if qb < queue.len() {
            assert(q2[qb] == queue[qb]);
            assert(seen(gs, visited, pair_coord(queue[qb])));
        } else {
            assert(depth(gs, dep, c1) <= depth(gs, dep, cc) + 1);
        }
    }
    assert(q2[head] == cur);
    lemma_key_push_same(ck, j, j + 1);
    assert forall|q: int|
        0 <= q < q2.len() && depth(gs, dep2, pair_coord(#[trigger] q2[q])) == depth(gs, dep2, cc) + 1
            implies key_lt(tkey(gs, tp2, s, pair_coord(q2[q])), ck.push(j + 1)) by {
        if q < queue.len() {
            assert(q2[q] == queue[q]);
            let c = pair_coord(queue[q]);
            assert(seen(gs, visited, c));
            assert(key_lt(tkey(gs, tp, s, c), ck.push(j)));
            lemma_tree_len(gs, open, visited, came_from, dep, tp, s, c);
            lemma_tree_len(gs, open, visited, came_from, dep, tp, s, cc);
            lemma_key_trans(tkey(gs, tp, s, c), ck.push(j), ck.push(j + 1));
        }
    }
    assert(tkey(gs, tp2, s, cc) == ck);
    assert(queue_keys(gs, dep2, tp2, q2, head, j + 1, s));
}

/// The back link of a reached tile other than the start leads to a reached
/// tile one step shallower, whose search path is one step shorter.
proof fn lemma_parent_step(
    gs: GridSize,
    open: Seq<bool>,
    visited: Seq<bool>,
    came_from: Seq<(i32, i32)>,
    dep: Seq<nat>,
    tp: Seq<Seq<Coord>>,
    s: Coord,
    c: Coord,
)
    requires
        parent_links(gs, open, visited, came_from, dep, s),
        tree_paths(gs, open, visited, came_from, dep, tp, s),
        seen(gs, visited, c),
        c != s,
    ensures
        ({
            let p = pair_coord(came_from[gs.index_of(c)]);
            &&& seen(gs, visited, p)
            &&& depth(gs, dep, c) == depth(gs, dep, p) + 1
            &&& tp[gs.index_of(c)] == tp[gs.index_of(p)].push(c)
        }),
{
    reveal(parent_links);
    reveal(tree_paths);
}

/// Follows the search's back links from `last` to the start and returns the
/// search path of `last` followed by `escape`.
#[verifier::rlimit(60)]
fn trace_path(
    gs: &GridSize,
    open: &Vec<bool>,
    visited: &Vec<bool>,
    came_from: &Vec<(i32, i32)>,
    start: (i32, i32),
    last: (i32, i32),
    escape: (i32, i32),
    Ghost(dep): Ghost<Seq<nat>>,
    Ghost(tp): Ghost<Seq<Seq<Coord>>>,
) -> (r: Vec<(i32, i32)>)
    requires
        gs.wf(),
        open.len() == gs.cols * gs.rows,
        visited.len() == gs.cols * gs.rows,
        came_from.len() == gs.cols * gs.rows,
        dep.len() == gs.cols * gs.rows,
        tp.len() == gs.cols * gs.rows,
        seen(*gs, visited@, pair_coord(start)),
        seen(*gs, visited@, pair_coord(last)),
        depth(*gs, dep, pair_coord(start)) == 0,
        parent_links(*gs, open@, visited@, came_from@, dep, pair_coord(start)),
        tree_paths(*gs, open@, visited@, came_from@, dep, tp, pair_coord(start)),
    ensures
        coords_of(r@) == tp[gs.index_of(pair_coord(last))].push(pair_coord(escape)),
{
    let ghost s = pair_coord(start);
    let ghost target = tp[gs.index_of(pair_coord(last))].push(pair_coord(escape));
    proof {
        reveal(tree_paths);
        assert(tp[gs.index_of(pair_coord(last))] =~= target.take(target.len() - 1));
    }
    let mut rev: Vec<(i32, i32)> = Vec::new();
    rev.push(escape);
    let mut c = last;
    while c.0 != start.0 || c.1 != start.1
        invariant
            gs.wf(),
            visited.len() == gs.cols * gs.rows,
            came_from.len() == gs.cols * gs.rows,
            dep.len() == gs.cols * gs.rows,
            tp.len() == gs.cols * gs.rows,
            s == pair_coord(start),
            parent_links(*gs, open@, visited@, came_from@, dep, s),
            tree_paths(*gs, open@, visited@, came_from@, dep, tp, s),
            depth(*gs, dep, s) == 0,
            seen(*gs, visited@, pair_coord(c)),
            tp[gs.index_of(pair_coord(c))].len() + rev.len() == target.len(),
            tp[gs.index_of(pair_coord(c))] == target.take(tp[gs.index_of(pair_coord(c))].len() as int),
            forall|i: int|
                0 <= i < rev.len() ==> #[trigger] pair_coord(rev@[i]) == target[target.len() - 1 - i],
        decreases dep[gs.index_of(pair_coord(c))],
    {
        let ghost cc = pair_coord(c);
        proof {
            lemma_parent_step(*gs, open@, visited@, came_from@, dep, tp, s, cc);
            let p = pair_coord(came_from@[gs.index_of(cc)]);
            let tc = tp[gs.index_of(cc)];
            assert(target[tc.len() - 1] == tc[tc.len() - 1]);
            assert(tp[gs.index_of(p)] =~= target.take(tc.len() - 1));
            lemma_index_in_range(*gs, cc);
        }
        let ghost old_rev = rev@;
        rev.push(c);
        proof {
            assert forall|i: int| 0 <= i < rev.len() implies #[trigger] pair_coord(rev@[i]) == target[target.len()
                - 1 - i] by {
                if i < old_rev.len() {
                    assert(rev@[i] == old_rev[i]);
                }
            }
        }
        let ci = GridTilePos::new(c.0, c.1).to_index(gs);
        c = came_from[ci];
    }
    proof {
        lemma_tree_len(*gs, open@, visited@, came_from@, dep, tp, s, s);
    }
    let mut path: Vec<(i32, i32)> = Vec::new();
    let mut k: usize = rev.len();
    while k > 0
        invariant
            k <= rev.len(),
            path.len() == rev.len() - k,
            forall|i: int| 0 <= i < path.len() ==> #[trigger] path@[i] == rev@[rev.len() - 1 - i],
        decreases k,
    {
        k -= 1;
        path.push(rev[k]);
    }
    proof {
        let m = rev.len() as int;
        assert(m == target.len());
        assert forall|i: int| 0 <= i < m implies #[trigger] coords_of(path@)[i] == target[i] by {
            assert(path@[i] == rev@[m - 1 - i]);
            assert(pair_coord(rev@[m - 1 - i]) == target[m - 1 - (m - 1 - i)]);
        }
        assert(coords_of(path@) =~= target);
    }
    path
}

/// Breadth-first search from the piece to the nearest escape position over the
/// open tiles (`open_tiles`, indexed row-major, is true for tiles that are not
/// trapped). An escape position next to the piece is taken at once (the first
/// in neighbour order); otherwise the walk found is a shortest way out, the
/// first of those in neighbour order step by step, and `NotFound` comes
/// exactly when no walk through open tiles leads out.
#[verifier::rlimit(60)]
pub fn pathfind(rustacean_pos: &RustaceanPos, grid_size: &GridSize, open_tiles: &Vec<bool>) -> (r: Path)
    requires
        grid_size.wf(),
        grid_size.in_bounds(rustacean_pos@),
        open_tiles.len() == grid_size.cols * grid_size.rows,
    ensures
        pathfind_post(*grid_size, open_tiles@, rustacean_pos@, r),
{
    let gs = *grid_size;
    let ghost s = rustacean_pos@;
    proof { lemma_dims_below_max(gs); }
    let start: (i32, i32) = (rustacean_pos.x, rustacean_pos.y);
    let start_neighbors = rustacean_pos.get_neighbor_pos();
    let mut i: usize = 0;
    while i < 6
        invariant
            gs == *grid_size,
            gs.wf(),
            gs.in_bounds(s),
            s == rustacean_pos@,
            gs.cols < i32::MAX,
            gs.rows < i32::MAX,
            0 <= i <= 6,
            neighbors_match(start_neighbors@, s),
            forall|j: int| 0 <= j < i ==> !is_escape(gs, #[trigger] hex_neighbors(s)[j]),
        decreases 6 - i,
    {
        let nb = start_neighbors[i];
        proof { lemma_adjacent_close(s, hex_neighbors(s)[i as int]); }
        if is_escape_target(nb, &gs) {
            proof {
                assert(pair_coord(nb) == hex_neighbors(s)[i as int]);
                assert(0 <= i < 6 && hex_neighbors(s)[i as int] == (nb.0 as int, nb.1 as int)
                    && is_escape(gs, (nb.0 as int, nb.1 as int)) && forall|j: int|
                    0 <= j < i ==> !is_escape(gs, #[trigger] hex_neighbors(s)[j]));
            }
            return Path::Escaped(nb.0, nb.1);
        }
        i += 1;
    }
    let n = gs.count();
    let mut visited: Vec<bool> = Vec::new();
    let mut came_from: Vec<(i32, i32)> = Vec::new();
    let mut k: usize = 0;
    while k < n
        invariant
            k <= n,
            visited.len() == k,
            came_from.len() == k,
            forall|j: int| 0 <= j < k ==> !visited@[j],
        decreases n - k,
    {
        visited.push(false);
        came_from.push(start);
        k += 1;
    }
    proof { lemma_index_in_range(gs, s); }
    let si = GridTilePos::new(start.0, start.1).to_index(&gs);
    let ghost v0 = visited@;
    visited.set(si, true);
    let ghost dep: Seq<nat> = Seq::new(n as nat, |j: int| 0nat);
    let ghost mut idxs: Set<int> = set![si as int];
    let ghost mut tp: Seq<Seq<Coord>> = Seq::new(n as nat, |j: int| Seq::<Coord>::empty());
    proof {
        lemma_mark_seen(gs, v0, s);
        assert forall|c: Coord| #[trigger] seen(gs, visited@, c) implies c == s by {
            lemma_index_in_range(gs, c);
            if c != s {
                assert(seen(gs, v0, c));
            }
        }
        assert(idxs.len() == 1) by {
            assert(idxs =~= Set::empty().insert(si as int));
        }
    }
    let mut queue: Vec<(i32, i32)> = Vec::new();
    queue.push(start);
    let mut head: usize = 0;
    proof {
        reveal(queue_covers);
        reveal(parent_links);
        reveal(expanded);
        reveal(layered);
        reveal(counted);
        assert(pair_coord(queue@[0]) == s);
        assert(queue_covers(gs, visited@, queue@));
        assert(parent_links(gs, open_tiles@, visited@, came_from@, dep, s));
        assert(expanded(gs, open_tiles@, visited@, dep, queue@, 0));
        lemma_index_in_range(gs, s);
        assert(layered(gs, dep, queue@, 0, s));
        reveal(tree_paths);
        reveal(queue_keys);
        assert forall|c: Coord| #[trigger] seen(gs, visited@, c) implies {
            let t = tp[gs.index_of(c)];
            &&& open_walk(gs, open_tiles@, s, t)
            &&& walk_end(s, t) == c
            &&& t.len() == depth(gs, dep, c)
            &&& (c != s ==> t == tp[gs.index_of(pair_coord(came_from@[gs.index_of(c)]))].push(c))
            &&& forall|w: Seq<Coord>|
                open_walk(gs, open_tiles@, s, w) && walk_end(s, w) == c && w.len() == t.len() ==> !key_lt(
                    #[trigger] walk_key(s, w),
                    walk_key(s, t),
                )
        } by {
            lemma_index_in_range(gs, c);
            assert(c == s);
        }
        assert(tree_paths(gs, open_tiles@, visited@, came_from@, dep, tp, s));
        assert(queue_keys(gs, dep, tp, queue@, 0, 0, s));
        assert(counted(idxs, visited@, n as int, queue.len() as int)) by {
            assert forall|j: int| idxs.contains(j) <==> 0 <= j < n && visited@[j] by {
                if 0 <= j < n && visited@[j] && j != si {
                    assert(visited@[j] == v0[j]);
                }
            }
        }
    }
    while head < queue.len()
        invariant
            gs == *grid_size,
            gs.wf(),
            gs.cols < i32::MAX,
            gs.rows < i32::MAX,
            n == gs.cols * gs.rows,
            open_tiles.len() == n,
            visited.len() == n,
            came_from.len() == n,
            dep.len() == n,
            gs.in_bounds(s),
            s == pair_coord(start),
            s == rustacean_pos@,
            !has_escape_neighbor(gs, s),
            seen(gs, visited@, s),
            head <= queue.len(),
            queue_covers(gs, visited@, queue@),
            parent_links(gs, open_tiles@, visited@, came_from@, dep, s),
            expanded(gs, open_tiles@, visited@, dep, queue@, head as int),
            layered(gs, dep, queue@, head as int, s),
            tp.len() == n,
            tree_paths(gs, open_tiles@, visited@, came_from@, dep, tp, s),
            queue_keys(gs, dep, tp, queue@, head as int, 0, s),
            counted(idxs, visited@, n as int, queue.len() as int),
        decreases n - head,
    {
        proof {
            reveal(counted);
            lemma_int_range(0, n as int);
            assert(idxs.subset_of(set_int_range(0, n as int)));
            lemma_len_subset(idxs, set_int_range(0, n as int));
        }
        let cur = queue[head];
        let ghost cc = pair_coord(cur);
        proof {
            reveal(queue_covers);
            assert(seen(gs, visited@, pair_coord(queue@[head as int])));
        }
        let ns = get_hex_horizontal_neighbor_pos(cur.0, cur.1);
        let mut j: usize = 0;
        while j < 6
            invariant
                gs == *grid_size,
                gs.wf(),
                gs.cols < i32::MAX,
                gs.rows < i32::MAX,
                n == gs.cols * gs.rows,
                open_tiles.len() == n,
                visited.len() == n,
                came_from.len() == n,
                dep.len() == n,
                gs.in_bounds(s),
                s == pair_coord(start),
                s == rustacean_pos@,
                !has_escape_neighbor(gs, s),
                seen(gs, visited@, s),
                head < queue.len(),
                cur == queue@[head as int],
                cc == pair_coord(cur),
                seen(gs, visited@, cc),
                neighbors_match(ns@, cc),
                0 <= j <= 6,
                queue_covers(gs, visited@, queue@),
                parent_links(gs, open_tiles@, visited@, came_from@, dep, s),
                expanded(gs, open_tiles@, visited@, dep, queue@, head as int),
                layered(gs, dep, queue@, head as int, s),
                tp.len() == n,
                tree_paths(gs, open_tiles@, visited@, came_from@, dep, tp, s),
                queue_keys(gs, dep, tp, queue@, head as int, j as int, s),
                forall|jj: int|
                    0 <= jj < j ==> !is_escape(gs, #[trigger] hex_neighbors(cc)[jj]) && (is_open(
                        gs,
                        open_tiles@,
                        hex_neighbors(cc)[jj],
                    ) ==> seen(gs, visited@, hex_neighbors(cc)[jj]) && depth(gs, dep, hex_neighbors(cc)[jj])
                        <= depth(gs, dep, cc) + 1),
                counted(idxs, visited@, n as int, queue.len() as int),
            decreases 6 - j,
        {
            let nb = ns[j];
            let ghost nc = hex_neighbors(cc)[j as int];
            proof {
                assert(pair_coord(nb) == nc);
                assert(adjacent(cc, nc));
                lemma_adjacent_close(cc, nc);
            }
            if is_escape_target(nb, &gs) {
                proof { reveal(layered); }
                let path = trace_path(
                    &gs,
                    open_tiles,
                    &visited,
                    &came_from,
                    start,
                    cur,
                    nb,
                    Ghost(dep),
                    Ghost(tp),
                );
                proof {
                    lemma_shallow_closed(gs, open_tiles@, visited@, dep, queue@, head as int, s);
                    reveal(tree_paths);
                    let tc = tp[gs.index_of(cc)];
                    let target = tc.push(nc);
                    assert(open_walk(gs, open_tiles@, s, tc) && walk_end(s, tc) == cc && tc.len() == depth(
                        gs,
                        dep,
                        cc,
                    ));
                    assert(target.take(target.len() - 1) =~= tc);
                    lemma_escape_walk_split(gs, open_tiles@, s, target);
                    assert(escape_walk(gs, open_tiles@, s, coords_of(path@)));
                    lemma_walk_key_push(s, tc, nc);
                    lemma_nbr_index(cc, nc, j as int);
                    assert(walk_key(s, coords_of(path@)) == tkey(gs, tp, s, cc).push(j as int));
                    assert forall|q: Seq<Coord>| #[trigger] escape_walk(gs, open_tiles@, s, q) implies path.len()
                        <= q.len() by {
                        lemma_no_shorter_walk(gs, open_tiles@, visited@, dep, s, depth(gs, dep, cc), q);
                    }
                    assert forall|q: Seq<Coord>|
                        #[trigger] escape_walk(gs, open_tiles@, s, q) && q.len() == path.len() implies !key_lt(
                        walk_key(s, q),
                        walk_key(s, coords_of(path@)),
                    ) by {
                        lemma_found_path_first(
                            gs,
                            open_tiles@,
                            visited@,
                            came_from@,
                            dep,
                            tp,
                            queue@,
                            head as int,
                            j as int,
                            s,
                            q,
                        );
                    }
                }
                return Path::Found(path);
            }
            let mut reached_new = false;
            if in_bounds(nb, &gs) {
                proof { lemma_index_in_range(gs, nc); }
                let ni = GridTilePos::new(nb.0, nb.1).to_index(&gs);
                if open_tiles[ni] {
                    if !visited[ni] {
                        let ghost v_old = visited@;
                        proof {
                            lemma_index_in_range(gs, cc);
                            lemma_visit_tree(
                                gs,
                                open_tiles@,
                                visited@,
                                came_from@,
                                dep,
                                tp,
                                queue@,
                                head as int,
                                j as int,
                                s,
                                cur,
                                nb,
                            );
                            lemma_visit_keys(
                                gs,
                                open_tiles@,
                                visited@,
                                came_from@,
                                dep,
                                tp,
                                queue@,
                                head as int,
                                j as int,
                                s,
                                cur,
                                nb,
                            );
                            lemma_visit(
                                gs,
                                open_tiles@,
                                visited@,
                                came_from@,
                                dep,
                                queue@,
                                head as int,
                                idxs,
                                s,
                                cur,
                                nb,
                            );
                            tp = tp.update(ni as int, tp[gs.index_of(cc)].push(nc));
                            dep = dep.update(ni as int, depth(gs, dep, cc) + 1);
                            idxs = idxs.insert(ni as int);
                        }
                        visited.set(ni, true);
                        came_from.set(ni, cur);
                        queue.push(nb);
                        reached_new = true;
                        proof {
                            assert forall|jj: int|
                                0 <= jj < j && #[trigger] is_open(gs, open_tiles@, hex_neighbors(cc)[jj])
                                implies seen(gs, visited@, hex_neighbors(cc)[jj]) && depth(
                                gs,
                                dep,
                                hex_neighbors(cc)[jj],
                            ) <= depth(gs, dep, cc) + 1 by {
                                assert(seen(gs, v_old, hex_neighbors(cc)[jj]));
                            }
                            assert(seen(gs, v_old, s));
                            assert(seen(gs, v_old, cc));
                            assert(queue@[head as int] == cur);
                        }
                    } else {
                        proof {
                            lemma_seen_depth_bound(gs, visited@, dep, queue@, head as int, s, nc);
                        }
                    }
                }
            }
            proof {
                if !reached_new {
                    lemma_queue_keys_next(gs, dep, tp, queue@, head as int, j as int, s);
                }
            }
            j += 1;
        }
        proof {
            reveal(tree_paths);
            reveal(queue_covers);
            assert forall|q: int| 0 <= q < queue.len() implies (#[trigger] tp[gs.index_of(
                pair_coord(queue@[q]),
            )]).len() == depth(gs, dep, pair_coord(queue@[q])) by {
                assert(seen(gs, visited@, pair_coord(queue@[q])));
            }
            lemma_queue_keys_advance(gs, dep, tp, queue@, head as int, s);
        }
        proof {
            reveal(expanded);
            reveal(layered);
            assert(closed_at(gs, open_tiles@, visited@, dep, cc));
            assert forall|q: int| 0 <= q < head + 1 implies closed_at(
                gs,
                open_tiles@,
                visited@,
                dep,
                pair_coord(#[trigger] queue@[q]),
            ) by {
            }
            if head + 1 < queue.len() {
                assert forall|q: int| 0 <= q < queue.len() implies depth(
                    gs,
                    dep,
                    pair_coord(#[trigger] queue@[q]),
                ) <= depth(gs, dep, pair_coord(queue@[head + 1])) + 1 by {
                    assert(depth(gs, dep, pair_coord(queue@[head as int]))
                        <= depth(gs, dep, pair_coord(queue@[head + 1])));
                }
            }
            assert(expanded(gs, open_tiles@, visited@, dep, queue@, head + 1));
            assert(layered(gs, dep, queue@, head + 1, s));
        }
        head += 1;
    }
    proof {
        reveal(queue_covers);
        reveal(expanded);
        reveal(layered);
        assert forall|c: Coord| seen(gs, visited@, c) implies #[trigger] closed_at(
            gs,
            open_tiles@,
            visited@,
            dep,
            c,
        ) by {
            let q0 = choose|q: int| 0 <= q < queue.len() && pair_coord(queue@[q]) == c;
            assert(closed_at(gs, open_tiles@, visited@, dep, pair_coord(queue@[q0])));
        }
        assert forall|p: Seq<Coord>| !#[trigger] escape_walk(gs, open_tiles@, s, p) by {
            lemma_closed_region_no_walk(gs, open_tiles@, visited@, dep, s, p);
        }
    }
    Path::NotFound
}

/// The open-tile map of a grid whose trap flags are `trapped`.
pub open spec fn open_of(trapped: Seq<bool>) -> Seq<bool> {
    Seq::new(trapped.len(), |i: int| !trapped[i])
}

/// One of the six neighbours of `c` is an open tile.
pub open spec fn has_open_neighbor(gs: GridSize, open: Seq<bool>, c: Coord) -> bool {
    exists|i: int| 0 <= i < 6 && is_open(gs, open, #[trigger] hex_neighbors(c)[i])
}

/// `e` is the first neighbour of `c`, in the fixed order, that is an open tile.
pub open spec fn first_open_neighbor(gs: GridSize, open: Seq<bool>, c: Coord, e: Coord) -> bool {
    exists|i: int|
        0 <= i < 6 && hex_neighbors(c)[i] == e && is_open(gs, open, e) && forall|j: int|
            0 <= j < i ==> !is_open(gs, open, #[trigger] hex_neighbors(c)[j])
}

/// The piece's turn from `old` to `new`, given the search result `r`: it
/// escapes and the level is lost; it steps along the walk found; with no way
/// out it steps to its first open neighbour, or, having none, is trapped and
/// the level is won.
pub open spec fn rustacean_move_post(old: GameSession, new: GameSession, r: Path) -> bool {
    let gs = old.grid_size;
    let open = open_of(old.trapped@);
    let c = old.rustacean@;
    &&& pathfind_post(gs, open, c, r)
    &&& new.grid_size == old.grid_size
    &&& new.trapped == old.trapped
    &&& new.current_level == old.current_level
    &&& new.level_taps == old.level_taps
    &&& match r {
        Path::Escaped(x, y) => {
            &&& new.rustacean@ == (x as int, y as int)
            &&& new.level_state == LevelState::LevelLose
            &&& new.turn_state == old.turn_state
            &&& new.stats == (TotalGameStats {
                tigers_escaped: (old.stats.tigers_escaped + 1) as u64,
                ..old.stats
            })
            &&& new.level_end_timer.elapsed_ms == 0
        },
        Path::Found(p) => {
            &&& new.rustacean@ == coords_of(p@)[0]
            &&& new.level_state == old.level_state
            &&& new.turn_state == TurnState::PlayerTurn
            &&& new.stats == old.stats
            &&& new.level_end_timer == old.level_end_timer
        },
        Path::NotFound => if has_open_neighbor(gs, open, c) {
            &&& first_open_neighbor(gs, open, c, new.rustacean@)
            &&& new.level_state == old.level_state
            &&& new.turn_state == TurnState::PlayerTurn
            &&& new.stats == old.stats
            &&& new.level_end_timer == old.level_end_timer
        } else {
            &&& new.rustacean == old.rustacean
            &&& new.level_state == LevelState::LevelWin
            &&& new.turn_state == old.turn_state
            &&& new.stats == (TotalGameStats {
                tigers_trapped: (old.stats.tigers_trapped + 1) as u64,
                ..old.stats
            })
            &&& new.level_end_timer.elapsed_ms == 0
        },
    }
}

/// The open-tile map of the trap flags.
fn open_tiles_of(trapped: &Vec<bool>) -> (r: Vec<bool>)
    ensures
        r@ == open_of(trapped@),
{
    let mut open: Vec<bool> = Vec::new();
    let mut i: usize = 0;
    while i < trapped.len()
        invariant
            i <= trapped.len(),
            open.len() == i,
            forall|j: int| 0 <= j < i ==> #[trigger] open@[j] == !trapped@[j],
        decreases trapped.len() - i,
    {
        open.push(!trapped[i]);
        i += 1;
    }
    assert(open@ =~= open_of(trapped@));
    open
}

/// The first neighbour of the piece, in the fixed order, that is an open tile.
fn first_open_step(rustacean_pos: &RustaceanPos, grid_size: &GridSize, open_tiles: &Vec<bool>) -> (r: Option<(i32, i32)>)
    requires
        grid_size.wf(),
        grid_size.in_bounds(rustacean_pos@),
        open_tiles.len() == grid_size.cols * grid_size.rows,
    ensures
        r matches Some(e) ==> first_open_neighbor(*grid_size, open_tiles@, rustacean_pos@, pair_coord(e)),
        r is None ==> !has_open_neighbor(*grid_size, open_tiles@, rustacean_pos@),
{
    let gs = *grid_size;
    let ghost c = rustacean_pos@;
    proof { lemma_dims_below_max(gs); }
    let ns = rustacean_pos.get_neighbor_pos();
    let mut j: usize = 0;
    while j < 6
        invariant
            0 <= j <= 6,
            gs == *grid_size,
            gs.wf(),
            c == rustacean_pos@,
            open_tiles.len() == gs.cols * gs.rows,
            neighbors_match(ns@, c),
            forall|jj: int| 0 <= jj < j ==> !is_open(gs, open_tiles@, #[trigger] hex_neighbors(c)[jj]),
        decreases 6 - j,
    {
        let nb = ns[j];
        let ghost nc = hex_neighbors(c)[j as int];
        proof { assert(pair_coord(nb) == nc); }
        if in_bounds(nb, &gs) {
            proof { lemma_index_in_range(gs, nc); }
            let ni = GridTilePos::new(nb.0, nb.1).to_index(&gs);
            if open_tiles[ni] {
                proof {
                    assert(0 <= j < 6 && hex_neighbors(c)[j as int] == nc && is_open(gs, open_tiles@, nc)
                        && forall|jj: int|
                        0 <= jj < j ==> !is_open(gs, open_tiles@, #[trigger] hex_neighbors(c)[jj]));
                }
                return Some(nb);
            }
        }
        j += 1;
    }
    None
}

/// The first step of a walk found from a tile with no escape neighbour is an
/// open tile.
proof fn lemma_found_step_open(gs: GridSize, open: Seq<bool>, c: Coord, w: Seq<Coord>)
    requires
        !has_escape_neighbor(gs, c),
        escape_walk(gs, open, c, w),
    ensures
        is_open(gs, open, w[0]),
{
    if w.len() == 1 {
        let j = choose|j: int| 0 <= j < hex_neighbors(c).len() && hex_neighbors(c)[j] == w[0];
        assert(is_escape(gs, hex_neighbors(c)[j]));
    }
}

/// The piece's turn: searches for the way out over the untrapped tiles and
/// moves the piece by one step, or out of the grid, as `rustacean_move_post`
/// states; a level that ends starts the level-end timer.
pub fn pathfind_and_move(session: &mut GameSession) -> (r: Path)
    requires
        old(session).wf(),
        old(session).level_state == LevelState::InLevel,
        old(session).stats.tigers_trapped < u64::MAX,
        old(session).stats.tigers_escaped < u64::MAX,
    ensures
        rustacean_move_post(*old(session), *final(session), r),
        final(session).wf(),
{
    let ghost old_s = *session;
    let gs = session.grid_size;
    let open_tiles = open_tiles_of(&session.trapped);
    let path = pathfind(&session.rustacean, &gs, &open_tiles);
    match &path {
        Path::Found(p) => {
            proof {
                lemma_found_step_open(gs, open_tiles@, old_s.rustacean@, coords_of(p@));
                assert(pair_coord(p@[0]) == coords_of(p@)[0]);
            }
            let step = p[0];
            session.rustacean = RustaceanPos::new(step.0, step.1);
            set_player_turn(session);
            proof { lemma_index_in_range(gs, session.rustacean@); }
        },
        Path::NotFound => {
            match first_open_step(&session.rustacean, &gs, &open_tiles) {
                Some(step) => {
                    session.rustacean = RustaceanPos::new(step.0, step.1);
                    set_player_turn(session);
                    proof { lemma_index_in_range(gs, session.rustacean@); }
                },
                None => {
                    session.stats.tigers_trapped += 1;
                    session.level_state = LevelState::LevelWin;
                    run_levelend_timer(session);
                },
            }
        },
        Path::Escaped(x, y) => {
            session.rustacean = RustaceanPos::new(*x, *y);
            session.stats.tigers_escaped += 1;
            session.level_state = LevelState::LevelLose;
            run_levelend_timer(session);
        },
    }
    path
}

/// A grid of at least two columns and two rows has escape positions, and
/// every one of them lies outside the grid.
pub proof fn lemma_escape_targets_nonempty_outside(gs: GridSize)
    requires
        gs.wf(),
        gs.cols >= 2,
        gs.rows >= 2,
    ensures
        exists|c: Coord| is_escape(gs, c),
        forall|c: Coord| is_escape(gs, c) ==> !gs.in_bounds(c),
{
    let t: Coord = (0, 0);
    assert(hex_neighbors(t)[1] == (0int, -1int));
    assert(gs.in_bounds(t) && gs.is_border(t) && adjacent(t, (0int, -1int)));
    assert(is_escape(gs, (0int, -1int)));
}

/// Two searches on the same grid, open tiles and start give the same result.
pub proof fn lemma_pathfind_outcome_determined(
    gs: GridSize,
    open: Seq<bool>,
    start: Coord,
    r1: Path,
    r2: Path,
)
    requires
        pathfind_post(gs, open, start, r1),
        pathfind_post(gs, open, start, r2),
    ensures
        r1 is Escaped <==> r2 is Escaped,
        r1 is Found <==> r2 is Found,
        r1 is NotFound <==> r2 is NotFound,
        r1 is Escaped ==> r1 == r2,
        r1 is Found ==> r1->Found_0@ == r2->Found_0@,
{
    if r1 is Escaped && r2 is Escaped {
        let (x1, y1) = (r1->Escaped_0, r1->Escaped_1);
        let (x2, y2) = (r2->Escaped_0, r2->Escaped_1);
        let i1 = choose|i: int|
            0 <= i < 6 && hex_neighbors(start)[i] == (x1 as int, y1 as int) && is_escape(gs, (x1 as int, y1 as int))
                && forall|j: int| 0 <= j < i ==> !is_escape(gs, #[trigger] hex_neighbors(start)[j]);
        let i2 = choose|i: int|
            0 <= i < 6 && hex_neighbors(start)[i] == (x2 as int, y2 as int) && is_escape(gs, (x2 as int, y2 as int))
                && forall|j: int| 0 <= j < i ==> !is_escape(gs, #[trigger] hex_neighbors(start)[j]);
        assert(i1 == i2) by {
            if i1 < i2 {
                assert(!is_escape(gs, hex_neighbors(start)[i1]));
            } else if i2 < i1 {
                assert(!is_escape(gs, hex_neighbors(start)[i2]));
            }
        }
    }
    if r1 is Escaped && !(r2 is Escaped) {
        let i1 = choose|i: int|
            0 <= i < 6 && hex_neighbors(start)[i] == (r1->Escaped_0 as int, r1->Escaped_1 as int) && is_escape(
                gs,
                (r1->Escaped_0 as int, r1->Escaped_1 as int),
            ) && forall|j: int| 0 <= j < i ==> !is_escape(gs, #[trigger] hex_neighbors(start)[j]);
        assert(is_escape(gs, hex_neighbors(start)[i1]));
    }
    if r2 is Escaped && !(r1 is Escaped) {
        let i2 = choose|i: int|
            0 <= i < 6 && hex_neighbors(start)[i] == (r2->Escaped_0 as int, r2->Escaped_1 as int) && is_escape(
                gs,
                (r2->Escaped_0 as int, r2->Escaped_1 as int),
            ) && forall|j: int| 0 <= j < i ==> !is_escape(gs, #[trigger] hex_neighbors(start)[j]);
        assert(is_escape(gs, hex_neighbors(start)[i2]));
    }
    if r1 is Found && r2 is Found {
        let v1 = r1->Found_0@;
        let v2 = r2->Found_0@;
        let p1 = coords_of(v1);
        let p2 = coords_of(v2);
        assert(v1.len() <= p2.len());
        assert(v2.len() <= p1.len());
        lemma_key_trichotomy(walk_key(start, p1), walk_key(start, p2));
        assert forall|i: int| 0 <= i < p1.len() implies adjacent(step_from(start, p1, i), #[trigger] p1[i]) by {
            if i > 0 {
                assert(adjacent(p1[i - 1], p1[i]));
            }
        }
        assert forall|i: int| 0 <= i < p2.len() implies adjacent(step_from(start, p2, i), #[trigger] p2[i]) by {
            if i > 0 {
                assert(adjacent(p2[i - 1], p2[i]));
            }
        }
        lemma_same_key_same_walk(start, p1, p2);
        assert forall|i: int| 0 <= i < v1.len() implies v1[i] == v2[i] by {
            assert(p1[i] == p2[i]);
        }
        assert(v1 =~= v2);
    }
    if r1 is Found && r2 is NotFound {
        assert(!escape_walk(gs, open, start, coords_of(r1->Found_0@)));
    }
    if r2 is Found && r1 is NotFound {
        assert(!escape_walk(gs, open, start, coords_of(r2->Found_0@)));
    }
}

/// On a grid with no trapped tile, a search from any tile of the grid finds
/// the way out: straight down its column.
pub proof fn lemma_open_grid_has_way_out(gs: GridSize, open: Seq<bool>, start: Coord, r: Path)
    requires
        gs.wf(),
        gs.in_bounds(start),
        open.len() == gs.cols * gs.rows,
        forall|i: int| 0 <= i < open.len() ==> #[trigger] open[i],
        pathfind_post(gs, open, start, r),
    ensures
        !(r is NotFound),
{
    let (x, y) = start;
    let w = Seq::new((y + 1) as nat, |i: int| (x, y - 1 - i));
    assert forall|i: int| 0 <= i < w.len() - 1 implies adjacent(#[trigger] w[i], w[i + 1]) by {
        assert(hex_neighbors(w[i])[1] == w[i + 1]);
    }
    assert forall|i: int| 0 <= i < w.len() - 1 implies is_open(gs, open, #[trigger] w[i]) by {
        lemma_index_in_range(gs, w[i]);
    }
    assert(hex_neighbors(start)[1] == w[0]);
    let t: Coord = (x, 0);
    assert(hex_neighbors(t)[1] == w.last());
    assert(gs.in_bounds(t) && gs.is_border(t) && adjacent(t, w.last()));
    assert(escape_walk(gs, open, start, w));
}

/// A piece whose six neighbours are all trapped tiles finds no way out, and
/// its turn wins the level and counts one more trapped piece.
pub proof fn lemma_enclosed_piece_is_trapped(old: GameSession, new: GameSession, r: Path)
    requires
        old.wf(),
        old.level_state == LevelState::InLevel,
        old.stats.tigers_trapped < u64::MAX,
        forall|j: int| 0 <= j < 6 ==> old.is_trapped(#[trigger] hex_neighbors(old.rustacean@)[j]),
        rustacean_move_post(old, new, r),
    ensures
        r is NotFound,
        new.level_state == LevelState::LevelWin,
        new.stats.tigers_trapped == old.stats.tigers_trapped + 1,
{
    let gs = old.grid_size;
    let open = open_of(old.trapped@);
    let c = old.rustacean@;
    if has_escape_neighbor(gs, c) {
        let i = choose|i: int| 0 <= i < 6 && is_escape(gs, #[trigger] hex_neighbors(c)[i]);
        assert(old.is_trapped(hex_neighbors(c)[i]));
    }
    if has_open_neighbor(gs, open, c) {
        let i = choose|i: int| 0 <= i < 6 && is_open(gs, open, #[trigger] hex_neighbors(c)[i]);
        assert(old.is_trapped(hex_neighbors(c)[i]));
        lemma_index_in_range(gs, hex_neighbors(c)[i]);
    }
    if r is Found {
        let w = coords_of(r->Found_0@);
        lemma_found_step_open(gs, open, c, w);
        let j = choose|j: int| 0 <= j < hex_neighbors(c).len() && hex_neighbors(c)[j] == w[0];
        assert(old.is_trapped(hex_neighbors(c)[j]));
        lemma_index_in_range(gs, w[0]);
    }
}

/// A piece next to an escape position escapes, and its turn loses the level
/// and counts one more escaped piece.
pub proof fn lemma_escape_neighbor_loses(old: GameSession, new: GameSession, r: Path)
    requires
        old.wf(),
        old.stats.tigers_escaped < u64::MAX,
        has_escape_neighbor(old.grid_size, old.rustacean@),
        rustacean_move_post(old, new, r),
    ensures
        r is Escaped,
        new.level_state == LevelState::LevelLose,
        new.stats.tigers_escaped == old.stats.tigers_escaped + 1,
{
}

} // verus!
