//! Column-offset hex coordinates: grid sizes, tile positions, neighbours.

use vstd::prelude::*;

verus! {

/// Number of columns and rows of a rectangular hex grid.
#[derive(Clone, Copy, Debug, PartialEq, Eq, Structural)]
pub struct GridSize {
    pub cols: i32,
    pub rows: i32,
}

/// A spec-level coordinate: column and row.
pub type Coord = (int, int);

/// The six neighbours of a tile, in the fixed enumeration order. Even columns
/// are shifted half a tile up relative to odd ones.
pub open spec fn hex_neighbors(c: Coord) -> Seq<Coord> {
    let (x, y) = c;
    if x % 2 == 0 {
        seq![(x, y + 1), (x, y - 1), (x - 1, y), (x - 1, y + 1), (x + 1, y), (x + 1, y + 1)]
    } else {
        seq![(x, y + 1), (x, y - 1), (x - 1, y), (x - 1, y - 1), (x + 1, y), (x + 1, y - 1)]
    }
}

/// `b` is one of the six neighbours of `a`.
pub open spec fn adjacent(a: Coord, b: Coord) -> bool {
    hex_neighbors(a).contains(b)
}

/// The neighbours of `c` are computable without leaving the `i32` range.
pub open spec fn coord_fits(c: Coord) -> bool {
    i32::MIN < c.0 < i32::MAX && i32::MIN < c.1 < i32::MAX
}

/// Spec view of an executable coordinate pair.
pub open spec fn pair_coord(p: (i32, i32)) -> Coord {
    (p.0 as int, p.1 as int)
}

impl GridSize {
    /// Both dimensions are positive and the tile count fits an `i32`.
    pub open spec fn wf(self) -> bool {
        1 <= self.cols && 1 <= self.rows && self.cols * self.rows < i32::MAX
    }

    pub open spec fn in_bounds(self, c: Coord) -> bool {
        0 <= c.0 < self.cols && 0 <= c.1 < self.rows
    }

    pub open spec fn is_border(self, c: Coord) -> bool {
        c.0 == 0 || c.1 == 0 || c.0 == self.cols - 1 || c.1 == self.rows - 1
    }

    /// Row-major position of a tile in a flattened vector.
    pub open spec fn index_of(self, c: Coord) -> int {
        c.1 * self.cols + c.0
    }

    pub fn new(cols: i32, rows: i32) -> (r: Self)
        ensures
            r.cols == cols,
            r.rows == rows,
    {
        GridSize { cols, rows }
    }

    /// Number of tiles of the grid.
    pub fn count(&self) -> (r: usize)
        requires
            self.wf(),
        ensures
            r == self.cols * self.rows,
    {
        (self.cols * self.rows) as usize
    }
}

/// Position of one tile of the grid.
#[derive(Clone, Copy, Debug, PartialEq, Eq, Structural)]
pub struct GridTilePos {
    pub x: i32,
    pub y: i32,
}

/// Orientation of the hex cells of a grid.
#[derive(Clone, Copy, Debug, PartialEq, Eq, Structural)]
pub enum HexGridOrientation {
    /// Straight columns offset by three quarters of a tile; flat sides up and down.
    Vertical,
    /// Straight rows offset by three quarters of a tile; flat sides left and right.
    Horizontal,
}

impl GridTilePos {
    pub open spec fn view(self) -> Coord {
        (self.x as int, self.y as int)
    }

    pub fn new(x: i32, y: i32) -> (r: Self)
        ensures
            r.x == x,
            r.y == y,
    {
        Self { x, y }
    }

    /// Index of this tile in a row-major flattened vector of the grid.
    pub fn to_index(&self, grid_size: &GridSize) -> (r: usize)
        requires
            grid_size.wf(),
            grid_size.in_bounds(self.view()),
        ensures
            r == grid_size.index_of(self.view()),
    {
        proof { lemma_index_in_range(*grid_size, self.view()); }
        ((self.y * grid_size.cols) + self.x) as usize
    }

    /// The tile lies in the first or last column or row.
    pub fn is_border(&self, grid_size: &GridSize) -> (r: bool)
        requires
            grid_size.wf(),
        ensures
            r == grid_size.is_border(self.view()),
    {
        self.x == 0 || self.y == 0 || self.x == (grid_size.cols - 1) || self.y == (grid_size.rows - 1)
    }

    /// The six neighbouring coordinates, whether inside a grid or not.
    pub fn get_neighbor_pos(&self) -> (r: [(i32, i32); 6])
        requires
            coord_fits(self.view()),
        ensures
            neighbors_match(r@, self.view()),
    {
        get_hex_horizontal_neighbor_pos(self.x, self.y)
    }
}

/// An executable neighbour array holds exactly the spec neighbours of `c`.
pub open spec fn neighbors_match(r: Seq<(i32, i32)>, c: Coord) -> bool {
    r.len() == 6 && forall|i: int| 0 <= i < 6 ==> #[trigger] pair_coord(r[i]) == hex_neighbors(c)[i]
}

/// Neighbouring coordinates of the tile `(x, y)`, in the fixed order.
pub fn get_hex_horizontal_neighbor_pos(x: i32, y: i32) -> (r: [(i32, i32); 6])
    requires
        coord_fits((x as int, y as int)),
    ensures
        neighbors_match(r@, (x as int, y as int)),
{
    if x % 2 == 0 {
        [(x, y + 1), (x, y - 1), (x - 1, y), (x - 1, y + 1), (x + 1, y), (x + 1, y + 1)]
    } else {
        [(x, y + 1), (x, y - 1), (x - 1, y), (x - 1, y - 1), (x + 1, y), (x + 1, y - 1)]
    }
}

/// A tile of the grid has an index within the flattened tile vector.
pub proof fn lemma_index_in_range(gs: GridSize, c: Coord)
    requires
        gs.wf(),
        gs.in_bounds(c),
    ensures
        0 <= gs.index_of(c) < gs.cols * gs.rows,
{
    assert(0 <= c.1 * gs.cols <= (gs.rows - 1) * gs.cols) by (nonlinear_arith)
        requires 0 <= c.1 <= gs.rows - 1, 1 <= gs.cols;
    assert((gs.rows - 1) * gs.cols == gs.cols * gs.rows - gs.cols) by (nonlinear_arith);
}

/// Each dimension of a well-formed grid is below `i32::MAX`.
pub proof fn lemma_dims_below_max(gs: GridSize)
    requires
        gs.wf(),
    ensures
        gs.cols < i32::MAX,
        gs.rows < i32::MAX,
{
    assert(gs.cols <= gs.cols * gs.rows && gs.rows <= gs.cols * gs.rows) by (nonlinear_arith)
        requires 1 <= gs.cols, 1 <= gs.rows;
}

/// Distinct tiles of a grid have distinct indices.
pub proof fn lemma_index_injective(gs: GridSize, a: Coord, b: Coord)
    requires
        gs.wf(),
        gs.in_bounds(a),
        gs.in_bounds(b),
        gs.index_of(a) == gs.index_of(b),
    ensures
        a == b,
{
    assert(a.1 == b.1) by (nonlinear_arith)
        requires
            a.1 * gs.cols + a.0 == b.1 * gs.cols + b.0,
            0 <= a.0 < gs.cols, 0 <= b.0 < gs.cols, 0 <= a.1, 0 <= b.1;
}

/// Every coordinate has exactly six distinct neighbours, and adjacency is
/// symmetric: a coordinate is a neighbour of each of its neighbours.
pub proof fn lemma_neighbors_distinct_symmetric(c: Coord)
    ensures
        hex_neighbors(c).len() == 6,
        forall|i: int, j: int|
            0 <= i < j < 6 ==> #[trigger] hex_neighbors(c)[i] != #[trigger] hex_neighbors(c)[j],
        forall|i: int| 0 <= i < 6 ==> adjacent(#[trigger] hex_neighbors(c)[i], c),
{
    let (x, y) = c;
    if x % 2 == 0 {
        assert((x - 1) % 2 != 0 && (x + 1) % 2 != 0);
        assert(hex_neighbors((x, y + 1))[1] == c);
        assert(hex_neighbors((x, y - 1))[0] == c);
        assert(hex_neighbors((x - 1, y))[4] == c);
        assert(hex_neighbors((x - 1, y + 1))[5] == c);
        assert(hex_neighbors((x + 1, y))[2] == c);
        assert(hex_neighbors((x + 1, y + 1))[3] == c);
    } else {
        assert((x - 1) % 2 == 0 && (x + 1) % 2 == 0);
        assert(hex_neighbors((x, y + 1))[1] == c);
        assert(hex_neighbors((x, y - 1))[0] == c);
        assert(hex_neighbors((x - 1, y))[4] == c);
        assert(hex_neighbors((x - 1, y - 1))[5] == c);
        assert(hex_neighbors((x + 1, y))[2] == c);
        assert(hex_neighbors((x + 1, y - 1))[3] == c);
    }
}

/// Adjacency is symmetric.
pub proof fn lemma_adjacent_symmetric(a: Coord, b: Coord)
    requires
        adjacent(a, b),
    ensures
        adjacent(b, a),
{
    lemma_neighbors_distinct_symmetric(a);
    let i = choose|i: int| 0 <= i < hex_neighbors(a).len() && hex_neighbors(a)[i] == b;
    assert(adjacent(hex_neighbors(a)[i], a));
}

/// Neighbours differ by at most one in each coordinate.
pub proof fn lemma_adjacent_close(a: Coord, b: Coord)
    requires
        adjacent(a, b),
    ensures
        a.0 - 1 <= b.0 <= a.0 + 1,
        a.1 - 1 <= b.1 <= a.1 + 1,
{
}

} // verus!
