//! Walks over the hex grid and the order in which the search meets them.

use vstd::prelude::*;
use crate::hexgrid::{Coord, adjacent, hex_neighbors, lemma_neighbors_distinct_symmetric};

verus! {

/// The tile that the `i`-th step of `w` leaves: the start for the first step.
pub open spec fn step_from(start: Coord, w: Seq<Coord>, i: int) -> Coord {
    if i == 0 {
        start
    } else {
        w[i - 1]
    }
}

/// Where a walk from `start` ends.
pub open spec fn walk_end(start: Coord, w: Seq<Coord>) -> Coord {
    if w.len() == 0 {
        start
    } else {
        w.last()
    }
}

/// Position of `b` among the neighbours of `a`, in the fixed order.
pub open spec fn nbr_index(a: Coord, b: Coord) -> int {
    choose|j: int| 0 <= j < 6 && hex_neighbors(a)[j] == b
}

/// The neighbour positions taken by the steps of a walk from `start`.
pub open spec fn walk_key(start: Coord, w: Seq<Coord>) -> Seq<int> {
    Seq::new(w.len(), |i: int| nbr_index(step_from(start, w, i), w[i]))
}

/// Strict lexicographic order on sequences of neighbour positions.
pub open spec fn key_lt(a: Seq<int>, b: Seq<int>) -> bool {
    exists|k: int|
        0 <= k < a.len() && k < b.len() && a[k] < b[k] && forall|i: int| 0 <= i < k ==> #[trigger] a[i] == b[i]
}

pub proof fn lemma_nbr_index(a: Coord, b: Coord, j: int)
    requires
        0 <= j < 6,
        hex_neighbors(a)[j] == b,
    ensures
        nbr_index(a, b) == j,
{
    lemma_neighbors_distinct_symmetric(a);
    let k = nbr_index(a, b);
    assert(0 <= k < 6 && hex_neighbors(a)[k] == b);
    if k < j {
        assert(hex_neighbors(a)[k] != hex_neighbors(a)[j]);
    } else if j < k {
        assert(hex_neighbors(a)[j] != hex_neighbors(a)[k]);
    }
}

pub proof fn lemma_nbr_index_adjacent(a: Coord, b: Coord)
    requires
        adjacent(a, b),
    ensures
        0 <= nbr_index(a, b) < 6,
        hex_neighbors(a)[nbr_index(a, b)] == b,
{
    let j = choose|j: int| 0 <= j < hex_neighbors(a).len() && hex_neighbors(a)[j] == b;
    lemma_nbr_index(a, b, j);
}

pub proof fn lemma_key_asym(a: Seq<int>, b: Seq<int>)
    requires
        key_lt(a, b),
    ensures
        !key_lt(b, a),
        a != b,
{
    let k = choose|k: int|
        0 <= k < a.len() && k < b.len() && a[k] < b[k] && forall|i: int| 0 <= i < k ==> #[trigger] a[i] == b[i];
    if key_lt(b, a) {
        let m = choose|m: int|
            0 <= m < b.len() && m < a.len() && b[m] < a[m] && forall|i: int| 0 <= i < m ==> #[trigger] b[i] == a[i];
        if m < k {
            assert(a[m] == b[m]);
        } else if k < m {
            assert(b[k] == a[k]);
        }
    }
}

/// Sequences of one length that agree before `k` are equal or ordered one
/// way or the other.
proof fn lemma_key_compare_from(a: Seq<int>, b: Seq<int>, k: int)
    requires
        a.len() == b.len(),
        0 <= k <= a.len(),
        forall|i: int| 0 <= i < k ==> #[trigger] a[i] == b[i],
    ensures
        a == b || key_lt(a, b) || key_lt(b, a),
    decreases a.len() - k,
{
    if k == a.len() {
        assert(a =~= b);
    } else if a[k] == b[k] {
        lemma_key_compare_from(a, b, k + 1);
    } else if a[k] < b[k] {
        assert(key_lt(a, b));
    } else {
        assert forall|i: int| 0 <= i < k implies #[trigger] b[i] == a[i] by {}
        assert(key_lt(b, a));
    }
}

/// Sequences of one length are equal or ordered one way or the other.
pub proof fn lemma_key_trichotomy(a: Seq<int>, b: Seq<int>)
    requires
        a.len() == b.len(),
    ensures
        a == b || key_lt(a, b) || key_lt(b, a),
{
    lemma_key_compare_from(a, b, 0);
}

pub proof fn lemma_key_trans(a: Seq<int>, b: Seq<int>, c: Seq<int>)
    requires
        a.len() == b.len(),
        b.len() == c.len(),
        key_lt(a, b),
        key_lt(b, c),
    ensures
        key_lt(a, c),
{
    let k = choose|k: int|
        0 <= k < a.len() && k < b.len() && a[k] < b[k] && forall|i: int| 0 <= i < k ==> #[trigger] a[i] == b[i];
    let m = choose|m: int|
        0 <= m < b.len() && m < c.len() && b[m] < c[m] && forall|i: int| 0 <= i < m ==> #[trigger] b[i] == c[i];
    let t = if k < m { k } else { m };
    assert forall|i: int| 0 <= i < t implies #[trigger] a[i] == c[i] by {
        assert(a[i] == b[i]);
        assert(b[i] == c[i]);
    }
    if k < m {
        assert(b[k] == c[k]);
    } else if m < k {
        assert(a[m] == b[m]);
    }
}

/// An order decided before the last position survives any last positions.
pub proof fn lemma_key_push(a: Seq<int>, b: Seq<int>, x: int, y: int)
    requires
        a.len() == b.len(),
        key_lt(a, b),
    ensures
        key_lt(a.push(x), b.push(y)),
{
    let k = choose|k: int|
        0 <= k < a.len() && k < b.len() && a[k] < b[k] && forall|i: int| 0 <= i < k ==> #[trigger] a[i] == b[i];
    assert forall|i: int| 0 <= i < k implies #[trigger] a.push(x)[i] == b.push(y)[i] by {
        assert(a[i] == b[i]);
    }
    assert(a.push(x)[k] < b.push(y)[k]);
}

/// With equal prefixes, the order is that of the last positions.
pub proof fn lemma_key_push_same(a: Seq<int>, x: int, y: int)
    requires
        x < y,
    ensures
        key_lt(a.push(x), a.push(y)),
{
    let n = a.len() as int;
    assert forall|i: int| 0 <= i < n implies #[trigger] a.push(x)[i] == a.push(y)[i] by {}
    assert(a.push(x)[n] < a.push(y)[n]);
}

/// The key of a walk's prefix is the prefix of its key; a step more adds its
/// neighbour position.
pub proof fn lemma_walk_key_push(start: Coord, w: Seq<Coord>, x: Coord)
    ensures
        walk_key(start, w.push(x)) == walk_key(start, w).push(nbr_index(walk_end(start, w), x)),
{
    let w2 = w.push(x);
    assert forall|i: int| 0 <= i < w.len() implies #[trigger] step_from(start, w2, i) == step_from(start, w, i) by {}
    assert(walk_key(start, w.push(x)) =~= walk_key(start, w).push(nbr_index(walk_end(start, w), x)));
}

/// Each step of `w` goes to a neighbour of the tile it leaves.
pub open spec fn steps_adjacent(start: Coord, w: Seq<Coord>) -> bool {
    forall|i: int| 0 <= i < w.len() ==> adjacent(step_from(start, w, i), #[trigger] w[i])
}

/// Walks from one start that take the same neighbour positions agree up to `k`.
#[verifier::rlimit(40)]
proof fn lemma_same_key_prefix(start: Coord, a: Seq<Coord>, b: Seq<Coord>, k: int)
    requires
        a.len() == b.len(),
        steps_adjacent(start, a),
        steps_adjacent(start, b),
        walk_key(start, a) == walk_key(start, b),
        0 <= k <= a.len(),
    ensures
        forall|i: int| 0 <= i < k ==> #[trigger] a[i] == b[i],
    decreases k,
{
    if k > 0 {
        lemma_same_key_prefix(start, a, b, k - 1);
        let i = k - 1;
        let f = step_from(start, a, i);
        assert(step_from(start, b, i) == f);
        assert(adjacent(f, a[i]));
        assert(adjacent(f, b[i]));
        lemma_nbr_index_adjacent(f, a[i]);
        lemma_nbr_index_adjacent(f, b[i]);
        let ja = nbr_index(f, a[i]);
        let jb = nbr_index(f, b[i]);
        assert(walk_key(start, a)[i] == ja);
        assert(walk_key(start, b)[i] == jb);
        assert(ja == jb);
        assert(a[i] == hex_neighbors(f)[ja]);
        assert(b[i] == hex_neighbors(f)[jb]);
    }
}

/// A walk is determined by its start and the neighbour positions it takes.
pub proof fn lemma_same_key_same_walk(start: Coord, a: Seq<Coord>, b: Seq<Coord>)
    requires
        a.len() == b.len(),
        steps_adjacent(start, a),
        steps_adjacent(start, b),
        walk_key(start, a) == walk_key(start, b),
    ensures
        a == b,
{
    lemma_same_key_prefix(start, a, b, a.len() as int);
    assert(a =~= b);
}

} // verus!
