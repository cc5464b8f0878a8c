//! Flood fill: labeling of 4-connected floor regions and reduction of a
//! board to its single largest region.

use vstd::prelude::*;

use crate::base::{
    Board, Cell, board_ok, board_view, has_cell, in_bounds, is_floor, is_square, scan_before,
    set_cell,
};

verus! {

/// (x2, y2) is one 4-neighbor step away from (x1, y1).
pub open spec fn adjacent(x1: int, y1: int, x2: int, y2: int) -> bool {
    ||| (x2 == x1 + 1 && y2 == y1)
    ||| (x2 == x1 - 1 && y2 == y1)
    ||| (x2 == x1 && y2 == y1 + 1)
    ||| (x2 == x1 && y2 == y1 - 1)
}

/// A non-empty chain of floor cells, each adjacent to the next.
pub open spec fn floor_path(b: Seq<Seq<Cell>>, p: Seq<(int, int)>) -> bool {
    &&& p.len() > 0
    &&& forall|k: int| 0 <= k < p.len() ==> in_bounds(b, (#[trigger] p[k]).0, p[k].1)
        && b[p[k].1][p[k].0] is Floor
    &&& forall|k: int| 0 <= k < p.len() - 1 ==> adjacent(
        (#[trigger] p[k]).0, p[k].1, p[k + 1].0, p[k + 1].1,
    )
}

/// A floor path links the two cells.
pub open spec fn connected(b: Seq<Seq<Cell>>, x1: int, y1: int, x2: int, y2: int) -> bool {
    exists|p: Seq<(int, int)>| #[trigger] floor_path(b, p) && p[0] == (x1, y1)
        && p[p.len() - 1] == (x2, y2)
}

/// The floor cells of the board form exactly one 4-connected component.
pub open spec fn one_floor_component(b: Seq<Seq<Cell>>) -> bool {
    &&& has_cell(b, Cell::Floor)
    &&& forall|x1: int, y1: int, x2: int, y2: int|
        in_bounds(b, x1, y1) && in_bounds(b, x2, y2)
        && #[trigger] b[y1][x1] == Cell::Floor && #[trigger] b[y2][x2] == Cell::Floor
        ==> connected(b, x1, y1, x2, y2)
}

/// A floor cell is connected to itself.
pub proof fn lemma_connected_refl(b: Seq<Seq<Cell>>, x: int, y: int)
    requires
        in_bounds(b, x, y),
        b[y][x] is Floor,
    ensures
        connected(b, x, y, x, y),
{
    let p = seq![(x, y)];
    assert(floor_path(b, p));
    assert(p[0] == (x, y) && p[p.len() - 1] == (x, y));
}

/// A connection extends by one step onto an adjacent floor cell.
pub proof fn lemma_connected_step(
    b: Seq<Seq<Cell>>, x1: int, y1: int, x2: int, y2: int, x3: int, y3: int,
)
    requires
        connected(b, x1, y1, x2, y2),
        adjacent(x2, y2, x3, y3),
        in_bounds(b, x3, y3),
        b[y3][x3] is Floor,
    ensures
        connected(b, x1, y1, x3, y3),
{
    let p = choose|p: Seq<(int, int)>| #[trigger] floor_path(b, p) && p[0] == (x1, y1)
        && p[p.len() - 1] == (x2, y2);
    let q = p.push((x3, y3));
    assert(floor_path(b, q)) by {
        assert forall|k: int| 0 <= k < q.len() implies in_bounds(b, (#[trigger] q[k]).0, q[k].1)
            && b[q[k].1][q[k].0] is Floor by {
            if k < p.len() {
                assert(q[k] == p[k]);
            }
        }
        assert forall|k: int| 0 <= k < q.len() - 1 implies adjacent(
            (#[trigger] q[k]).0, q[k].1, q[k + 1].0, q[k + 1].1,
        ) by {
            if k < p.len() - 1 {
                assert(q[k] == p[k] && q[k + 1] == p[k + 1]);
            } else {
                assert(q[k] == p[p.len() - 1] && q[k + 1] == (x3, y3));
            }
        }
    }
    assert(q[0] == (x1, y1) && q[q.len() - 1] == (x3, y3));
}

/// Connectivity is symmetric.
pub proof fn lemma_connected_sym(b: Seq<Seq<Cell>>, x1: int, y1: int, x2: int, y2: int)
    requires
        connected(b, x1, y1, x2, y2),
    ensures
        connected(b, x2, y2, x1, y1),
{
    let p = choose|p: Seq<(int, int)>| #[trigger] floor_path(b, p) && p[0] == (x1, y1)
        && p[p.len() - 1] == (x2, y2);
    let q = p.reverse();
    assert(floor_path(b, q)) by {
        assert forall|k: int| 0 <= k < q.len() implies in_bounds(b, (#[trigger] q[k]).0, q[k].1)
            && b[q[k].1][q[k].0] is Floor by {
            assert(q[k] == p[p.len() - 1 - k]);
        }
        assert forall|k: int| 0 <= k < q.len() - 1 implies adjacent(
            (#[trigger] q[k]).0, q[k].1, q[k + 1].0, q[k + 1].1,
        ) by {
            assert(q[k] == p[p.len() - 1 - k]);
            assert(q[k + 1] == p[p.len() - 2 - k]);
            assert(adjacent(
                p[p.len() - 2 - k].0, p[p.len() - 2 - k].1,
                p[p.len() - 1 - k].0, p[p.len() - 1 - k].1,
            ));
        }
    }
    assert(q[0] == (x2, y2) && q[q.len() - 1] == (x1, y1));
}

/// Connectivity is transitive.
pub proof fn lemma_connected_trans(
    b: Seq<Seq<Cell>>, x1: int, y1: int, x2: int, y2: int, x3: int, y3: int,
)
    requires
        connected(b, x1, y1, x2, y2),
        connected(b, x2, y2, x3, y3),
    ensures
        connected(b, x1, y1, x3, y3),
{
    let p = choose|p: Seq<(int, int)>| #[trigger] floor_path(b, p) && p[0] == (x1, y1)
        && p[p.len() - 1] == (x2, y2);
    let q = choose|q: Seq<(int, int)>| #[trigger] floor_path(b, q) && q[0] == (x2, y2)
        && q[q.len() - 1] == (x3, y3);
    let c = p + q.subrange(1, q.len() as int);
    assert(floor_path(b, c)) by {
        assert forall|k: int| 0 <= k < c.len() implies in_bounds(b, (#[trigger] c[k]).0, c[k].1)
            && b[c[k].1][c[k].0] is Floor by {
            if k < p.len() {
                assert(c[k] == p[k]);
            } else {
                assert(c[k] == q[k - p.len() + 1]);
            }
        }
        assert forall|k: int| 0 <= k < c.len() - 1 implies adjacent(
            (#[trigger] c[k]).0, c[k].1, c[k + 1].0, c[k + 1].1,
        ) by {
            if k < p.len() - 1 {
                assert(c[k] == p[k] && c[k + 1] == p[k + 1]);
            } else if k == p.len() - 1 {
                if k < c.len() - 1 {
                    assert(c[k] == p[p.len() - 1]);
                    assert(c[k + 1] == q[1]);
                    assert(adjacent(q[0].0, q[0].1, q[1].0, q[1].1));
                }
            } else {
                assert(c[k] == q[k - p.len() + 1] && c[k + 1] == q[k - p.len() + 2]);
                assert(adjacent(
                    q[k - p.len() + 1].0, q[k - p.len() + 1].1,
                    q[k - p.len() + 2].0, q[k - p.len() + 2].1,
                ));
            }
        }
    }
    assert(c[0] == (x1, y1));
    assert(c[c.len() - 1] == (x3, y3)) by {
        if q.len() == 1 {
            assert(c =~= p);
        } else {
            assert(c[c.len() - 1] == q[q.len() - 1]);
        }
    }
}

/// Every cell of a floor path is connected to the path's start.
pub proof fn lemma_path_prefix(b: Seq<Seq<Cell>>, p: Seq<(int, int)>, k: int)
    requires
        floor_path(b, p),
        0 <= k < p.len(),
    ensures
        connected(b, p[0].0, p[0].1, p[k].0, p[k].1),
{
    let q = p.subrange(0, k + 1);
    assert(floor_path(b, q)) by {
        assert forall|t: int| 0 <= t < q.len() implies in_bounds(b, (#[trigger] q[t]).0, q[t].1)
            && b[q[t].1][q[t].0] is Floor by {
            assert(q[t] == p[t]);
        }
        assert forall|t: int| 0 <= t < q.len() - 1 implies adjacent(
            (#[trigger] q[t]).0, q[t].1, q[t + 1].0, q[t + 1].1,
        ) by {
            assert(q[t] == p[t] && q[t + 1] == p[t + 1]);
        }
    }
    assert(q[0] == p[0] && q[q.len() - 1] == p[k]);
}

/// If a board keeps all floors of the component of (sx, sy) as floors, and
/// adds no floors, connections from (sx, sy) carry over to it.
pub proof fn lemma_connected_transfer(
    b1: Seq<Seq<Cell>>, b2: Seq<Seq<Cell>>, sx: int, sy: int, tx: int, ty: int,
)
    requires
        b1.len() == b2.len(),
        forall|i: int, j: int| in_bounds(b1, i, j) && (#[trigger] b2[j][i]) is Floor
            ==> b1[j][i] is Floor,
        forall|i: int, j: int| in_bounds(b1, i, j) && (#[trigger] b1[j][i]) is Floor
            && connected(b1, sx, sy, i, j) ==> b2[j][i] is Floor,
        connected(b1, sx, sy, tx, ty),
    ensures
        connected(b2, sx, sy, tx, ty),
{
    let p = choose|p: Seq<(int, int)>| #[trigger] floor_path(b1, p) && p[0] == (sx, sy)
        && p[p.len() - 1] == (tx, ty);
    assert(floor_path(b2, p)) by {
        assert forall|k: int| 0 <= k < p.len() implies in_bounds(b2, (#[trigger] p[k]).0, p[k].1)
            && b2[p[k].1][p[k].0] is Floor by {
            lemma_path_prefix(b1, p, k);
        }
    }
}

/// Connections in a board with fewer floors also hold in one with more.
pub proof fn lemma_connected_widen(
    b1: Seq<Seq<Cell>>, b2: Seq<Seq<Cell>>, sx: int, sy: int, tx: int, ty: int,
)
    requires
        b1.len() == b2.len(),
        forall|i: int, j: int| in_bounds(b1, i, j) && (#[trigger] b1[j][i]) is Floor
            ==> b2[j][i] is Floor,
        connected(b1, sx, sy, tx, ty),
    ensures
        connected(b2, sx, sy, tx, ty),
{
    let p = choose|p: Seq<(int, int)>| #[trigger] floor_path(b1, p) && p[0] == (sx, sy)
        && p[p.len() - 1] == (tx, ty);
    assert(floor_path(b2, p)) by {
        assert forall|k: int| 0 <= k < p.len() implies in_bounds(b2, (#[trigger] p[k]).0, p[k].1)
            && b2[p[k].1][p[k].0] is Floor by {
            assert(in_bounds(b1, p[k].0, p[k].1) && b1[p[k].1][p[k].0] is Floor);
        }
    }
}

/// Number of floor cells in one row.
pub open spec fn row_floors(row: Seq<Cell>) -> nat
    decreases row.len(),
{
    if row.len() == 0 {
        0
    } else {
        row_floors(row.drop_last()) + (if row.last() is Floor { 1nat } else { 0nat })
    }
}

/// Number of floor cells in the whole grid.
pub open spec fn grid_floors(b: Seq<Seq<Cell>>) -> nat
    decreases b.len(),
{
    if b.len() == 0 {
        0
    } else {
        grid_floors(b.drop_last()) + row_floors(b.last())
    }
}

/// Overwriting a floor cell with a non-floor cell drops the row's count.
proof fn lemma_row_floors_update(row: Seq<Cell>, i: int, c: Cell)
    requires
        0 <= i < row.len(),
        row[i] is Floor,
        !(c is Floor),
    ensures
        row_floors(row.update(i, c)) + 1 == row_floors(row),
    decreases row.len(),
{
    let r2 = row.update(i, c);
    if i == row.len() - 1 {
        assert(r2.drop_last() =~= row.drop_last());
        assert(r2.last() == c);
    } else {
        assert(r2.drop_last() =~= row.drop_last().update(i, c));
        assert(r2.last() == row.last());
        lemma_row_floors_update(row.drop_last(), i, c);
    }
}

/// Overwriting a floor cell with a non-floor cell drops the grid's count.
proof fn lemma_grid_floors_update(b: Seq<Seq<Cell>>, i: int, j: int, c: Cell)
    requires
        0 <= j < b.len(),
        0 <= i < b[j].len(),
        b[j][i] is Floor,
        !(c is Floor),
    ensures
        grid_floors(b.update(j, b[j].update(i, c))) + 1 == grid_floors(b),
    decreases b.len(),
{
    let b2 = b.update(j, b[j].update(i, c));
    if j == b.len() - 1 {
        assert(b2.drop_last() =~= b.drop_last());
        assert(b2.last() == b[j].update(i, c));
        lemma_row_floors_update(b[j], i, c);
    } else {
        assert(b2.drop_last() =~= b.drop_last().update(j, b[j].update(i, c)));
        assert(b2.last() == b.last());
        assert(b.drop_last()[j] == b[j]);
        lemma_grid_floors_update(b.drop_last(), i, j, c);
    }
}

/// A row has at most as many floors as cells.
proof fn lemma_row_floors_le(row: Seq<Cell>)
    ensures
        row_floors(row) <= row.len(),
    decreases row.len(),
{
    if row.len() > 0 {
        lemma_row_floors_le(row.drop_last());
    }
}

/// A grid of rows no longer than w has at most len * w floors.
proof fn lemma_grid_floors_le(b: Seq<Seq<Cell>>, w: int)
    requires
        0 <= w,
        forall|j: int| 0 <= j < b.len() ==> (#[trigger] b[j]).len() <= w,
    ensures
        grid_floors(b) <= b.len() * w,
    decreases b.len(),
{
    if b.len() == 0 {
    } else {
        assert forall|j: int| 0 <= j < b.drop_last().len()
            implies (#[trigger] b.drop_last()[j]).len() <= w by {
            assert(b.drop_last()[j] == b[j]);
        }
        lemma_grid_floors_le(b.drop_last(), w);
        lemma_row_floors_le(b.last());
        assert((b.len() - 1) * w + w == b.len() * w) by (nonlinear_arith)
        {
        }
    }
}

/// The board whose floor cells are exactly the 4-connected component of
/// (sx, sy) in b, all other cells wall.
pub open spec fn component_board(b: Seq<Seq<Cell>>, sx: int, sy: int) -> Seq<Seq<Cell>> {
    Seq::new(
        b.len(),
        |j: int| Seq::new(
            b.len(),
            |i: int| if connected(b, sx, sy, i, j) {
                Cell::Floor
            } else {
                Cell::Wall
            },
        ),
    )
}

/// Two cells of one component give the same component board.
pub proof fn lemma_component_board_same(
    b: Seq<Seq<Cell>>, s1x: int, s1y: int, s2x: int, s2y: int,
)
    requires
        connected(b, s1x, s1y, s2x, s2y),
    ensures
        component_board(b, s1x, s1y) == component_board(b, s2x, s2y),
{
    assert forall|i: int, j: int|
        #![trigger connected(b, s1x, s1y, i, j)]
        #![trigger connected(b, s2x, s2y, i, j)]
        true implies connected(b, s1x, s1y, i, j) == connected(b, s2x, s2y, i, j) by {
        if connected(b, s1x, s1y, i, j) {
            lemma_connected_sym(b, s1x, s1y, s2x, s2y);
            lemma_connected_trans(b, s2x, s2y, s1x, s1y, i, j);
        }
        if connected(b, s2x, s2y, i, j) {
            lemma_connected_trans(b, s1x, s1y, s2x, s2y, i, j);
        }
    }
    assert(component_board(b, s1x, s1y) =~~= component_board(b, s2x, s2y));
}

/// Splitting a row's floors into two disjoint groups splits its count.
proof fn lemma_row_floors_split(a: Seq<Cell>, b: Seq<Cell>, c: Seq<Cell>)
    requires
        a.len() == b.len(),
        a.len() == c.len(),
        forall|i: int| 0 <= i < a.len() ==> (((#[trigger] a[i]) is Floor)
            == ((b[i] is Floor) || (c[i] is Floor))),
        forall|i: int| 0 <= i < a.len() ==> !(((#[trigger] b[i]) is Floor) && (c[i] is Floor)),
    ensures
        row_floors(a) == row_floors(b) + row_floors(c),
    decreases a.len(),
{
    if a.len() > 0 {
        lemma_row_floors_split(a.drop_last(), b.drop_last(), c.drop_last());
        assert(a.drop_last().len() == a.len() - 1);
        assert forall|i: int| 0 <= i < a.drop_last().len()
            implies (((#[trigger] a.drop_last()[i]) is Floor)
                == ((b.drop_last()[i] is Floor) || (c.drop_last()[i] is Floor))) by {
            assert(a.drop_last()[i] == a[i]);
            assert(b.drop_last()[i] == b[i]);
            assert(c.drop_last()[i] == c[i]);
        }
        assert(a.last() == a[a.len() - 1]);
    }
}

/// Splitting a grid's floors into two disjoint groups splits its count.
proof fn lemma_grid_floors_split(a: Seq<Seq<Cell>>, b: Seq<Seq<Cell>>, c: Seq<Seq<Cell>>)
    requires
        a.len() == b.len(),
        a.len() == c.len(),
        forall|j: int| 0 <= j < a.len() ==> (#[trigger] a[j]).len() == b[j].len()
            && a[j].len() == c[j].len(),
        forall|i: int, j: int| 0 <= j < a.len() && 0 <= i < (#[trigger] a[j]).len()
            ==> ((a[j][i] is Floor) == ((b[j][i] is Floor) || (#[trigger] c[j][i]) is Floor)),
        forall|i: int, j: int| 0 <= j < a.len() && 0 <= i < (#[trigger] a[j]).len()
            ==> !((b[j][i] is Floor) && ((#[trigger] c[j][i]) is Floor)),
    ensures
        grid_floors(a) == grid_floors(b) + grid_floors(c),
    decreases a.len(),
{
    if a.len() > 0 {
        assert forall|j: int| 0 <= j < a.drop_last().len()
            implies (#[trigger] a.drop_last()[j]).len() == b.drop_last()[j].len()
                && a.drop_last()[j].len() == c.drop_last()[j].len() by {
            assert(a.drop_last()[j] == a[j]);
            assert(b.drop_last()[j] == b[j]);
            assert(c.drop_last()[j] == c[j]);
        }
        assert forall|i: int, j: int| 0 <= j < a.drop_last().len()
            && 0 <= i < (#[trigger] a.drop_last()[j]).len()
            implies ((a.drop_last()[j][i] is Floor)
                == ((b.drop_last()[j][i] is Floor)
                    || (#[trigger] c.drop_last()[j][i]) is Floor))
                && !((b.drop_last()[j][i] is Floor) && (c.drop_last()[j][i] is Floor)) by {
            assert(a.drop_last()[j] == a[j]);
            assert(b.drop_last()[j] == b[j]);
            assert(c.drop_last()[j] == c[j]);
            assert(a[j][i] is Floor == ((b[j][i] is Floor) || (c[j][i] is Floor)));
            assert(!((b[j][i] is Floor) && (c[j][i] is Floor)));
        }
        lemma_grid_floors_split(a.drop_last(), b.drop_last(), c.drop_last());
        let last = a.len() - 1;
        assert forall|i: int| 0 <= i < a.last().len()
            implies (((#[trigger] a.last()[i]) is Floor)
                == ((b.last()[i] is Floor) || (c.last()[i] is Floor))) by {
            assert(a.last() == a[last] && b.last() == b[last] && c.last() == c[last]);
            assert(a[last][i] is Floor == ((b[last][i] is Floor) || (c[last][i] is Floor)));
        }
        assert forall|i: int| 0 <= i < a.last().len()
            implies !(((#[trigger] b.last()[i]) is Floor) && (c.last()[i] is Floor)) by {
            assert(a.last() == a[last] && b.last() == b[last] && c.last() == c[last]);
            assert(!((b[last][i] is Floor) && (c[last][i] is Floor)));
        }
        lemma_row_floors_split(a.last(), b.last(), c.last());
    }
}

/// Does the pending stack hold cell (i, j)?
spec fn in_pending(pend: Seq<(usize, usize)>, i: int, j: int) -> bool {
    exists|k: int| 0 <= k < pend.len() && (#[trigger] pend[k]).0 == i && pend[k].1 == j
}

/// If the flood's marked region is closed under floor adjacency, every
/// floor path starting on a marked cell ends on one.
proof fn lemma_closure_path(
    b: Seq<Seq<Cell>>, b2: Seq<Seq<Cell>>, comp: u32, p: Seq<(int, int)>,
)
    requires
        floor_path(b, p),
        b2.len() == b.len(),
        b2[p[0].1][p[0].0] == Cell::Zone(comp),
        forall|i: int, j: int, i2: int, j2: int|
            #![trigger b2[j][i], b[j2][i2]]
            in_bounds(b, i, j) && in_bounds(b, i2, j2) && b2[j][i] == Cell::Zone(comp)
            && adjacent(i, j, i2, j2) && b[j2][i2] is Floor
            ==> b2[j2][i2] == Cell::Zone(comp),
    ensures
        b2[p[p.len() - 1].1][p[p.len() - 1].0] == Cell::Zone(comp),
    decreases p.len(),
{
    if p.len() > 1 {
        let q = p.drop_last();
        assert(floor_path(b, q)) by {
            assert forall|k: int| 0 <= k < q.len()
                implies in_bounds(b, (#[trigger] q[k]).0, q[k].1) && b[q[k].1][q[k].0] is Floor by {
                assert(q[k] == p[k]);
            }
            assert forall|k: int| 0 <= k < q.len() - 1 implies adjacent(
                (#[trigger] q[k]).0, q[k].1, q[k + 1].0, q[k + 1].1,
            ) by {
                assert(q[k] == p[k] && q[k + 1] == p[k + 1]);
            }
        }
        assert(q[0] == p[0]);
        lemma_closure_path(b, b2, comp, q);
        let u = p[p.len() - 2];
        let v = p[p.len() - 1];
        assert(q[q.len() - 1] == u);
        assert(adjacent(u.0, u.1, v.0, v.1));
        assert(in_bounds(b, v.0, v.1) && b[v.1][v.0] is Floor);
        assert(b2[v.1][v.0] == Cell::Zone(comp));
    }
}

/// Push (i2, j2) onto the flood's stack if the current board still shows a
/// floor cell there. (fi, fj) is the adjacent cell just painted.
fn maybe_push(
    board: &Board,
    pending: &mut Vec<(usize, usize)>,
    i2: usize,
    j2: usize,
    Ghost(b): Ghost<Seq<Seq<Cell>>>,
    Ghost(sx): Ghost<int>,
    Ghost(sy): Ghost<int>,
    Ghost(fi): Ghost<int>,
    Ghost(fj): Ghost<int>,
    Ghost(component): Ghost<u32>,
) -> (pushed: bool)
    requires
        board_ok(board_view(*board)),
        board_view(*board).len() == b.len(),
        in_bounds(b, i2 as int, j2 as int),
        adjacent(fi, fj, i2 as int, j2 as int),
        connected(b, sx, sy, fi, fj),
        forall|i: int, j: int| in_bounds(b, i, j) ==> ((#[trigger] board_view(*board)[j][i])
            == Cell::Zone(component) || board_view(*board)[j][i] == b[j][i]),
    ensures
        final(pending)@.len() >= old(pending)@.len(),
        forall|k: int| 0 <= k < old(pending)@.len()
            ==> #[trigger] final(pending)@[k] == old(pending)@[k],
        forall|k: int| old(pending)@.len() <= k < final(pending)@.len() ==> ({
            let e = #[trigger] final(pending)@[k];
            &&& e == (i2, j2)
            &&& in_bounds(b, e.0 as int, e.1 as int)
            &&& b[e.1 as int][e.0 as int] is Floor
            &&& connected(b, sx, sy, e.0 as int, e.1 as int)
        }),
        board_view(*board)[j2 as int][i2 as int] is Floor
            ==> in_pending(final(pending)@, i2 as int, j2 as int),
        forall|a: int, c: int| in_pending(old(pending)@, a, c)
            ==> in_pending(final(pending)@, a, c),
{
    proof {
        assert(board_view(*board)[j2 as int] == board@[j2 as int]@);
    }
    let r;
    if is_floor(board[j2][i2]) {
        proof {
            assert(board_view(*board)[j2 as int][i2 as int] == b[j2 as int][i2 as int]);
            lemma_connected_step(b, sx, sy, fi, fj, i2 as int, j2 as int);
        }
        pending.push((i2, j2));
        proof {
            assert(final(pending)@[final(pending)@.len() - 1] == (i2, j2));
        }
        r = true;
    } else {
        r = false;
    }
    proof {
        assert forall|a: int, c: int| in_pending(old(pending)@, a, c)
            implies in_pending(final(pending)@, a, c) by {
            let k = choose|k: int| 0 <= k < old(pending)@.len()
                && (#[trigger] old(pending)@[k]).0 == a && old(pending)@[k].1 == c;
            assert(final(pending)@[k] == old(pending)@[k]);
        }
    }
    r
}

/// Mark the whole 4-connected floor component of (x, y) with the given
/// zone label, returning how many cells were marked (at least one).
fn paint_component(board: &mut Board, x: usize, y: usize, component: u32) -> (r: usize)
    requires
        board_ok(board_view(*old(board))),
        in_bounds(board_view(*old(board)), x as int, y as int),
        board_view(*old(board))[y as int][x as int] is Floor,
        forall|i: int, j: int| in_bounds(board_view(*old(board)), i, j)
            ==> #[trigger] board_view(*old(board))[j][i] != Cell::Zone(component),
    ensures
        ({
            let b = board_view(*old(board));
            let b2 = board_view(*final(board));
            &&& b2.len() == b.len()
            &&& board_ok(b2)
            &&& forall|i: int, j: int| in_bounds(b, i, j) ==> #[trigger] b2[j][i] == (
                if connected(b, x as int, y as int, i, j) {
                    Cell::Zone(component)
                } else {
                    b[j][i]
                })
            &&& r >= 1
            &&& r + grid_floors(b2) == grid_floors(b)
        }),
{
    let ghost b = board_view(*board);
    let size = board.len();
    let mut pending: Vec<(usize, usize)> = Vec::new();
    pending.push((x, y));
    let mut count: usize = 0;
    proof {
        lemma_grid_floors_le(b, size as int);
        assert(size * size <= 65025) by (nonlinear_arith)
            requires size <= 255,
        {
        }
        lemma_connected_refl(b, x as int, y as int);
        assert(pending@[0] == (x, y));
        assert(in_pending(pending@, x as int, y as int));
    }
    while pending.len() > 0
        invariant
            b == board_view(*old(board)),
            board_ok(b),
            size == b.len(),
            in_bounds(b, x as int, y as int),
            b[y as int][x as int] is Floor,
            forall|i: int, j: int| in_bounds(b, i, j)
                ==> #[trigger] b[j][i] != Cell::Zone(component),
            board_view(*board).len() == size,
            board_ok(board_view(*board)),
            count + grid_floors(board_view(*board)) == grid_floors(b),
            grid_floors(b) <= size * size <= 65025,
            forall|i: int, j: int| in_bounds(b, i, j) ==> ((#[trigger] board_view(*board)[j][i])
                == Cell::Zone(component) || board_view(*board)[j][i] == b[j][i]),
            forall|i: int, j: int| in_bounds(b, i, j)
                && (#[trigger] board_view(*board)[j][i]) == Cell::Zone(component)
                ==> b[j][i] is Floor && connected(b, x as int, y as int, i, j),
            forall|k: int| 0 <= k < pending@.len() ==> ({
                let e = #[trigger] pending@[k];
                &&& in_bounds(b, e.0 as int, e.1 as int)
                &&& b[e.1 as int][e.0 as int] is Floor
                &&& connected(b, x as int, y as int, e.0 as int, e.1 as int)
            }),
            forall|i: int, j: int, i2: int, j2: int|
                #![trigger board_view(*board)[j][i], b[j2][i2]]
                in_bounds(b, i, j) && in_bounds(b, i2, j2)
                && board_view(*board)[j][i] == Cell::Zone(component)
                && adjacent(i, j, i2, j2) && b[j2][i2] is Floor
                ==> board_view(*board)[j2][i2] == Cell::Zone(component)
                    || in_pending(pending@, i2, j2),
            board_view(*board)[y as int][x as int] == Cell::Zone(component)
                || in_pending(pending@, x as int, y as int),
            board_view(*board)[y as int][x as int] == Cell::Zone(component) ==> count >= 1,
        decreases grid_floors(board_view(*board)), pending@.len(),
    {
        let ghost pend_old = pending@;
        let ghost cur_old = board_view(*board);
        let top = pending.pop().unwrap();
        let i = top.0;
        let j = top.1;
        proof {
            assert(pend_old[pend_old.len() - 1] == (i, j));
            assert(in_bounds(b, i as int, j as int));
            assert(b[j as int][i as int] is Floor);
            assert(connected(b, x as int, y as int, i as int, j as int));
            assert(board_view(*board)[j as int] == board@[j as int]@);
            assert forall|a: int, c: int| in_pending(pend_old, a, c)
                implies in_pending(pending@, a, c) || (a == i as int && c == j as int) by {
                let k = choose|k: int| 0 <= k < pend_old.len()
                    && (#[trigger] pend_old[k]).0 == a && pend_old[k].1 == c;
                if k < pend_old.len() - 1 {
                    assert(pending@[k] == pend_old[k]);
                }
            }
        }
        if is_floor(board[j][i]) {
            proof {
                assert(cur_old[j as int][i as int] == b[j as int][i as int]);
                assert(b[j as int][i as int] is Floor);
                lemma_grid_floors_update(cur_old, i as int, j as int, Cell::Zone(component));
            }
            set_cell(board, i, j, Cell::Zone(component));
            count += 1;
            let ghost p0 = pending@;
            if i > 0 {
                maybe_push(board, &mut pending, i - 1, j,
                    Ghost(b), Ghost(x as int), Ghost(y as int),
                    Ghost(i as int), Ghost(j as int), Ghost(component));
            }
            let ghost p1 = pending@;
            if i + 1 < size {
                maybe_push(board, &mut pending, i + 1, j,
                    Ghost(b), Ghost(x as int), Ghost(y as int),
                    Ghost(i as int), Ghost(j as int), Ghost(component));
            }
            let ghost p2 = pending@;
            if j > 0 {
                maybe_push(board, &mut pending, i, j - 1,
                    Ghost(b), Ghost(x as int), Ghost(y as int),
                    Ghost(i as int), Ghost(j as int), Ghost(component));
            }
            let ghost p3 = pending@;
            if j + 1 < size {
                maybe_push(board, &mut pending, i, j + 1,
                    Ghost(b), Ghost(x as int), Ghost(y as int),
                    Ghost(i as int), Ghost(j as int), Ghost(component));
            }
            proof {
                let cur = board_view(*board);
                // The painted cell's floor neighbors were each offered to the
                // stack; everything else is as before.
                assert forall|a: int, c: int| in_pending(p0, a, c)
                    implies in_pending(pending@, a, c) by {
                    let k = choose|k: int| 0 <= k < p0.len()
                        && (#[trigger] p0[k]).0 == a && p0[k].1 == c;
                    assert(p1[k] == p0[k]);
                    assert(p2[k] == p1[k]);
                    assert(p3[k] == p2[k]);
                    assert(pending@[k] == p3[k]);
                }
                assert forall|a: int, c: int| in_pending(p1, a, c)
                    implies in_pending(pending@, a, c) by {
                    let k = choose|k: int| 0 <= k < p1.len()
                        && (#[trigger] p1[k]).0 == a && p1[k].1 == c;
                    assert(p2[k] == p1[k]);
                    assert(p3[k] == p2[k]);
                    assert(pending@[k] == p3[k]);
                }
                assert forall|a: int, c: int| in_pending(p2, a, c)
                    implies in_pending(pending@, a, c) by {
                    let k = choose|k: int| 0 <= k < p2.len()
                        && (#[trigger] p2[k]).0 == a && p2[k].1 == c;
                    assert(p3[k] == p2[k]);
                    assert(pending@[k] == p3[k]);
                }
                assert forall|a: int, c: int| in_pending(p3, a, c)
                    implies in_pending(pending@, a, c) by {
                    let k = choose|k: int| 0 <= k < p3.len()
                        && (#[trigger] p3[k]).0 == a && p3[k].1 == c;
                    assert(pending@[k] == p3[k]);
                }
                assert forall|i2: int, j2: int|
                    in_bounds(b, i2, j2) && adjacent(i as int, j as int, i2, j2)
                    && b[j2][i2] is Floor
                    implies (#[trigger] cur[j2][i2]) == Cell::Zone(component)
                        || in_pending(pending@, i2, j2) by {
                    if !(cur[j2][i2] == Cell::Zone(component)) {
                        assert(cur[j2][i2] == b[j2][i2]);
                        assert(cur[j2][i2] is Floor);
                        if i2 == i - 1 && j2 == j as int {
                            assert(in_pending(p1, i2, j2));
                        } else if i2 == i + 1 && j2 == j as int {
                            assert(in_pending(p2, i2, j2));
                        } else if i2 == i as int && j2 == j - 1 {
                            assert(in_pending(p3, i2, j2));
                        } else {
                            assert(i2 == i as int && j2 == j + 1);
                            assert(in_pending(pending@, i2, j2));
                        }
                    }
                }
                assert forall|a: int, c: int, a2: int, c2: int|
                    in_bounds(b, a, c) && in_bounds(b, a2, c2)
                    && #[trigger] cur[c][a] == Cell::Zone(component)
                    && adjacent(a, c, a2, c2) && #[trigger] b[c2][a2] is Floor
                    implies cur[c2][a2] == Cell::Zone(component)
                        || in_pending(pending@, a2, c2) by {
                    if a == i as int && c == j as int {
                    } else {
                        assert(cur_old[c][a] == Cell::Zone(component));
                        if !(cur_old[c2][a2] == Cell::Zone(component)) {
                            assert(in_pending(pend_old, a2, c2));
                            if a2 == i as int && c2 == j as int {
                                assert(cur[c2][a2] == Cell::Zone(component));
                            } else {
                                assert(in_pending(p0, a2, c2));
                            }
                        } else {
                            assert(cur[c2][a2] == Cell::Zone(component));
                        }
                    }
                }
                // The start cell stays covered.
                if !(cur[y as int][x as int] == Cell::Zone(component)) {
                    assert(!(x as int == i as int && y as int == j as int));
                    assert(cur_old[y as int][x as int] != Cell::Zone(component));
                    assert(in_pending(pend_old, x as int, y as int));
                    assert(in_pending(p0, x as int, y as int));
                }
            }
        } else {
            proof {
                assert(cur_old[j as int][i as int] == Cell::Zone(component)) by {
                    assert(cur_old[j as int][i as int] == Cell::Zone(component)
                        || cur_old[j as int][i as int] == b[j as int][i as int]);
                }
                let cur = board_view(*board);
                assert forall|a: int, c: int, a2: int, c2: int|
                    in_bounds(b, a, c) && in_bounds(b, a2, c2)
                    && #[trigger] cur[c][a] == Cell::Zone(component)
                    && adjacent(a, c, a2, c2) && #[trigger] b[c2][a2] is Floor
                    implies cur[c2][a2] == Cell::Zone(component)
                        || in_pending(pending@, a2, c2) by {
                    if !(cur[c2][a2] == Cell::Zone(component)) {
                        assert(in_pending(pend_old, a2, c2));
                        if a2 == i as int && c2 == j as int {
                            assert(cur[c2][a2] == Cell::Zone(component));
                        }
                    }
                }
                if !(cur[y as int][x as int] == Cell::Zone(component)) {
                    assert(in_pending(pend_old, x as int, y as int));
                }
            }
        }
    }
    proof {
        let b2 = board_view(*board);
        assert(b2[y as int][x as int] == Cell::Zone(component));
        assert forall|i: int, j: int| in_bounds(b, i, j) implies #[trigger] b2[j][i] == (
            if connected(b, x as int, y as int, i, j) {
                Cell::Zone(component)
            } else {
                b[j][i]
            }) by {
            if connected(b, x as int, y as int, i, j) {
                let p = choose|p: Seq<(int, int)>| #[trigger] floor_path(b, p)
                    && p[0] == (x as int, y as int) && p[p.len() - 1] == (i, j);
                lemma_closure_path(b, b2, component, p);
            } else {
                assert(b2[j][i] != Cell::Zone(component));
            }
        }
    }
    count
}

/// Every cell of the board is floor or wall.
pub open spec fn floor_wall_only(b: Seq<Seq<Cell>>) -> bool {
    forall|i: int, j: int| in_bounds(b, i, j)
        ==> ((#[trigger] b[j][i]) is Floor || b[j][i] is Wall)
}

/// Zone k of the labeled board b2 is exactly the 4-connected floor
/// component of (sx, sy) in the raw board b.
pub open spec fn zone_is_component(
    b: Seq<Seq<Cell>>, b2: Seq<Seq<Cell>>, k: int, sx: int, sy: int,
) -> bool {
    &&& in_bounds(b, sx, sy)
    &&& b[sy][sx] is Floor
    &&& forall|i: int, j: int| in_bounds(b, i, j)
        ==> (((#[trigger] b2[j][i]) == Cell::Zone(k as u32)) <==> connected(b, sx, sy, i, j))
    &&& forall|i: int, j: int| in_bounds(b, i, j) && #[trigger] connected(b, sx, sy, i, j)
        ==> !scan_before(i, j, sx, sy)
}

/// One seed per zone, in discovery order: each zone's recorded seed is the
/// row-major first cell of its component, its count is the component's
/// size, and earlier zones were discovered at earlier seeds.
pub open spec fn zone_seeds_ok(
    b: Seq<Seq<Cell>>, b2: Seq<Seq<Cell>>, counts: Seq<usize>, seeds: Seq<(int, int)>,
) -> bool {
    &&& seeds.len() == counts.len()
    &&& forall|k: int| 0 <= k < seeds.len() ==> zone_is_component(
        b, b2, k, (#[trigger] seeds[k]).0, seeds[k].1,
    )
    &&& forall|k: int| 0 <= k < seeds.len() ==> counts[k] == grid_floors(
        component_board(b, (#[trigger] seeds[k]).0, seeds[k].1),
    )
    &&& forall|k1: int, k2: int| 0 <= k1 < k2 < seeds.len() ==> scan_before(
        (#[trigger] seeds[k1]).0, seeds[k1].1, (#[trigger] seeds[k2]).0, seeds[k2].1,
    )
}

/// Sum of a list of recorded cell counts.
pub open spec fn counts_sum(counts: Seq<usize>) -> int
    decreases counts.len(),
{
    if counts.len() == 0 {
        0
    } else {
        counts_sum(counts.drop_last()) + counts.last()
    }
}

/// Appending one count adds it to the sum.
proof fn lemma_counts_sum_push(s: Seq<usize>, x: usize)
    ensures
        counts_sum(s.push(x)) == counts_sum(s) + x,
{
    assert(s.push(x).drop_last() =~= s);
    assert(s.push(x).last() == x);
}

/// A row without floor cells counts zero floors.
proof fn lemma_row_floors_zero(row: Seq<Cell>)
    requires
        forall|i: int| 0 <= i < row.len() ==> !((#[trigger] row[i]) is Floor),
    ensures
        row_floors(row) == 0,
    decreases row.len(),
{
    if row.len() > 0 {
        assert forall|i: int| 0 <= i < row.drop_last().len()
            implies !((#[trigger] row.drop_last()[i]) is Floor) by {
            assert(row.drop_last()[i] == row[i]);
        }
        lemma_row_floors_zero(row.drop_last());
        assert(row.last() == row[row.len() - 1]);
    }
}

/// A grid without floor cells counts zero floors.
proof fn lemma_grid_floors_zero(b: Seq<Seq<Cell>>)
    requires
        forall|i: int, j: int| 0 <= j < b.len() && 0 <= i < b[j].len()
            ==> !((#[trigger] b[j][i]) is Floor),
    ensures
        grid_floors(b) == 0,
    decreases b.len(),
{
    if b.len() > 0 {
        assert forall|i: int, j: int| 0 <= j < b.drop_last().len()
            && 0 <= i < b.drop_last()[j].len()
            implies !((#[trigger] b.drop_last()[j][i]) is Floor) by {
            assert(b.drop_last()[j] == b[j]);
        }
        lemma_grid_floors_zero(b.drop_last());
        assert forall|i: int| 0 <= i < b.last().len()
            implies !((#[trigger] b.last()[i]) is Floor) by {
            assert(b.last() == b[b.len() - 1]);
        }
        lemma_row_floors_zero(b.last());
    }
}

/// Zone k has some seed whose component it is.
pub open spec fn has_zone_seed(b: Seq<Seq<Cell>>, b2: Seq<Seq<Cell>>, k: int) -> bool {
    exists|sx: int, sy: int| #[trigger] zone_is_component(b, b2, k, sx, sy)
}

/// The recorded cell count of zone k equals the size of its component.
pub open spec fn zone_count_ok(
    b: Seq<Seq<Cell>>, b2: Seq<Seq<Cell>>, counts: Seq<usize>, k: int,
) -> bool {
    exists|sx: int, sy: int| #[trigger] zone_is_component(b, b2, k, sx, sy)
        && counts[k] == grid_floors(component_board(b, sx, sy))
}

/// Label every floor cell with the zone number of its connected component,
/// in row-major discovery order, returning one cell count per zone.
pub(crate) fn connected_components(board: &mut Board) -> (r: Vec<usize>)
    requires
        board_ok(board_view(*old(board))),
        floor_wall_only(board_view(*old(board))),
    ensures
        ({
            let b = board_view(*old(board));
            let b2 = board_view(*final(board));
            &&& b2.len() == b.len()
            &&& board_ok(b2)
            &&& forall|i: int, j: int| in_bounds(b, i, j) ==> !((#[trigger] b2[j][i]) is Floor)
            &&& forall|i: int, j: int| in_bounds(b, i, j) && (#[trigger] b[j][i]) is Wall
                ==> b2[j][i] == b[j][i]
            &&& forall|i: int, j: int| in_bounds(b, i, j)
                ==> ((#[trigger] b2[j][i]) == b[j][i] || b2[j][i] is Zone)
            &&& forall|i: int, j: int| in_bounds(b, i, j)
                ==> ((#[trigger] b2[j][i]) matches Cell::Zone(z) ==> (z as int) < r@.len())
            &&& forall|k: int| 0 <= k < r@.len() ==> #[trigger] has_zone_seed(b, b2, k)
            &&& forall|k: int| 0 <= k < r@.len() ==> #[trigger] zone_count_ok(b, b2, r@, k)
            &&& exists|seeds: Seq<(int, int)>| #[trigger] zone_seeds_ok(b, b2, r@, seeds)
            &&& counts_sum(r@) == grid_floors(b)
            &&& (r@.len() == 0) == !has_cell(b, Cell::Floor)
            &&& r@.len() <= 65025
        }),
{
    let ghost b = board_view(*board);
    let size = board.len();
    let mut component_count: u32 = 0;
    let mut cell_counts: Vec<usize> = Vec::new();
    let ghost mut seeds_g: Seq<(int, int)> = Seq::empty();
    let mut y: usize = 0;
    while y < size
        invariant
            b == board_view(*old(board)),
            board_ok(b),
            floor_wall_only(b),
            size == b.len(),
            y <= size,
            board_view(*board).len() == size,
            board_ok(board_view(*board)),
            cell_counts@.len() == component_count,
            component_count <= y * size,
            forall|i: int, j: int| in_bounds(b, i, j)
                && (#[trigger] board_view(*board)[j][i]) is Floor ==> b[j][i] is Floor
                    && board_view(*board)[j][i] == b[j][i],
            forall|i: int, j: int| in_bounds(b, i, j)
                ==> ((#[trigger] board_view(*board)[j][i]) == b[j][i]
                    || board_view(*board)[j][i] is Zone),
            forall|i: int, j: int| in_bounds(b, i, j) && (#[trigger] b[j][i]) is Wall
                ==> board_view(*board)[j][i] == b[j][i],
            forall|i: int, j: int| in_bounds(b, i, j)
                ==> ((#[trigger] board_view(*board)[j][i]) matches Cell::Zone(z)
                    ==> (z as int) < component_count && b[j][i] is Floor),
            forall|k: int| 0 <= k < component_count
                ==> #[trigger] has_zone_seed(b, board_view(*board), k),
            forall|k: int| 0 <= k < component_count
                ==> #[trigger] zone_count_ok(b, board_view(*board), cell_counts@, k),
            counts_sum(cell_counts@) + grid_floors(board_view(*board)) == grid_floors(b),
            seeds_g.len() == component_count,
            forall|k: int| 0 <= k < seeds_g.len() ==> zone_is_component(
                b, board_view(*board), k, (#[trigger] seeds_g[k]).0, seeds_g[k].1,
            ),
            forall|k: int| 0 <= k < seeds_g.len() ==> cell_counts@[k] == grid_floors(
                component_board(b, (#[trigger] seeds_g[k]).0, seeds_g[k].1),
            ),
            forall|k: int| 0 <= k < seeds_g.len()
                ==> scan_before((#[trigger] seeds_g[k]).0, seeds_g[k].1, 0, y as int),
            forall|k1: int, k2: int| 0 <= k1 < k2 < seeds_g.len() ==> scan_before(
                (#[trigger] seeds_g[k1]).0, seeds_g[k1].1,
                (#[trigger] seeds_g[k2]).0, seeds_g[k2].1,
            ),
            forall|i: int, j: int| in_bounds(b, i, j) && j < y
                ==> !((#[trigger] board_view(*board)[j][i]) is Floor),
        decreases size - y,
    {
        let mut x: usize = 0;
        while x < size
            invariant
                b == board_view(*old(board)),
                board_ok(b),
                floor_wall_only(b),
                size == b.len(),
                y < size,
                x <= size,
                board_view(*board).len() == size,
                board_ok(board_view(*board)),
                cell_counts@.len() == component_count,
                component_count <= y * size + x,
                forall|i: int, j: int| in_bounds(b, i, j)
                    && (#[trigger] board_view(*board)[j][i]) is Floor ==> b[j][i] is Floor
                        && board_view(*board)[j][i] == b[j][i],
                forall|i: int, j: int| in_bounds(b, i, j)
                    ==> ((#[trigger] board_view(*board)[j][i]) == b[j][i]
                        || board_view(*board)[j][i] is Zone),
                forall|i: int, j: int| in_bounds(b, i, j) && (#[trigger] b[j][i]) is Wall
                    ==> board_view(*board)[j][i] == b[j][i],
                forall|i: int, j: int| in_bounds(b, i, j)
                    ==> ((#[trigger] board_view(*board)[j][i]) matches Cell::Zone(z)
                        ==> (z as int) < component_count && b[j][i] is Floor),
                forall|k: int| 0 <= k < component_count
                    ==> #[trigger] has_zone_seed(b, board_view(*board), k),
                forall|k: int| 0 <= k < component_count
                    ==> #[trigger] zone_count_ok(b, board_view(*board), cell_counts@, k),
                counts_sum(cell_counts@) + grid_floors(board_view(*board)) == grid_floors(b),
                seeds_g.len() == component_count,
                forall|k: int| 0 <= k < seeds_g.len() ==> zone_is_component(
                    b, board_view(*board), k, (#[trigger] seeds_g[k]).0, seeds_g[k].1,
                ),
                forall|k: int| 0 <= k < seeds_g.len() ==> cell_counts@[k] == grid_floors(
                    component_board(b, (#[trigger] seeds_g[k]).0, seeds_g[k].1),
                ),
                forall|k: int| 0 <= k < seeds_g.len()
                    ==> scan_before((#[trigger] seeds_g[k]).0, seeds_g[k].1, x as int, y as int),
                forall|k1: int, k2: int| 0 <= k1 < k2 < seeds_g.len() ==> scan_before(
                    (#[trigger] seeds_g[k1]).0, seeds_g[k1].1,
                    (#[trigger] seeds_g[k2]).0, seeds_g[k2].1,
                ),
                forall|i: int, j: int| in_bounds(b, i, j)
                    && scan_before(i, j, x as int, y as int)
                    ==> !((#[trigger] board_view(*board)[j][i]) is Floor),
            decreases size - x,
        {
            let ghost cur = board_view(*board);
            proof {
                assert(board_view(*board)[y as int] == board@[y as int]@);
                assert(y * size + x + 1 <= size * size) by (nonlinear_arith)
                    requires x < size && y < size,
                {
                }
                assert(size * size <= 65025) by (nonlinear_arith)
                    requires size <= 255,
                {
                }
            }
            if is_floor(board[y][x]) {
                proof {
                    assert(cur[y as int][x as int] == b[y as int][x as int]);
                }
                let ghost cc_old = cell_counts@;
                let cnt = paint_component(board, x, y, component_count);
                cell_counts.push(cnt);
                proof {
                    let next = board_view(*board);
                    lemma_counts_sum_push(cc_old, cnt);
                    // Connectivity from (x, y) is the same in the partly
                    // labeled board as in the raw board.
                    assert forall|i: int, j: int| in_bounds(b, i, j)
                        && (#[trigger] b[j][i]) is Floor
                        && connected(b, x as int, y as int, i, j)
                        implies cur[j][i] is Floor by {
                        if !(cur[j][i] is Floor) {
                            assert(cur[j][i] == b[j][i] || cur[j][i] is Zone);
                            assert(cur[j][i] is Zone);
                            let z = cur[j][i]->Zone_0;
                            assert((z as int) < component_count);
                            assert(has_zone_seed(b, cur, z as int));
                            let (sx, sy) = choose|sx: int, sy: int| #[trigger] zone_is_component(
                                b, cur, z as int, sx, sy,
                            );
                            assert(zone_is_component(b, cur, z as int, sx, sy));
                            assert(connected(b, sx, sy, i, j));
                            lemma_connected_sym(b, sx, sy, i, j);
                            lemma_connected_trans(b, i, j, sx, sy, i, j);
                            lemma_connected_sym(b, x as int, y as int, i, j);
                            lemma_connected_trans(b, sx, sy, i, j, x as int, y as int);
                            assert(connected(b, sx, sy, x as int, y as int));
                            assert(cur[y as int][x as int] == Cell::Zone(z));
                        }
                    }
                    assert forall|i: int, j: int| in_bounds(b, i, j)
                        implies ((#[trigger] next[j][i]) == Cell::Zone(component_count)
                            <==> connected(b, x as int, y as int, i, j)) by {
                        if next[j][i] == Cell::Zone(component_count) {
                            assert(connected(cur, x as int, y as int, i, j)) by {
                                if !connected(cur, x as int, y as int, i, j) {
                                    assert(next[j][i] == cur[j][i]);
                                }
                            }
                            lemma_connected_widen(cur, b, x as int, y as int, i, j);
                        }
                        if connected(b, x as int, y as int, i, j) {
                            lemma_connected_transfer(b, cur, x as int, y as int, i, j);
                            assert(connected(cur, x as int, y as int, i, j));
                        }
                    }
                    assert forall|i: int, j: int| in_bounds(b, i, j)
                        && #[trigger] connected(b, x as int, y as int, i, j)
                        implies !scan_before(i, j, x as int, y as int) by {
                        let p = choose|p: Seq<(int, int)>| #[trigger] floor_path(b, p)
                            && p[0] == (x as int, y as int) && p[p.len() - 1] == (i, j);
                        assert(b[j][i] is Floor);
                        assert(cur[j][i] is Floor);
                    }
                    assert(zone_is_component(b, next, component_count as int, x as int, y as int));
                    // Earlier zones keep their characterization, whatever
                    // seed witnesses it.
                    assert forall|k: int, sx: int, sy: int|
                        0 <= k < component_count
                        && #[trigger] zone_is_component(b, cur, k, sx, sy)
                        implies zone_is_component(b, next, k, sx, sy) by {
                        assert forall|i: int, j: int| in_bounds(b, i, j)
                            implies (((#[trigger] next[j][i]) == Cell::Zone(k as u32))
                                <==> connected(b, sx, sy, i, j)) by {
                            if connected(cur, x as int, y as int, i, j) {
                                assert(next[j][i] == Cell::Zone(component_count));
                                assert(cur[j][i] is Floor || cur[j][i]
                                    == Cell::Zone(component_count)) by {
                                    let p = choose|p: Seq<(int, int)>|
                                        #[trigger] floor_path(cur, p)
                                        && p[0] == (x as int, y as int)
                                        && p[p.len() - 1] == (i, j);
                                    assert(cur[p[p.len() - 1].1][p[p.len() - 1].0]
                                        is Floor);
                                }
                                assert(cur[j][i] != Cell::Zone(k as u32));
                                assert(next[j][i] != Cell::Zone(k as u32));
                                assert(!connected(b, sx, sy, i, j));
                            } else {
                                assert(next[j][i] == cur[j][i]);
                            }
                        }
                    }
                    assert forall|k: int| 0 <= k < component_count + 1
                        implies #[trigger] has_zone_seed(b, next, k) by {
                        if k < component_count {
                            assert(has_zone_seed(b, cur, k));
                            let (sx, sy) = choose|sx: int, sy: int| #[trigger] zone_is_component(
                                b, cur, k, sx, sy,
                            );
                            assert(zone_is_component(b, cur, k, sx, sy));
                            assert(zone_is_component(b, next, k, sx, sy));
                        } else {
                            assert(zone_is_component(
                                b, next, component_count as int, x as int, y as int,
                            ));
                        }
                    }
                    // The painted count is exactly the component's size.
                    let comp = component_board(b, x as int, y as int);
                    assert forall|j: int| 0 <= j < cur.len()
                        implies (#[trigger] cur[j]).len() == next[j].len()
                            && cur[j].len() == comp[j].len() by {
                        assert(cur[j].len() == cur.len());
                        assert(next[j].len() == next.len());
                    }
                    assert forall|i: int, j: int| 0 <= j < cur.len()
                        && 0 <= i < (#[trigger] cur[j]).len()
                        implies ((cur[j][i] is Floor) == ((next[j][i] is Floor)
                            || (#[trigger] comp[j][i]) is Floor))
                            && !((next[j][i] is Floor) && (comp[j][i] is Floor)) by {
                        assert(cur[j].len() == cur.len());
                        assert(in_bounds(b, i, j));
                        assert((comp[j][i] is Floor) == connected(b, x as int, y as int, i, j));
                        if connected(b, x as int, y as int, i, j) {
                            assert(cur[j][i] is Floor);
                            assert(next[j][i] == Cell::Zone(component_count));
                        } else {
                            assert(next[j][i] == cur[j][i]);
                        }
                    }
                    lemma_grid_floors_split(cur, next, comp);
                    assert(cnt == grid_floors(comp));
                    assert forall|k: int| 0 <= k < component_count + 1
                        implies #[trigger] zone_count_ok(b, next, cell_counts@, k) by {
                        if k < component_count {
                            assert(zone_count_ok(b, cur, cc_old, k));
                            let (sx, sy) = choose|sx: int, sy: int|
                                #[trigger] zone_is_component(b, cur, k, sx, sy)
                                && cc_old[k] == grid_floors(component_board(b, sx, sy));
                            assert(zone_is_component(b, next, k, sx, sy));
                            assert(cell_counts@[k] == cc_old[k]);
                        } else {
                            assert(zone_is_component(
                                b, next, component_count as int, x as int, y as int,
                            ));
                            assert(cell_counts@[k] == cnt);
                        }
                    }
                    let old_seeds = seeds_g;
                    seeds_g = seeds_g.push((x as int, y as int));
                    assert forall|k: int| 0 <= k < seeds_g.len()
                        implies zone_is_component(
                            b, next, k, (#[trigger] seeds_g[k]).0, seeds_g[k].1,
                        ) && cell_counts@[k] == grid_floors(
                            component_board(b, seeds_g[k].0, seeds_g[k].1),
                        ) by {
                        if k < old_seeds.len() {
                            assert(seeds_g[k] == old_seeds[k]);
                            assert(zone_is_component(
                                b, cur, k, old_seeds[k].0, old_seeds[k].1,
                            ));
                            assert(cc_old[k] == cell_counts@[k]);
                        } else {
                            assert(seeds_g[k] == ((x as int, y as int)));
                        }
                    }
                    assert forall|k1: int, k2: int| 0 <= k1 < k2 < seeds_g.len()
                        implies scan_before(
                            (#[trigger] seeds_g[k1]).0, seeds_g[k1].1,
                            (#[trigger] seeds_g[k2]).0, seeds_g[k2].1,
                        ) by {
                        if k2 < old_seeds.len() {
                            assert(seeds_g[k1] == old_seeds[k1]);
                            assert(seeds_g[k2] == old_seeds[k2]);
                        } else {
                            assert(seeds_g[k2] == ((x as int, y as int)));
                            assert(seeds_g[k1] == old_seeds[k1]);
                            assert(scan_before(old_seeds[k1].0, old_seeds[k1].1,
                                x as int, y as int));
                        }
                    }
                    assert forall|k: int| 0 <= k < seeds_g.len()
                        implies scan_before(
                            (#[trigger] seeds_g[k]).0, seeds_g[k].1, x as int + 1, y as int,
                        ) by {
                        if k < old_seeds.len() {
                            assert(seeds_g[k] == old_seeds[k]);
                        } else {
                            assert(seeds_g[k] == ((x as int, y as int)));
                        }
                    }
                    assert(!(next[y as int][x as int] is Floor)) by {
                        lemma_connected_refl(b, x as int, y as int);
                    }
                    assert forall|i: int, j: int| in_bounds(b, i, j)
                        && scan_before(i, j, x as int + 1, y as int)
                        implies !((#[trigger] next[j][i]) is Floor) by {
                        if i == x as int && j == y as int {
                        } else {
                            assert(scan_before(i, j, x as int, y as int));
                            assert(!(cur[j][i] is Floor));
                            if next[j][i] != cur[j][i] {
                                assert(next[j][i] == Cell::Zone(component_count));
                            }
                        }
                    }
                }
                component_count += 1;
            } else {
                proof {
                    assert forall|i: int, j: int| in_bounds(b, i, j)
                        && scan_before(i, j, x as int + 1, y as int)
                        implies !((#[trigger] board_view(*board)[j][i]) is Floor) by {
                        if !(i == x as int && j == y as int) {
                            assert(scan_before(i, j, x as int, y as int));
                        }
                    }
                }
            }
            x += 1;
        }
        proof {
            assert forall|i: int, j: int| in_bounds(b, i, j) && j < y + 1
                implies !((#[trigger] board_view(*board)[j][i]) is Floor) by {
                assert(scan_before(i, j, size as int, y as int));
            }
            assert(y * size + size <= (y + 1) * size) by (nonlinear_arith)
            {
            }
        }
        y += 1;
    }
    proof {
        let b2 = board_view(*board);
        assert forall|i: int, j: int| in_bounds(b, i, j)
            implies !((#[trigger] b2[j][i]) is Floor) by {
            assert(j < size as int);
        }
        if has_cell(b, Cell::Floor) {
            let (i, j) = choose|i: int, j: int| in_bounds(b, i, j)
                && #[trigger] b[j][i] == Cell::Floor;
            assert(!(b2[j][i] is Floor));
            assert(!(b[j][i] is Wall));
            assert(b2[j][i] == b[j][i] || b2[j][i] is Zone);
            assert(b2[j][i] is Zone);
            assert((b2[j][i]->Zone_0 as int) < component_count);
        }
        if component_count > 0 {
            assert(has_zone_seed(b, b2, 0));
            let (sx, sy) = choose|sx: int, sy: int| #[trigger] zone_is_component(b, b2, 0, sx, sy);
            assert(zone_is_component(b, b2, 0, sx, sy));
            assert(b[sy][sx] is Floor);
            assert(has_cell(b, Cell::Floor)) by {
                assert(in_bounds(b, sx, sy) && b[sy][sx] == Cell::Floor);
            }
        }
        assert(component_count <= size * size);
        assert(size * size <= 65025) by (nonlinear_arith)
            requires size <= 255,
        {
        }
        assert(zone_seeds_ok(b, b2, cell_counts@, seeds_g));
        assert forall|i: int, j: int| 0 <= j < b2.len() && 0 <= i < b2[j].len()
            implies !((#[trigger] b2[j][i]) is Floor) by {
            assert(b2[j].len() == b2.len());
            assert(in_bounds(b, i, j));
        }
        lemma_grid_floors_zero(b2);
    }
    cell_counts
}

/// One admissible outcome of the reducer: the kept region is the component
/// of a floor seed, that component is at least as large as every other,
/// and among the largest components the seed's lies first in row-major
/// scan order (the seed itself is the component's first cell).
pub open spec fn kept_seed(g: Seq<Seq<Cell>>, r: Seq<Seq<Cell>>, sx: int, sy: int) -> bool {
    &&& in_bounds(g, sx, sy)
    &&& g[sy][sx] == Cell::Floor
    &&& r == component_board(g, sx, sy)
    &&& forall|tx: int, ty: int| in_bounds(g, tx, ty) && #[trigger] g[ty][tx] == Cell::Floor
        ==> grid_floors(component_board(g, tx, ty)) <= grid_floors(r)
    &&& forall|tx: int, ty: int| in_bounds(g, tx, ty) && #[trigger] g[ty][tx] == Cell::Floor
        && grid_floors(component_board(g, tx, ty)) == grid_floors(r)
        ==> !scan_before(tx, ty, sx, sy)
}

/// What the connectivity reducer does to a raw floor/wall grid: a board
/// without floor cells is unchanged; otherwise exactly the largest floor
/// component survives, the first-discovered one winning ties.
pub open spec fn reduced_of(g: Seq<Seq<Cell>>, r: Seq<Seq<Cell>>) -> bool {
    if !has_cell(g, Cell::Floor) {
        r == g
    } else {
        exists|sx: int, sy: int| #[trigger] kept_seed(g, r, sx, sy)
    }
}

/// With first-discovered winning ties, the reducer's outcome is unique.
pub proof fn lemma_reduced_unique(g: Seq<Seq<Cell>>, r1: Seq<Seq<Cell>>, r2: Seq<Seq<Cell>>)
    requires
        reduced_of(g, r1),
        reduced_of(g, r2),
    ensures
        r1 == r2,
{
    if has_cell(g, Cell::Floor) {
        let (s1x, s1y) = choose|sx: int, sy: int| #[trigger] kept_seed(g, r1, sx, sy);
        let (s2x, s2y) = choose|sx: int, sy: int| #[trigger] kept_seed(g, r2, sx, sy);
        assert(kept_seed(g, r1, s1x, s1y));
        assert(kept_seed(g, r2, s2x, s2y));
        assert(grid_floors(component_board(g, s2x, s2y)) <= grid_floors(r1));
        assert(grid_floors(component_board(g, s1x, s1y)) <= grid_floors(r2));
        assert(grid_floors(component_board(g, s2x, s2y)) == grid_floors(r1));
        assert(grid_floors(component_board(g, s1x, s1y)) == grid_floors(r2));
        assert(!scan_before(s2x, s2y, s1x, s1y));
        assert(!scan_before(s1x, s1y, s2x, s2y));
        assert(s1x == s2x && s1y == s2y);
    }
}

/// Keep one largest 4-connected floor region and turn every other cell into
/// wall. A board without floor cells is left unchanged; otherwise the
/// remaining floor cells are exactly one component of the input board.
pub fn remove_components(board: &mut Board)
    requires
        board_ok(board_view(*old(board))),
        floor_wall_only(board_view(*old(board))),
    ensures
        ({
            let b = board_view(*old(board));
            let b2 = board_view(*final(board));
            &&& b2.len() == b.len()
            &&& board_ok(b2)
            &&& floor_wall_only(b2)
            &&& forall|i: int, j: int| in_bounds(b, i, j) && (#[trigger] b2[j][i]) is Floor
                ==> b[j][i] is Floor
            &&& (!has_cell(b, Cell::Floor) ==> b2 == b)
            &&& (has_cell(b, Cell::Floor) ==> exists|sx: int, sy: int|
                in_bounds(b, sx, sy) && #[trigger] b[sy][sx] == Cell::Floor
                && forall|i: int, j: int| in_bounds(b, i, j)
                    ==> (((#[trigger] b2[j][i]) is Floor) <==> connected(b, sx, sy, i, j)))
            &&& (has_cell(b, Cell::Floor) ==> one_floor_component(b2))
            &&& (has_cell(b, Cell::Floor) ==> forall|tx: int, ty: int|
                in_bounds(b, tx, ty) && #[trigger] b[ty][tx] == Cell::Floor
                ==> grid_floors(component_board(b, tx, ty)) <= grid_floors(b2))
            &&& reduced_of(b, b2)
        }),
{
    let ghost b = board_view(*board);
    let size = board.len();
    let cell_counts = connected_components(board);
    let ghost lab = board_view(*board);
    if cell_counts.is_empty() {
        proof {
            assert forall|i: int, j: int| in_bounds(b, i, j)
                implies #[trigger] lab[j][i] == b[j][i] by {
                assert(!(b[j][i] is Floor));
                assert(b[j][i] is Wall);
            }
            assert(lab =~~= b);
            assert(reduced_of(b, lab));
        }
        return;
    }
    let mut max_count: usize = 0;
    let mut max_idx: usize = 0;
    let mut idx: usize = 0;
    while idx < cell_counts.len()
        invariant
            idx <= cell_counts@.len(),
            cell_counts@.len() > 0,
            max_idx < cell_counts@.len(),
            max_count <= cell_counts@[max_idx as int],
            forall|t: int| 0 <= t < idx ==> #[trigger] cell_counts@[t] <= max_count,
            forall|t: int| 0 <= t < max_idx ==> #[trigger] cell_counts@[t] < max_count,
        decreases cell_counts@.len() - idx,
    {
        if cell_counts[idx] > max_count {
            max_idx = idx;
            max_count = cell_counts[idx];
        }
        idx += 1;
    }
    proof {
        assert(max_idx < cell_counts@.len());
    }
    let ghost zseeds = choose|seeds: Seq<(int, int)>| #[trigger] zone_seeds_ok(
        b, lab, cell_counts@, seeds,
    );
    let ghost seed = zseeds[max_idx as int];
    proof {
        assert(zone_seeds_ok(b, lab, cell_counts@, zseeds));
        assert(zone_is_component(b, lab, max_idx as int, seed.0, seed.1));
        assert(max_idx < 65025);
    }
    let mut y: usize = 0;
    while y < size
        invariant
            b == board_view(*old(board)),
            board_ok(b),
            floor_wall_only(b),
            size == b.len(),
            y <= size,
            board_view(*board).len() == size,
            board_ok(board_view(*board)),
            zone_is_component(b, lab, max_idx as int, seed.0, seed.1),
            lab.len() == size,
            is_square(lab),
            forall|i: int, j: int| in_bounds(b, i, j)
                ==> !((#[trigger] lab[j][i]) is Floor),
            forall|i: int, j: int| in_bounds(b, i, j) && (#[trigger] b[j][i]) is Wall
                ==> lab[j][i] == b[j][i],
            forall|i: int, j: int| in_bounds(b, i, j) && j >= y
                ==> #[trigger] board_view(*board)[j][i] == lab[j][i],
            forall|i: int, j: int| in_bounds(b, i, j) && j < y
                ==> #[trigger] board_view(*board)[j][i] == (
                    if connected(b, seed.0, seed.1, i, j) { Cell::Floor } else { Cell::Wall }),
        decreases size - y,
    {
        let mut x: usize = 0;
        while x < size
            invariant
                b == board_view(*old(board)),
                board_ok(b),
                floor_wall_only(b),
                size == b.len(),
                y < size,
                x <= size,
                board_view(*board).len() == size,
                board_ok(board_view(*board)),
                zone_is_component(b, lab, max_idx as int, seed.0, seed.1),
                lab.len() == size,
                is_square(lab),
                forall|i: int, j: int| in_bounds(b, i, j)
                    ==> !((#[trigger] lab[j][i]) is Floor),
                forall|i: int, j: int| in_bounds(b, i, j) && (#[trigger] b[j][i]) is Wall
                    ==> lab[j][i] == b[j][i],
                forall|i: int, j: int| in_bounds(b, i, j) && (j > y || (j == y && i >= x))
                    ==> #[trigger] board_view(*board)[j][i] == lab[j][i],
                forall|i: int, j: int| in_bounds(b, i, j) && (j < y || (j == y && i < x))
                    ==> #[trigger] board_view(*board)[j][i] == (
                        if connected(b, seed.0, seed.1, i, j) { Cell::Floor } else { Cell::Wall }),
            decreases size - x,
        {
            proof {
                assert(board_view(*board)[y as int] == board@[y as int]@);
                assert(board_view(*board)[y as int][x as int] == lab[y as int][x as int]);
            }
            let cell = board[y][x];
            let new_cell = match cell {
                Cell::Zone(z) => {
                    if z == max_idx as u32 {
                        Cell::Floor
                    } else {
                        Cell::Wall
                    }
                },
                _ => Cell::Wall,
            };
            proof {
                if lab[y as int][x as int] == Cell::Zone(max_idx as u32) {
                    assert(connected(b, seed.0, seed.1, x as int, y as int));
                    assert(new_cell == Cell::Floor);
                } else {
                    assert(!connected(b, seed.0, seed.1, x as int, y as int));
                    assert(new_cell == Cell::Wall);
                }
            }
            set_cell(board, x, y, new_cell);
            x += 1;
        }
        y += 1;
    }
    proof {
        let b2 = board_view(*board);
        assert(has_cell(b, Cell::Floor)) by {
            assert(in_bounds(b, seed.0, seed.1) && b[seed.1][seed.0] == Cell::Floor);
        }
        assert forall|i: int, j: int| in_bounds(b, i, j)
            implies (((#[trigger] b2[j][i]) is Floor) <==> connected(b, seed.0, seed.1, i, j)) by {
        }
        // The kept floor cells all connect to the seed inside the reduced
        // board itself, so they form one component.
        lemma_connected_refl(b, seed.0, seed.1);
        assert(b2[seed.1][seed.0] is Floor);
        assert(has_cell(b2, Cell::Floor)) by {
            assert(in_bounds(b2, seed.0, seed.1) && b2[seed.1][seed.0] == Cell::Floor);
        }
        assert forall|x1: int, y1: int, x2: int, y2: int|
            in_bounds(b2, x1, y1) && in_bounds(b2, x2, y2)
            && #[trigger] b2[y1][x1] == Cell::Floor && #[trigger] b2[y2][x2] == Cell::Floor
            implies connected(b2, x1, y1, x2, y2) by {
            assert(connected(b, seed.0, seed.1, x1, y1));
            assert(connected(b, seed.0, seed.1, x2, y2));
            lemma_connected_transfer(b, b2, seed.0, seed.1, x1, y1);
            lemma_connected_transfer(b, b2, seed.0, seed.1, x2, y2);
            lemma_connected_sym(b2, seed.0, seed.1, x1, y1);
            lemma_connected_trans(b2, x1, y1, seed.0, seed.1, x2, y2);
        }
        assert(one_floor_component(b2));
        // The kept region is the largest: the reduced board is exactly the
        // component board of its seed, whose recorded size tops the list.
        assert(b2 =~~= component_board(b, seed.0, seed.1));
        assert(zone_count_ok(b, lab, cell_counts@, max_idx as int));
        let (mx, my) = choose|sx: int, sy: int|
            #[trigger] zone_is_component(b, lab, max_idx as int, sx, sy)
            && cell_counts@[max_idx as int] == grid_floors(component_board(b, sx, sy));
        assert(zone_is_component(b, lab, max_idx as int, mx, my));
        lemma_connected_refl(b, seed.0, seed.1);
        assert(lab[seed.1][seed.0] == Cell::Zone(max_idx as u32));
        assert(connected(b, mx, my, seed.0, seed.1));
        lemma_component_board_same(b, mx, my, seed.0, seed.1);
        assert(cell_counts@[max_idx as int] == grid_floors(b2));
        assert forall|tx: int, ty: int|
            in_bounds(b, tx, ty) && #[trigger] b[ty][tx] == Cell::Floor
            implies grid_floors(component_board(b, tx, ty)) <= grid_floors(b2) by {
            assert(!(lab[ty][tx] is Floor));
            assert(lab[ty][tx] == b[ty][tx] || lab[ty][tx] is Zone);
            assert(lab[ty][tx] is Zone);
            let z = lab[ty][tx]->Zone_0;
            assert((z as int) < cell_counts@.len());
            assert(zone_count_ok(b, lab, cell_counts@, z as int));
            let (zx, zy) = choose|sx: int, sy: int|
                #[trigger] zone_is_component(b, lab, z as int, sx, sy)
                && cell_counts@[z as int] == grid_floors(component_board(b, sx, sy));
            assert(zone_is_component(b, lab, z as int, zx, zy));
            assert(connected(b, zx, zy, tx, ty));
            lemma_component_board_same(b, zx, zy, tx, ty);
            assert(grid_floors(component_board(b, tx, ty)) == cell_counts@[z as int]);
            assert(cell_counts@[z as int] <= max_count);
            assert(max_count <= cell_counts@[max_idx as int]);
        }
        // First-discovered wins ties: every floor cell of a component as
        // large as the kept one lies at or after the kept seed in scan
        // order, so the kept component is the scan-first largest one.
        assert(cell_counts@[max_idx as int] <= max_count);
        assert(cell_counts@[max_idx as int] == max_count);
        assert forall|tx: int, ty: int|
            in_bounds(b, tx, ty) && #[trigger] b[ty][tx] == Cell::Floor
            && grid_floors(component_board(b, tx, ty)) == grid_floors(b2)
            implies !scan_before(tx, ty, seed.0, seed.1) by {
            assert(!(lab[ty][tx] is Floor));
            assert(lab[ty][tx] == b[ty][tx] || lab[ty][tx] is Zone);
            assert(lab[ty][tx] is Zone);
            let z = lab[ty][tx]->Zone_0;
            assert((z as int) < cell_counts@.len());
            let zs = zseeds[z as int];
            assert(zone_is_component(b, lab, z as int, zs.0, zs.1));
            assert(connected(b, zs.0, zs.1, tx, ty));
            lemma_component_board_same(b, zs.0, zs.1, tx, ty);
            assert(cell_counts@[z as int] == grid_floors(component_board(b, tx, ty)));
            assert(cell_counts@[z as int] == max_count);
            assert((z as int) >= max_idx as int) by {
                if (z as int) < max_idx as int {
                    assert(cell_counts@[z as int] < max_count);
                }
            }
            if (z as int) == max_idx as int {
                assert(!scan_before(tx, ty, seed.0, seed.1));
            } else {
                assert(scan_before(seed.0, seed.1, zs.0, zs.1));
                assert(!scan_before(tx, ty, zs.0, zs.1));
            }
        }
        assert(kept_seed(b, b2, seed.0, seed.1));
        assert(reduced_of(b, b2));
    }
}

} // verus!
