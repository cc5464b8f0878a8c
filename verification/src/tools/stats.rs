//! Aggregate statistics on the occurrences of one cell kind in a board.

use vstd::prelude::*;

use crate::base::{Board, Cell, board_ok, board_view, has_cell, in_bounds, scan_before};

verus! {

/// The set of positions (x, y) whose cell holds `c`.
pub open spec fn match_set(b: Seq<Seq<Cell>>, c: Cell) -> Set<(int, int)> {
    Set::new(|p: (int, int)| in_bounds(b, p.0, p.1) && b[p.1][p.0] == c)
}

/// (i, j) holds `c` and is scanned before the point (x, y) in row-major
/// order.
pub open spec fn scanned_match(b: Seq<Seq<Cell>>, c: Cell, x: int, y: int, i: int, j: int) -> bool {
    in_bounds(b, i, j) && scan_before(i, j, x, y) && b[j][i] == c
}

/// `p` gives, componentwise, the least x and the least y over the matches
/// scanned before (x, y).
pub open spec fn scan_min(b: Seq<Seq<Cell>>, c: Cell, x: int, y: int, p: (int, int)) -> bool {
    &&& exists|i: int, j: int| #[trigger] scanned_match(b, c, x, y, i, j) && i == p.0
    &&& exists|i: int, j: int| #[trigger] scanned_match(b, c, x, y, i, j) && j == p.1
    &&& forall|i: int, j: int| #[trigger] scanned_match(b, c, x, y, i, j) ==> i >= p.0 && j >= p.1
}

/// `p` gives, componentwise, the greatest x and the greatest y over the
/// matches scanned before (x, y).
pub open spec fn scan_max(b: Seq<Seq<Cell>>, c: Cell, x: int, y: int, p: (int, int)) -> bool {
    &&& exists|i: int, j: int| #[trigger] scanned_match(b, c, x, y, i, j) && i == p.0
    &&& exists|i: int, j: int| #[trigger] scanned_match(b, c, x, y, i, j) && j == p.1
    &&& forall|i: int, j: int| #[trigger] scanned_match(b, c, x, y, i, j) ==> i <= p.0 && j <= p.1
}

/// The lower corner of the bounding box of all cells holding `c`.
pub open spec fn min_corner(b: Seq<Seq<Cell>>, c: Cell, p: (int, int)) -> bool {
    scan_min(b, c, 0, b.len() as int, p)
}

/// The upper corner of the bounding box of all cells holding `c`.
pub open spec fn max_corner(b: Seq<Seq<Cell>>, c: Cell, p: (int, int)) -> bool {
    scan_max(b, c, 0, b.len() as int, p)
}

/// Scanning one more cell extends the running minimum componentwise.
proof fn lemma_min_extend(b: Seq<Seq<Cell>>, c: Cell, x: int, y: int, p: (int, int), np: (int, int))
    requires
        0 <= x < b.len(),
        0 <= y < b.len(),
        scan_min(b, c, x, y, p),
        b[y][x] == c ==> np == ((if x < p.0 { x } else { p.0 }), (if y < p.1 { y } else { p.1 })),
        b[y][x] != c ==> np == p,
    ensures
        scan_min(b, c, x + 1, y, np),
{
    let (i1, j1) = choose|i: int, j: int| #[trigger] scanned_match(b, c, x, y, i, j) && i == p.0;
    let (i2, j2) = choose|i: int, j: int| #[trigger] scanned_match(b, c, x, y, i, j) && j == p.1;
    assert(scanned_match(b, c, x + 1, y, i1, j1));
    assert(scanned_match(b, c, x + 1, y, i2, j2));
    if b[y][x] == c {
        assert(scanned_match(b, c, x + 1, y, x, y));
    }
    assert forall|i: int, j: int| #[trigger] scanned_match(b, c, x + 1, y, i, j)
        implies i >= np.0 && j >= np.1 by {
        if scan_before(i, j, x, y) {
            assert(scanned_match(b, c, x, y, i, j));
        } else {
            assert(i == x && j == y);
        }
    }
}

/// Scanning one more cell extends the running maximum componentwise.
proof fn lemma_max_extend(b: Seq<Seq<Cell>>, c: Cell, x: int, y: int, p: (int, int), np: (int, int))
    requires
        0 <= x < b.len(),
        0 <= y < b.len(),
        scan_max(b, c, x, y, p),
        b[y][x] == c ==> np == ((if x > p.0 { x } else { p.0 }), (if y > p.1 { y } else { p.1 })),
        b[y][x] != c ==> np == p,
    ensures
        scan_max(b, c, x + 1, y, np),
{
    let (i1, j1) = choose|i: int, j: int| #[trigger] scanned_match(b, c, x, y, i, j) && i == p.0;
    let (i2, j2) = choose|i: int, j: int| #[trigger] scanned_match(b, c, x, y, i, j) && j == p.1;
    assert(scanned_match(b, c, x + 1, y, i1, j1));
    assert(scanned_match(b, c, x + 1, y, i2, j2));
    if b[y][x] == c {
        assert(scanned_match(b, c, x + 1, y, x, y));
    }
    assert forall|i: int, j: int| #[trigger] scanned_match(b, c, x + 1, y, i, j)
        implies i <= np.0 && j <= np.1 by {
        if scan_before(i, j, x, y) {
            assert(scanned_match(b, c, x, y, i, j));
        } else {
            assert(i == x && j == y);
        }
    }
}

/// At the end of a row, the scan point wraps to the start of the next row
/// without changing the set of scanned cells.
proof fn lemma_scan_wrap(b: Seq<Seq<Cell>>, c: Cell, y: int)
    requires
        0 <= y < b.len(),
    ensures
        forall|i: int, j: int| #[trigger] scanned_match(b, c, b.len() as int, y, i, j)
            == scanned_match(b, c, 0, y + 1, i, j),
        forall|p: (int, int)| scan_min(b, c, b.len() as int, y, p) ==> scan_min(b, c, 0, y + 1, p),
        forall|p: (int, int)| scan_max(b, c, b.len() as int, y, p) ==> scan_max(b, c, 0, y + 1, p),
{
    let n = b.len() as int;
    assert forall|p: (int, int)| scan_min(b, c, n, y, p) implies scan_min(b, c, 0, y + 1, p) by {
        let (i1, j1) = choose|i: int, j: int| #[trigger] scanned_match(b, c, n, y, i, j) && i == p.0;
        let (i2, j2) = choose|i: int, j: int| #[trigger] scanned_match(b, c, n, y, i, j) && j == p.1;
        assert(scanned_match(b, c, 0, y + 1, i1, j1));
        assert(scanned_match(b, c, 0, y + 1, i2, j2));
        assert forall|i: int, j: int| #[trigger] scanned_match(b, c, 0, y + 1, i, j)
            implies i >= p.0 && j >= p.1 by {
            assert(scanned_match(b, c, n, y, i, j));
        }
    }
    assert forall|p: (int, int)| scan_max(b, c, n, y, p) implies scan_max(b, c, 0, y + 1, p) by {
        let (i1, j1) = choose|i: int, j: int| #[trigger] scanned_match(b, c, n, y, i, j) && i == p.0;
        let (i2, j2) = choose|i: int, j: int| #[trigger] scanned_match(b, c, n, y, i, j) && j == p.1;
        assert(scanned_match(b, c, 0, y + 1, i1, j1));
        assert(scanned_match(b, c, 0, y + 1, i2, j2));
        assert forall|i: int, j: int| #[trigger] scanned_match(b, c, 0, y + 1, i, j)
            implies i <= p.0 && j <= p.1 by {
            assert(scanned_match(b, c, n, y, i, j));
        }
    }
}

/// There is only one lower corner.
pub proof fn lemma_min_corner_unique(b: Seq<Seq<Cell>>, c: Cell, p1: (int, int), p2: (int, int))
    requires
        min_corner(b, c, p1),
        min_corner(b, c, p2),
    ensures
        p1 == p2,
{
}

/// There is only one upper corner.
pub proof fn lemma_max_corner_unique(b: Seq<Seq<Cell>>, c: Cell, p1: (int, int), p2: (int, int))
    requires
        max_corner(b, c, p1),
        max_corner(b, c, p2),
    ensures
        p1 == p2,
{
}

/// Aggregate information about the presence of one cell kind in a board.
#[derive(Clone, Copy, Debug)]
pub struct CellStats {
    /// Number of cells of the given kind in the board.
    pub count: usize,
    /// Lower corner of the rectangle containing all cells of the given
    /// kind, if any.
    pub min: Option<(usize, usize)>,
    /// Upper corner of that rectangle, if any.
    pub max: Option<(usize, usize)>,
    /// Extent of that rectangle, (0, 0) when there is no such cell.
    pub rank: (usize, usize),
}

/// Compute count, bounding box and bounding-box extent for the cells of a
/// board holding `cell`.
pub fn cell_stats(board: &Board, cell: Cell) -> (r: CellStats)
    requires
        board_ok(board_view(*board)),
    ensures
        ({
            let b = board_view(*board);
            &&& match_set(b, cell).finite()
            &&& r.count == match_set(b, cell).len()
            &&& (r.count == 0) == !has_cell(b, cell)
            &&& match r.min {
                Some(p) => min_corner(b, cell, (p.0 as int, p.1 as int)) && has_cell(b, cell),
                None => !has_cell(b, cell),
            }
            &&& match r.max {
                Some(p) => max_corner(b, cell, (p.0 as int, p.1 as int)) && has_cell(b, cell),
                None => !has_cell(b, cell),
            }
            &&& match (r.min, r.max) {
                (Some(mn), Some(mx)) => r.rank.0 == 1 + mx.0 - mn.0 && r.rank.1 == 1 + mx.1 - mn.1,
                _ => r.rank == (0usize, 0usize),
            }
        }),
{
    let ghost b = board_view(*board);
    let size = board.len();
    let mut count: usize = 0;
    let mut minv: Option<(usize, usize)> = None;
    let mut maxv: Option<(usize, usize)> = None;
    let ghost mut found: Set<(int, int)> = Set::empty();

    let mut y: usize = 0;
    while y < size
        invariant
            y <= size,
            size == b.len(),
            b == board_view(*board),
            board_ok(b),
            found == Set::new(|p: (int, int)| scanned_match(b, cell, 0, y as int, p.0, p.1)),
            found.finite(),
            count == found.len(),
            count <= y * size,
            (count == 0) == (minv is None),
            (minv is None) == (maxv is None),
            match minv {
                Some(p) => scan_min(b, cell, 0, y as int, (p.0 as int, p.1 as int))
                    && p.0 < size && p.1 < size,
                None => forall|i: int, j: int| !scanned_match(b, cell, 0, y as int, i, j),
            },
            match maxv {
                Some(p) => scan_max(b, cell, 0, y as int, (p.0 as int, p.1 as int))
                    && p.0 < size && p.1 < size,
                None => true,
            },
        decreases size - y,
    {
        let mut x: usize = 0;
        while x < size
            invariant
                y < size,
                x <= size,
                size == b.len(),
                b == board_view(*board),
                board_ok(b),
                found == Set::new(|p: (int, int)| scanned_match(b, cell, x as int, y as int, p.0, p.1)),
                found.finite(),
                count == found.len(),
                count <= y * size + x,
                (count == 0) == (minv is None),
                (minv is None) == (maxv is None),
                match minv {
                    Some(p) => scan_min(b, cell, x as int, y as int, (p.0 as int, p.1 as int))
                        && p.0 < size && p.1 < size,
                    None => forall|i: int, j: int| !scanned_match(b, cell, x as int, y as int, i, j),
                },
                match maxv {
                    Some(p) => scan_max(b, cell, x as int, y as int, (p.0 as int, p.1 as int))
                        && p.0 < size && p.1 < size,
                    None => true,
                },
            decreases size - x,
        {
            let ghost prev = found;
            proof {
                assert(b[y as int] == board@[y as int]@);
            }
            if board[y][x] == cell {
                proof {
                    assert(scanned_match(b, cell, x as int + 1, y as int, x as int, y as int));
                    assert(!prev.contains((x as int, y as int)));
                    found = prev.insert((x as int, y as int));
                    assert forall|p: (int, int)|
                        found.contains(p) == scanned_match(b, cell, x as int + 1, y as int, p.0, p.1) by {
                        if p != (x as int, y as int) && scanned_match(b, cell, x as int + 1, y as int, p.0, p.1) {
                            assert(scanned_match(b, cell, x as int, y as int, p.0, p.1));
                        }
                    }
                    assert(found =~= Set::new(
                        |p: (int, int)| scanned_match(b, cell, x as int + 1, y as int, p.0, p.1),
                    ));
                    assert(count < 65025) by (nonlinear_arith)
                        requires
                            count <= y * size + x,
                            x < size,
                            y < size,
                            size <= 255,
                    {
                    }
                    match minv {
                        Some(p) => lemma_min_extend(b, cell, x as int, y as int,
                            (p.0 as int, p.1 as int),
                            ((if (x as int) < p.0 as int { x as int } else { p.0 as int }),
                             (if (y as int) < p.1 as int { y as int } else { p.1 as int }))),
                        None => {
                            assert forall|i: int, j: int|
                                #[trigger] scanned_match(b, cell, x as int + 1, y as int, i, j)
                                implies i >= x as int && j >= y as int by {
                                if scan_before(i, j, x as int, y as int) {
                                    assert(scanned_match(b, cell, x as int, y as int, i, j));
                                }
                            }
                            assert(scan_min(b, cell, x as int + 1, y as int, (x as int, y as int)));
                        },
                    }
                    match maxv {
                        Some(p) => lemma_max_extend(b, cell, x as int, y as int,
                            (p.0 as int, p.1 as int),
                            ((if (x as int) > p.0 as int { x as int } else { p.0 as int }),
                             (if (y as int) > p.1 as int { y as int } else { p.1 as int }))),
                        None => {
                            assert(scan_max(b, cell, x as int + 1, y as int, (x as int, y as int)));
                        },
                    }
                }
                count += 1;
                minv = match minv {
                    Some(p) => {
                        let nx = if x < p.0 { x } else { p.0 };
                        let ny = if y < p.1 { y } else { p.1 };
                        Some((nx, ny))
                    },
                    None => Some((x, y)),
                };
                maxv = match maxv {
                    Some(p) => {
                        let nx = if x > p.0 { x } else { p.0 };
                        let ny = if y > p.1 { y } else { p.1 };
                        Some((nx, ny))
                    },
                    None => Some((x, y)),
                };
            } else {
                proof {
                    assert forall|p: (int, int)|
                        prev.contains(p) == scanned_match(b, cell, x as int + 1, y as int, p.0, p.1) by {
                        if scanned_match(b, cell, x as int + 1, y as int, p.0, p.1)
                            && !scan_before(p.0, p.1, x as int, y as int) {
                            assert(p == (x as int, y as int));
                        }
                    }
                    assert(found =~= Set::new(
                        |p: (int, int)| scanned_match(b, cell, x as int + 1, y as int, p.0, p.1),
                    ));
                    match minv {
                        Some(p) => lemma_min_extend(b, cell, x as int, y as int,
                            (p.0 as int, p.1 as int), (p.0 as int, p.1 as int)),
                        None => {
                            assert forall|i: int, j: int|
                                !(#[trigger] scanned_match(b, cell, x as int + 1, y as int, i, j)) by {
                                if scanned_match(b, cell, x as int + 1, y as int, i, j) {
                                    if scan_before(i, j, x as int, y as int) {
                                        assert(scanned_match(b, cell, x as int, y as int, i, j));
                                    } else {
                                        assert(i == x as int && j == y as int);
                                    }
                                }
                            }
                        },
                    }
                    match maxv {
                        Some(p) => lemma_max_extend(b, cell, x as int, y as int,
                            (p.0 as int, p.1 as int), (p.0 as int, p.1 as int)),
                        None => {},
                    }
                }
            }
            x += 1;
        }
        proof {
            lemma_scan_wrap(b, cell, y as int);
            assert(found =~= Set::new(
                |p: (int, int)| scanned_match(b, cell, 0, y as int + 1, p.0, p.1),
            ));
            assert(y * size + size <= (y + 1) * size) by (nonlinear_arith)
            {
            }
            match minv {
                Some(p) => {
                    assert(scan_min(b, cell, size as int, y as int, (p.0 as int, p.1 as int)));
                },
                None => {
                    assert forall|i: int, j: int|
                        !(#[trigger] scanned_match(b, cell, 0, y as int + 1, i, j)) by {
                        if scanned_match(b, cell, 0, y as int + 1, i, j) {
                            assert(scanned_match(b, cell, size as int, y as int, i, j));
                        }
                    }
                },
            }
        }
        y += 1;
    }
    proof {
        assert forall|p: (int, int)|
            found.contains(p) == match_set(b, cell).contains(p) by {
            if match_set(b, cell).contains(p) {
                assert(scanned_match(b, cell, 0, size as int, p.0, p.1));
            }
            if found.contains(p) {
                assert(scanned_match(b, cell, 0, size as int, p.0, p.1));
            }
        }
        assert(found =~= match_set(b, cell));
        match minv {
            Some(p) => {
                let (i1, j1) = choose|i: int, j: int|
                    #[trigger] scanned_match(b, cell, 0, size as int, i, j) && i == p.0 as int;
                assert(in_bounds(b, i1, j1) && b[j1][i1] == cell);
                assert(has_cell(b, cell));
                assert(found.contains((i1, j1)));
                if count == 0 {
                    assert(found =~= Set::<(int, int)>::empty());
                }
            },
            None => {
                if has_cell(b, cell) {
                    let (i, j) = choose|i: int, j: int|
                        in_bounds(b, i, j) && #[trigger] b[j][i] == cell;
                    assert(scanned_match(b, cell, 0, size as int, i, j));
                }
                assert(found =~= Set::<(int, int)>::empty());
            },
        }
    }
    let rank = match (minv, maxv) {
        (Some(mn), Some(mx)) => {
            proof {
                let (i1, j1) = choose|i: int, j: int|
                    #[trigger] scanned_match(b, cell, 0, size as int, i, j) && i == mx.0 as int;
                let (i2, j2) = choose|i: int, j: int|
                    #[trigger] scanned_match(b, cell, 0, size as int, i, j) && j == mx.1 as int;
            }
            (1 + mx.0 - mn.0, 1 + mx.1 - mn.1)
        },
        _ => (0, 0),
    };
    CellStats { count, min: minv, max: maxv, rank }
}

} // verus!
