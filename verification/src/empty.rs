//! Creation of valid empty boards of a given size, one by one, reduced to
//! a single floor region and deduplicated under symmetry. See [`Maker`].

use vstd::prelude::*;

use crate::base::{Board, Cell, board_ok, board_view, has_cell, in_bounds};
use crate::filter;
use crate::tools::fill;
use crate::tools::fill::{floor_wall_only, one_floor_component};
use crate::tools::stats;
use crate::tools::stats::{
    CellStats, lemma_max_corner_unique, lemma_min_corner_unique, match_set, max_corner, min_corner,
};

verus! {

/// The cell that a seed number assigns to (x, y): bit y*size+x picks floor
/// or wall.
pub open spec fn seed_cell(seed: u64, size: int, x: int, y: int) -> Cell {
    if (seed >> ((y * size + x) as u64)) & 1 == 1 {
        Cell::Floor
    } else {
        Cell::Wall
    }
}

/// The raw grid that a seed number encodes, before reduction.
pub open spec fn seed_grid(seed: u64, size: int) -> Seq<Seq<Cell>> {
    Seq::new(
        size as nat,
        |y: int| Seq::new(size as nat, |x: int| seed_cell(seed, size, x, y)),
    )
}

/// The shape checks on a reduced board for the single-shot maker: at least
/// three floor cells, at least one wall cell, and a floor bounding box that
/// comes within one cell of both extreme corners.
pub open spec fn valid_stats_spec(b: Seq<Seq<Cell>>) -> bool {
    &&& b.len() >= 2
    &&& match_set(b, Cell::Floor).len() >= 3
    &&& match_set(b, Cell::Wall).len() >= 1
    &&& exists|mn: (int, int)| #[trigger] min_corner(b, Cell::Floor, mn) && mn.0 <= 1 && mn.1 <= 1
    &&& exists|mx: (int, int)| #[trigger] max_corner(b, Cell::Floor, mx)
        && mx.0 >= b.len() - 2 && mx.1 >= b.len() - 2
}

/// Returns true if the stats have bounds and they contain the square
/// delimited by x, y between `min` and `max`.
fn check_limits(stats: CellStats, min: usize, max: usize) -> (r: bool)
    ensures
        r == ({
            &&& stats.min matches Some(mn) && mn.0 <= min && mn.1 <= min
            &&& stats.max matches Some(mx) && mx.0 >= max && mx.1 >= max
        }),
{
    if let (Some(stats_min), Some(stats_max)) = (stats.min, stats.max) {
        stats_min.0 <= min && stats_min.1 <= min && stats_max.0 >= max && stats_max.1 >= max
    } else {
        false
    }
}

/// Compute floor and wall statistics for the board and check that they are
/// within the ranges a playable empty board needs.
fn valid_stats(board: &Board) -> (r: bool)
    requires
        board_ok(board_view(*board)),
    ensures
        r == valid_stats_spec(board_view(*board)),
{
    let ghost b = board_view(*board);
    let size = board.len();
    if size < 2 {
        return false;
    }
    let floor_stats = stats::cell_stats(board, Cell::Floor);
    let wall_stats = stats::cell_stats(board, Cell::Wall);
    if floor_stats.count < 3 || wall_stats.count < 1 {
        return false;
    }
    let r = check_limits(floor_stats, 1, size - 2);
    proof {
        if r {
            let mn = floor_stats.min.unwrap();
            let mx = floor_stats.max.unwrap();
            assert(min_corner(b, Cell::Floor, (mn.0 as int, mn.1 as int)));
            assert(max_corner(b, Cell::Floor, (mx.0 as int, mx.1 as int)));
        } else {
            let mn = floor_stats.min.unwrap();
            let mx = floor_stats.max.unwrap();
            if exists|p: (int, int)| #[trigger] min_corner(b, Cell::Floor, p)
                && p.0 <= 1 && p.1 <= 1 {
                let p = choose|p: (int, int)| #[trigger] min_corner(b, Cell::Floor, p)
                    && p.0 <= 1 && p.1 <= 1;
                lemma_min_corner_unique(b, Cell::Floor, p, (mn.0 as int, mn.1 as int));
            }
            if exists|p: (int, int)| #[trigger] max_corner(b, Cell::Floor, p)
                && p.0 >= b.len() - 2 && p.1 >= b.len() - 2 {
                let p = choose|p: (int, int)| #[trigger] max_corner(b, Cell::Floor, p)
                    && p.0 >= b.len() - 2 && p.1 >= b.len() - 2;
                lemma_max_corner_unique(b, Cell::Floor, p, (mx.0 as int, mx.1 as int));
            }
        }
    }
    r
}

/// Makes all unique empty boards of the given size, smallest seed first.
pub struct Maker {
    /// Next value used to determine the pattern of floor and wall tiles.
    seed: u64,
    /// Number of rows (or columns) in each board.
    size: usize,
    /// Total number of floor and wall combinations for this board size.
    combinations: u64,
    /// Used to remove duplicates under symmetry.
    filter: filter::Symmetries,
}

impl Maker {
    /// Internal consistency of the maker's state.
    pub closed spec fn wf(&self) -> bool {
        &&& self.size <= 7
        &&& self.combinations == (1u64 << ((self.size * self.size) as u64))
        &&& self.seed <= self.combinations
        &&& self.filter.wf()
    }

    /// All seeds have been tried.
    pub closed spec fn done(&self) -> bool {
        self.seed == self.combinations
    }

    /// The board size this maker enumerates for.
    pub closed spec fn board_size(&self) -> usize {
        self.size
    }

    /// The next seed the maker will try.
    pub closed spec fn next_seed(&self) -> u64 {
        self.seed
    }

    /// The total number of seeds for this size.
    pub closed spec fn seed_count(&self) -> u64 {
        self.combinations
    }

    /// The filter has already handed out this board or one of its
    /// symmetries.
    pub closed spec fn seen(&self, bv: Seq<Seq<Cell>>) -> bool {
        self.filter.seen(bv)
    }

    /// Returns a new Maker for the given board size.
    pub fn new(size: usize) -> (r: Maker)
        requires
            size <= 7,
        ensures
            r.wf(),
            !r.done(),
            forall|t: Seq<Seq<Cell>>| !r.seen(t),
    {
        proof {
            assert(size * size <= 49) by (nonlinear_arith)
                requires size <= 7,
            {
            }
            assert(1u64 << ((size * size) as u64) >= 1) by (bit_vector)
                requires (size * size) as u64 <= 49,
            {
            }
        }
        Maker {
            seed: 0,
            size,
            combinations: 1u64 << ((size * size) as u64),
            filter: filter::Symmetries::new(),
        }
    }

    /// Converts the current seed into a grid of floor and wall cells; the
    /// full set of seeds covers all possible combinations.
    fn make_board(&self) -> (r: Board)
        requires
            self.wf(),
        ensures
            board_ok(board_view(r)),
            board_view(r).len() == self.size,
            floor_wall_only(board_view(r)),
            forall|x: int, y: int| in_bounds(board_view(r), x, y)
                ==> #[trigger] board_view(r)[y][x] == seed_cell(self.seed, self.size as int, x, y),
    {
        let size = self.size;
        let seed = self.seed;
        let mut board: Board = Vec::new();
        let mut y: usize = 0;
        while y < size
            invariant
                size <= 7,
                board@.len() == y,
                y <= size,
                forall|j: int| 0 <= j < y ==> (#[trigger] board@[j])@.len() == size,
                forall|i: int, j: int| 0 <= j < y && 0 <= i < size
                    ==> #[trigger] board@[j]@[i] == seed_cell(seed, size as int, i, j),
            decreases size - y,
        {
            let mut row: Vec<Cell> = Vec::new();
            let mut x: usize = 0;
            while x < size
                invariant
                    size <= 7,
                    y < size,
                    row@.len() == x,
                    x <= size,
                    forall|i: int| 0 <= i < x
                        ==> #[trigger] row@[i] == seed_cell(seed, size as int, i, y as int),
                decreases size - x,
            {
                proof {
                    assert(y * size + x < 49) by (nonlinear_arith)
                        requires y < size && x < size && size <= 7,
                    {
                    }
                }
                let index = y * size + x;
                let mask = (seed >> (index as u64)) & 1;
                let cell = if mask == 1 {
                    Cell::Floor
                } else {
                    Cell::Wall
                };
                row.push(cell);
                x += 1;
            }
            board.push(row);
            y += 1;
        }
        proof {
            assert forall|x: int, yy: int| in_bounds(board_view(board), x, yy)
                implies #[trigger] board_view(board)[yy][x]
                    == seed_cell(seed, size as int, x, yy) by {
                assert(board_view(board)[yy] == board@[yy]@);
            }
            assert forall|j: int| 0 <= j < board_view(board).len()
                implies (#[trigger] board_view(board)[j]).len() == board_view(board).len() by {
                assert(board_view(board)[j] == board@[j]@);
            }
        }
        board
    }

    /// Hand out the next valid empty board, or `None` when the seeds are
    /// exhausted. Every board handed out is the reduction of the least
    /// seed that passes the shape checks and is new to this maker's
    /// filter; skipped seeds reduce to boards that fail the checks or
    /// repeat an already-seen layout, so no board is ever passed over.
    pub fn next_board(&mut self) -> (r: Option<Board>)
        requires
            old(self).wf(),
        ensures
            final(self).wf(),
            final(self).board_size() == old(self).board_size(),
            final(self).seed_count() == old(self).seed_count(),
            match r {
                Some(b) => ({
                    let bv = board_view(b);
                    &&& board_ok(bv)
                    &&& floor_wall_only(bv)
                    &&& bv.len() >= 2
                    &&& bv.len() == old(self).board_size()
                    &&& valid_stats_spec(bv)
                    &&& one_floor_component(bv)
                    &&& !old(self).seen(bv)
                    &&& forall|t: Seq<Seq<Cell>>| final(self).seen(t)
                        == (old(self).seen(t)
                            || crate::tools::symmetry::orbit_view(bv).contains(t))
                    &&& old(self).next_seed() < final(self).next_seed() <= old(self).seed_count()
                    &&& fill::reduced_of(
                        seed_grid(
                            (final(self).next_seed() - 1) as u64,
                            old(self).board_size() as int,
                        ),
                        bv,
                    )
                    &&& forall|s: u64, rr: Seq<Seq<Cell>>|
                        old(self).next_seed() <= s < final(self).next_seed() - 1
                        && #[trigger] fill::reduced_of(
                            seed_grid(s, old(self).board_size() as int), rr,
                        ) ==> !valid_stats_spec(rr) || old(self).seen(rr)
                }),
                None => ({
                    &&& final(self).done()
                    &&& forall|t: Seq<Seq<Cell>>| final(self).seen(t) == old(self).seen(t)
                    &&& forall|s: u64, rr: Seq<Seq<Cell>>|
                        old(self).next_seed() <= s < old(self).seed_count()
                        && #[trigger] fill::reduced_of(
                            seed_grid(s, old(self).board_size() as int), rr,
                        ) ==> !valid_stats_spec(rr) || old(self).seen(rr)
                }),
            },
    {
        while self.seed < self.combinations
            invariant
                self.wf(),
                self.size == old(self).size,
                self.combinations == old(self).combinations,
                old(self).seed <= self.seed,
                forall|t: Seq<Seq<Cell>>| old(self).seen(t) ==> self.seen(t),
                forall|t: Seq<Seq<Cell>>| self.seen(t) ==> old(self).seen(t),
                forall|s: u64, rr: Seq<Seq<Cell>>| old(self).seed <= s < self.seed
                    && #[trigger] fill::reduced_of(seed_grid(s, self.size as int), rr)
                    ==> !valid_stats_spec(rr) || old(self).seen(rr),
            decreases self.combinations - self.seed,
        {
            let ghost cur_seed = self.seed;
            let mut board = self.make_board();
            proof {
                assert(board_view(board) =~~= seed_grid(cur_seed, self.size as int));
            }
            let ghost braw = board_view(board);
            fill::remove_components(&mut board);
            self.seed += 1;
            let accepted = valid_stats(&board);
            proof {
                if !accepted {
                    // The reducer is deterministic, so this seed admits no
                    // other outcome that would pass the shape checks.
                    assert forall|rr: Seq<Seq<Cell>>|
                        #[trigger] fill::reduced_of(seed_grid(cur_seed, self.size as int), rr)
                        implies !valid_stats_spec(rr) || old(self).seen(rr) by {
                        fill::lemma_reduced_unique(braw, rr, board_view(board));
                    }
                }
            }
            if accepted {
                proof {
                    if !has_cell(braw, Cell::Floor) {
                        assert(board_view(board) == braw);
                        assert forall|p: (int, int)|
                            !(#[trigger] match_set(braw, Cell::Floor).contains(p)) by {
                            if match_set(braw, Cell::Floor).contains(p) {
                                assert(in_bounds(braw, p.0, p.1)
                                    && braw[p.1][p.0] == Cell::Floor);
                                assert(has_cell(braw, Cell::Floor));
                            }
                        }
                        assert(match_set(braw, Cell::Floor) =~= Set::<(int, int)>::empty());
                    }
                    assert(one_floor_component(board_view(board)));
                }
                if self.filter.accept(&board) {
                    return Some(board);
                }
                proof {
                    // The board was already seen, and the reducer is
                    // deterministic, so this seed repeats a known layout.
                    assert(old(self).seen(board_view(board)));
                    assert forall|rr: Seq<Seq<Cell>>|
                        #[trigger] fill::reduced_of(seed_grid(cur_seed, self.size as int), rr)
                        implies !valid_stats_spec(rr) || old(self).seen(rr) by {
                        fill::lemma_reduced_unique(braw, rr, board_view(board));
                    }
                }
            }
        }
        None
    }
}

} // verus!
