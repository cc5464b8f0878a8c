//! Creation of valid empty boards: an exhaustive maker that enumerates
//! every seed, and a randomized maker that samples seeds.

use vstd::prelude::*;

use crate::base::{
    BaseIter, Board, BoardIter, Cell, WrapperIter, board_ok, board_view, copy_board, has_cell,
    in_bounds, lemma_reaches_front, lemma_reaches_none, reaches,
};
use crate::iters::filter::Symmetries;
use crate::play::playable;
use crate::rng::rand_u128_below;
use crate::tools::fill;
use crate::tools::fill::{
    floor_wall_only, has_zone_seed, one_floor_component, zone_is_component, zone_seeds_ok,
};
use crate::tools::stats;
use crate::tools::stats::{
    CellStats, lemma_max_corner_unique, lemma_min_corner_unique, match_set, max_corner, min_corner,
};

verus! {

/// The cell that a seed number assigns to (x, y): bit y*size+x picks floor
/// or wall.
pub open spec fn seed_cell(seed: u128, size: int, x: int, y: int) -> Cell {
    if (seed >> ((y * size + x) as u128)) & 1 == 1 {
        Cell::Floor
    } else {
        Cell::Wall
    }
}

/// The raw grid that a seed number encodes, before reduction.
pub open spec fn seed_grid(seed: u128, size: int) -> Seq<Seq<Cell>> {
    Seq::new(
        size as nat,
        |y: int| Seq::new(size as nat, |x: int| seed_cell(seed, size, x, y)),
    )
}

/// Seed s is rejected: reducing its raw grid cannot produce a board that
/// passes the validity checks.
pub open spec fn seed_rejected(s: u128, size: int) -> bool {
    forall|r: Seq<Seq<Cell>>| #[trigger] fill::reduced_of(seed_grid(s, size), r)
        ==> !valid_board_spec(r)
}

/// The checks a reduced board must pass to be handed out: one floor
/// region, at least two floor cells, at least one wall cell, and a floor
/// bounding box within one cell of both extreme corners.
pub open spec fn valid_board_spec(b: Seq<Seq<Cell>>) -> bool {
    &&& b.len() >= 2
    &&& one_floor_component(b)
    &&& match_set(b, Cell::Floor).len() >= 2
    &&& match_set(b, Cell::Wall).len() >= 1
    &&& exists|mn: (int, int)| #[trigger] min_corner(b, Cell::Floor, mn) && mn.0 <= 1 && mn.1 <= 1
    &&& exists|mx: (int, int)| #[trigger] max_corner(b, Cell::Floor, mx)
        && mx.0 >= b.len() - 2 && mx.1 >= b.len() - 2
}

/// A board of floor and wall cells only is fit for play: it has no piece
/// and no transient label.
pub proof fn lemma_floor_wall_playable(b: Seq<Seq<Cell>>)
    requires
        board_ok(b),
        floor_wall_only(b),
    ensures
        playable(b),
{
    assert forall|i: int, j: int| in_bounds(b, i, j)
        implies !((#[trigger] b[j][i]) is Piece) && !(b[j][i] is Zone) by {
        assert(b[j][i] is Floor || b[j][i] is Wall);
    }
}

/// Returns true if the stats have bounds and they contain the square
/// delimited by x, y between `min` and `max`.
fn check_limits(stats: CellStats, min: usize, max: usize) -> (r: bool)
    ensures
        r == ({
            &&& stats.min matches Some(mn) && mn.0 <= min && mn.1 <= min
            &&& stats.max matches Some(mx) && mx.0 >= max && mx.1 >= max
        }),
{
    if let (Some(stats_min), Some(stats_max)) = (stats.min, stats.max) {
        stats_min.0 <= min && stats_min.1 <= min && stats_max.0 >= max && stats_max.1 >= max
    } else {
        false
    }
}

/// One floor cell per 4-connected component: the cells are pairwise
/// disconnected and every floor cell connects to one of them. A list of
/// such representatives has exactly one entry per component.
pub open spec fn component_reps(b: Seq<Seq<Cell>>, seeds: Seq<(int, int)>) -> bool {
    &&& forall|k: int| 0 <= k < seeds.len() ==> in_bounds(b, (#[trigger] seeds[k]).0, seeds[k].1)
        && b[seeds[k].1][seeds[k].0] is Floor
    &&& forall|k1: int, k2: int| 0 <= k1 < k2 < seeds.len() ==> !fill::connected(
        b, (#[trigger] seeds[k1]).0, seeds[k1].1, (#[trigger] seeds[k2]).0, seeds[k2].1,
    )
    &&& forall|i: int, j: int| in_bounds(b, i, j) && (#[trigger] b[j][i]) is Floor
        ==> exists|k: int| 0 <= k < seeds.len()
            && fill::connected(b, (#[trigger] seeds[k]).0, seeds[k].1, i, j)
}

/// The labeling's discovery seeds are one representative per component:
/// pairwise disconnected, covering every floor cell.
#[verifier::rlimit(100)]
proof fn lemma_label_reps(
    b: Seq<Seq<Cell>>, b2: Seq<Seq<Cell>>, counts: Seq<usize>, zs: Seq<(int, int)>,
)
    requires
        zone_seeds_ok(b, b2, counts, zs),
        counts.len() <= 65025,
        forall|i: int, j: int| in_bounds(b, i, j) ==> !((#[trigger] b2[j][i]) is Floor),
        forall|i: int, j: int| in_bounds(b, i, j)
            ==> ((#[trigger] b2[j][i]) == b[j][i] || b2[j][i] is Zone),
        forall|i: int, j: int| in_bounds(b, i, j)
            ==> ((#[trigger] b2[j][i]) matches Cell::Zone(z) ==> (z as int) < counts.len()),
    ensures
        component_reps(b, zs),
        zs.len() == counts.len(),
{
    assert forall|k1: int, k2: int| 0 <= k1 < k2 < zs.len()
        implies !fill::connected(
            b, (#[trigger] zs[k1]).0, zs[k1].1, (#[trigger] zs[k2]).0, zs[k2].1,
        ) by {
        assert(zone_is_component(b, b2, k1, zs[k1].0, zs[k1].1));
        assert(zone_is_component(b, b2, k2, zs[k2].0, zs[k2].1));
        if fill::connected(b, zs[k1].0, zs[k1].1, zs[k2].0, zs[k2].1) {
            assert(b2[zs[k2].1][zs[k2].0] == Cell::Zone(k1 as u32));
            fill::lemma_connected_refl(b, zs[k2].0, zs[k2].1);
            assert(b2[zs[k2].1][zs[k2].0] == Cell::Zone(k2 as u32));
        }
    }
    assert forall|i: int, j: int| in_bounds(b, i, j) && (#[trigger] b[j][i]) is Floor
        implies exists|k: int| 0 <= k < zs.len()
            && fill::connected(b, (#[trigger] zs[k]).0, zs[k].1, i, j) by {
        assert(!(b2[j][i] is Floor));
        assert(b2[j][i] == b[j][i] || b2[j][i] is Zone);
        assert(b2[j][i] is Zone);
        let z = b2[j][i]->Zone_0;
        assert((z as int) < counts.len());
        assert(zone_is_component(b, b2, z as int, zs[z as int].0, zs[z as int].1));
        assert(fill::connected(b, zs[z as int].0, zs[z as int].1, i, j));
    }
    assert forall|k: int| 0 <= k < zs.len()
        implies in_bounds(b, (#[trigger] zs[k]).0, zs[k].1)
            && b[zs[k].1][zs[k].0] is Floor by {
        assert(zone_is_component(b, b2, k, zs[k].0, zs[k].1));
    }
}

/// Count the 4-connected floor components of the board.
#[verifier::rlimit(60)]
fn count_connected_components(board: &Board) -> (r: usize)
    requires
        board_ok(board_view(*board)),
        floor_wall_only(board_view(*board)),
    ensures
        (r == 1) == one_floor_component(board_view(*board)),
        (r == 0) == !has_cell(board_view(*board), Cell::Floor),
        exists|seeds: Seq<(int, int)>|
            #![trigger seeds.len()]
            seeds.len() == r && component_reps(board_view(*board), seeds),
{
    let ghost b = board_view(*board);
    let mut dummy = copy_board(board);
    let counts = fill::connected_components(&mut dummy);
    proof {
        let b2 = board_view(dummy);
        let n = counts@.len() as int;
        if n == 1 {
            assert(has_zone_seed(b, b2, 0));
            let (sx, sy) = choose|sx: int, sy: int| #[trigger] zone_is_component(b, b2, 0, sx, sy);
            assert(zone_is_component(b, b2, 0, sx, sy));
            assert(has_cell(b, Cell::Floor)) by {
                assert(in_bounds(b, sx, sy) && b[sy][sx] == Cell::Floor);
            }
            assert forall|x1: int, y1: int, x2: int, y2: int|
                in_bounds(b, x1, y1) && in_bounds(b, x2, y2)
                && #[trigger] b[y1][x1] == Cell::Floor && #[trigger] b[y2][x2] == Cell::Floor
                implies fill::connected(b, x1, y1, x2, y2) by {
                assert(!(b2[y1][x1] is Floor));
                assert(b2[y1][x1] == b[y1][x1] || b2[y1][x1] is Zone);
                assert(b2[y1][x1] matches Cell::Zone(z1) && (z1 as int) < 1);
                assert(b2[y1][x1] == Cell::Zone(0u32));
                assert(fill::connected(b, sx, sy, x1, y1));
                assert(b2[y2][x2] == Cell::Zone(0u32)) by {
                    assert(b2[y2][x2] matches Cell::Zone(z2) && (z2 as int) < 1);
                }
                fill::lemma_connected_sym(b, sx, sy, x1, y1);
                fill::lemma_connected_trans(b, x1, y1, sx, sy, x2, y2);
            }
            assert(one_floor_component(b));
        }
        if n != 1 && has_cell(b, Cell::Floor) {
            // With no zones there is no floor; with two zones their seeds
            // are floor cells of different components.
            assert(n != 0 ==> n >= 2);
            if n >= 2 {
                assert(has_zone_seed(b, b2, 0));
                assert(has_zone_seed(b, b2, 1));
                let (s0x, s0y) = choose|sx: int, sy: int|
                    #[trigger] zone_is_component(b, b2, 0, sx, sy);
                let (s1x, s1y) = choose|sx: int, sy: int|
                    #[trigger] zone_is_component(b, b2, 1, sx, sy);
                assert(zone_is_component(b, b2, 0, s0x, s0y));
                assert(zone_is_component(b, b2, 1, s1x, s1y));
                fill::lemma_connected_refl(b, s1x, s1y);
                assert(b2[s1y][s1x] == Cell::Zone(1u32));
                if one_floor_component(b) {
                    assert(b[s0y][s0x] == Cell::Floor && b[s1y][s1x] == Cell::Floor);
                    assert(fill::connected(b, s0x, s0y, s1x, s1y));
                    assert(b2[s1y][s1x] == Cell::Zone(0u32));
                }
                assert(!one_floor_component(b));
            }
        }
        // The labeling's seeds witness one representative per component.
        let zs = choose|seeds: Seq<(int, int)>| #[trigger] zone_seeds_ok(b, b2, counts@, seeds);
        lemma_label_reps(b, b2, counts@, zs);
        assert(zs.len() == counts@.len() && component_reps(b, zs));
    }
    counts.len()
}

/// Calculates various stats for the given board and checks that they are
/// within the desired ranges.
#[verifier::rlimit(60)]
fn valid_board(board: &Board) -> (r: bool)
    requires
        board_ok(board_view(*board)),
        floor_wall_only(board_view(*board)),
    ensures
        r == valid_board_spec(board_view(*board)),
{
    let ghost b = board_view(*board);
    let size = board.len();
    if size < 2 {
        return false;
    }
    if count_connected_components(board) != 1 {
        return false;
    }
    let floor_stats = stats::cell_stats(board, Cell::Floor);
    let wall_stats = stats::cell_stats(board, Cell::Wall);
    if floor_stats.count < 2 || wall_stats.count < 1 {
        return false;
    }
    let r = check_limits(floor_stats, 1, size - 2);
    proof {
        if r {
            let mn = floor_stats.min.unwrap();
            let mx = floor_stats.max.unwrap();
            assert(min_corner(b, Cell::Floor, (mn.0 as int, mn.1 as int)));
            assert(max_corner(b, Cell::Floor, (mx.0 as int, mx.1 as int)));
        } else {
            let mn = floor_stats.min.unwrap();
            let mx = floor_stats.max.unwrap();
            if exists|p: (int, int)| #[trigger] min_corner(b, Cell::Floor, p)
                && p.0 <= 1 && p.1 <= 1 {
                let p = choose|p: (int, int)| #[trigger] min_corner(b, Cell::Floor, p)
                    && p.0 <= 1 && p.1 <= 1;
                lemma_min_corner_unique(b, Cell::Floor, p, (mn.0 as int, mn.1 as int));
            }
            if exists|p: (int, int)| #[trigger] max_corner(b, Cell::Floor, p)
                && p.0 >= b.len() - 2 && p.1 >= b.len() - 2 {
                let p = choose|p: (int, int)| #[trigger] max_corner(b, Cell::Floor, p)
                    && p.0 >= b.len() - 2 && p.1 >= b.len() - 2;
                lemma_max_corner_unique(b, Cell::Floor, p, (mx.0 as int, mx.1 as int));
            }
        }
    }
    r
}

/// Build the raw board that a seed encodes.
fn make_board(size: u8, seed: u128) -> (r: Board)
    requires
        size <= 11,
    ensures
        board_ok(board_view(r)),
        board_view(r).len() == size,
        floor_wall_only(board_view(r)),
        forall|x: int, y: int| in_bounds(board_view(r), x, y)
            ==> #[trigger] board_view(r)[y][x] == seed_cell(seed, size as int, x, y),
{
    let size = size as usize;
    let mut board: Board = Vec::new();
    let mut y: usize = 0;
    while y < size
        invariant
            size <= 11,
            board@.len() == y,
            y <= size,
            forall|j: int| 0 <= j < y ==> (#[trigger] board@[j])@.len() == size,
            forall|i: int, j: int| 0 <= j < y && 0 <= i < size
                ==> #[trigger] board@[j]@[i] == seed_cell(seed, size as int, i, j),
        decreases size - y,
    {
        let mut row: Vec<Cell> = Vec::new();
        let mut x: usize = 0;
        while x < size
            invariant
                size <= 11,
                y < size,
                row@.len() == x,
                x <= size,
                forall|i: int| 0 <= i < x
                    ==> #[trigger] row@[i] == seed_cell(seed, size as int, i, y as int),
            decreases size - x,
        {
            proof {
                assert(y * size + x < 121) by (nonlinear_arith)
                    requires y < size && x < size && size <= 11,
                {
                }
            }
            let index = y * size + x;
            let mask = (seed >> (index as u128)) & 1;
            let cell = if mask == 1 {
                Cell::Floor
            } else {
                Cell::Wall
            };
            row.push(cell);
            x += 1;
        }
        board.push(row);
        y += 1;
    }
    proof {
        assert forall|x: int, yy: int| in_bounds(board_view(board), x, yy)
            implies #[trigger] board_view(board)[yy][x] == seed_cell(seed, size as int, x, yy) by {
            assert(board_view(board)[yy] == board@[yy]@);
        }
        assert forall|j: int| 0 <= j < board_view(board).len()
            implies (#[trigger] board_view(board)[j]).len() == board_view(board).len() by {
            assert(board_view(board)[j] == board@[j]@);
        }
    }
    board
}

/// Makes all valid empty boards of the given size, smallest seed first.
pub struct SerialMaker {
    /// Next seed to try.
    seed: u128,
    /// Number of rows (or columns) in each board.
    size: u8,
    /// Total number of floor and wall combinations for this board size.
    combinations: u128,
}

impl BoardIter for SerialMaker {
    closed spec fn wf(&self) -> bool {
        &&& self.size <= 11
        &&& self.combinations == (1u128 << (((self.size as int) * (self.size as int)) as u128))
        &&& self.seed <= self.combinations
        &&& self.combinations >= 1
    }

    closed spec fn fuel(&self) -> nat {
        (self.combinations - self.seed) as nat
    }

    closed spec fn yields(&self, post: Self, b: Seq<Seq<Cell>>) -> bool {
        &&& self.wf()
        &&& board_ok(b)
        &&& floor_wall_only(b)
        &&& valid_board_spec(b)
        &&& b.len() == self.size
        &&& post.size == self.size
        &&& post.combinations == self.combinations
        &&& self.seed < post.seed <= self.combinations
        &&& fill::reduced_of(seed_grid((post.seed - 1) as u128, self.size as int), b)
        &&& forall|s: u128| self.seed <= s < post.seed - 1
            ==> #[trigger] seed_rejected(s, self.size as int)
    }

    closed spec fn ends(&self, post: Self) -> bool {
        &&& post.size == self.size
        &&& post.combinations == self.combinations
        &&& self.seed <= post.seed
        &&& post.seed == post.combinations
        &&& forall|s: u128| self.seed <= s < self.combinations
            ==> #[trigger] seed_rejected(s, self.size as int)
    }

    fn next_board(&mut self) -> (r: Option<Board>)
    {
        while self.seed < self.combinations
            invariant
                self.wf(),
                self.size == old(self).size,
                old(self).seed <= self.seed,
                old(self).wf(),
                self.combinations == old(self).combinations,
                forall|s: u128| old(self).seed <= s < self.seed
                    ==> #[trigger] seed_rejected(s, self.size as int),
            decreases self.combinations - self.seed,
        {
            let cur_seed = self.seed;
            let mut board = make_board(self.size, cur_seed);
            proof {
                assert(board_view(board) =~~= seed_grid(cur_seed, self.size as int));
            }
            let ghost braw = board_view(board);
            fill::remove_components(&mut board);
            self.seed = cur_seed + 1;
            if valid_board(&board) {
                proof {
                    lemma_floor_wall_playable(board_view(board));
                }
                return Some(board);
            }
            proof {
                // The reducer is deterministic, so this seed admits no
                // other outcome that would pass the checks.
                assert forall|r: Seq<Seq<Cell>>|
                    #[trigger] fill::reduced_of(seed_grid(cur_seed, self.size as int), r)
                    implies !valid_board_spec(r) by {
                    fill::lemma_reduced_unique(braw, r, board_view(board));
                }
                assert(seed_rejected(cur_seed, self.size as int));
            }
        }
        None
    }
}

impl BaseIter for SerialMaker {
    closed spec fn based(size: u8, r: Self) -> bool {
        &&& r.size == size
        &&& r.seed == 0
    }

    fn new_base(size: u8) -> (r: Self) {
        proof {
            assert((size as int) * (size as int) <= 121) by (nonlinear_arith)
                requires size <= 11,
            {
            }
            assert(1u128 << (((size as int) * (size as int)) as u128) >= 1) by (bit_vector)
                requires ((size as int) * (size as int)) as u128 <= 121,
            {
            }
        }
        SerialMaker {
            seed: 0,
            size,
            combinations: 1u128 << ((size as u32) * (size as u32)),
        }
    }

    proof fn yields_empty(pre: Self, post: Self, b: Seq<Seq<Cell>>) {
    }
}

/// Makes valid empty boards of the given size from random seeds, retrying
/// until one passes the checks, up to a very large attempt cap.
pub struct RngMaker {
    /// Number of rows (or columns) in each board.
    size: u8,
    /// Attempts made so far; capped to keep every run finite.
    count: u128,
    /// Total number of floor and wall combinations for this board size.
    combinations: u128,
}

impl BoardIter for RngMaker {
    closed spec fn wf(&self) -> bool {
        &&& self.size <= 11
        &&& self.combinations == (1u128 << (((self.size as int) * (self.size as int)) as u128))
        &&& self.combinations >= 1
    }

    closed spec fn fuel(&self) -> nat {
        (u128::MAX - self.count) as nat
    }

    closed spec fn yields(&self, post: Self, b: Seq<Seq<Cell>>) -> bool {
        &&& self.wf()
        &&& board_ok(b)
        &&& floor_wall_only(b)
        &&& valid_board_spec(b)
        &&& b.len() == self.size
        &&& post.size == self.size
        &&& self.count < post.count
    }

    closed spec fn ends(&self, post: Self) -> bool {
        &&& post.count == u128::MAX
        &&& post.size == self.size
    }

    fn next_board(&mut self) -> (r: Option<Board>)
    {
        while self.count < u128::MAX
            invariant
                self.wf(),
                self.size == old(self).size,
                old(self).count <= self.count,
                old(self).wf(),
                self.combinations == old(self).combinations,
            decreases u128::MAX - self.count,
        {
            self.count = self.count + 1;
            let seed = rand_u128_below(self.combinations);
            let mut board = make_board(self.size, seed);
            fill::remove_components(&mut board);
            if valid_board(&board) {
                proof {
                    lemma_floor_wall_playable(board_view(board));
                }
                return Some(board);
            }
        }
        None
    }
}

impl BaseIter for RngMaker {
    closed spec fn based(size: u8, r: Self) -> bool {
        &&& r.size == size
        &&& r.count == 0
    }

    fn new_base(size: u8) -> (r: Self) {
        proof {
            assert((size as int) * (size as int) <= 121) by (nonlinear_arith)
                requires size <= 11,
            {
            }
            assert(1u128 << (((size as int) * (size as int)) as u128) >= 1) by (bit_vector)
                requires ((size as int) * (size as int)) as u128 <= 121,
            {
            }
        }
        RngMaker {
            size,
            count: 0,
            combinations: 1u128 << ((size as u32) * (size as u32)),
        }
    }

    proof fn yields_empty(pre: Self, post: Self, b: Seq<Seq<Cell>>) {
    }
}

impl SerialMaker {
    /// The board size this maker enumerates for.
    pub closed spec fn size_of(&self) -> u8 {
        self.size
    }

    /// The next seed the maker will try.
    pub closed spec fn next_seed(&self) -> u128 {
        self.seed
    }

    /// The total number of seeds for this size.
    pub closed spec fn seed_count(&self) -> u128 {
        self.combinations
    }
}

/// A fresh exhaustive maker starts at seed zero for the given size.
pub proof fn lemma_serial_maker_based(size: u8, r: SerialMaker)
    requires
        SerialMaker::based(size, r),
    ensures
        r.size_of() == size,
        r.next_seed() == 0,
{
}

/// Every board the exhaustive maker hands out has the maker's size, is
/// the reduction of the seed just before the new cursor, and every seed
/// skipped on the way was rejected: no valid board is ever passed over.
pub proof fn lemma_serial_maker_complete(pre: SerialMaker, post: SerialMaker, b: Seq<Seq<Cell>>)
    requires
        pre.yields(post, b),
    ensures
        b.len() == pre.size_of(),
        post.size_of() == pre.size_of(),
        post.seed_count() == pre.seed_count(),
        pre.next_seed() < post.next_seed() <= pre.seed_count(),
        fill::reduced_of(seed_grid((post.next_seed() - 1) as u128, pre.size_of() as int), b),
        forall|s: u128| pre.next_seed() <= s < post.next_seed() - 1
            ==> #[trigger] seed_rejected(s, pre.size_of() as int),
{
}

/// When the exhaustive maker stops, every remaining seed is rejected, so
/// the full run has covered all seeds of the size.
pub proof fn lemma_serial_maker_exhausted(pre: SerialMaker, post: SerialMaker)
    requires
        pre.wf(),
        pre.ends(post),
    ensures
        post.size_of() == pre.size_of(),
        post.next_seed() == post.seed_count(),
        pre.seed_count() == (1u128 << (((pre.size_of() as int) * (pre.size_of() as int)) as u128)),
        forall|s: u128| pre.next_seed() <= s < pre.seed_count()
            ==> #[trigger] seed_rejected(s, pre.size_of() as int),
{
}

impl RngMaker {
    /// The board size this maker draws for.
    pub closed spec fn size_of(&self) -> u8 {
        self.size
    }
}

/// A fresh randomized maker carries the given size.
pub proof fn lemma_rng_maker_based(size: u8, r: RngMaker)
    requires
        RngMaker::based(size, r),
    ensures
        r.size_of() == size,
{
}

/// Every board the randomized maker hands out has the maker's size.
pub proof fn lemma_rng_maker_sized(pre: RngMaker, post: RngMaker, b: Seq<Seq<Cell>>)
    requires
        pre.yields(post, b),
    ensures
        b.len() == pre.size_of(),
        post.size_of() == pre.size_of(),
{
}

/// The exhaustive maker's size and seed total never change along a run.
pub proof fn lemma_serial_maker_reach(a: SerialMaker, b: SerialMaker, n: nat)
    requires
        reaches(a, b, n),
    ensures
        b.size_of() == a.size_of(),
        b.seed_count() == a.seed_count(),
    decreases n,
{
    if n == 0 {
        lemma_reaches_none(a, b);
    } else {
        lemma_reaches_front(a, b, n);
        let mid = choose|mid: SerialMaker| #[trigger] reaches(a, mid, (n - 1) as nat)
            && crate::base::steps_to(mid, b);
        lemma_serial_maker_reach(a, mid, (n - 1) as nat);
        let bv = choose|bv: Seq<Seq<Cell>>| #[trigger] mid.yields(b, bv);
        assert(mid.yields(b, bv));
    }
}

/// A filtered exhaustive source carries the maker's construction size.
pub proof fn lemma_serial_source_based(size: u8, r: Symmetries<SerialMaker>)
    requires
        Symmetries::<SerialMaker>::based(size, r),
    ensures
        r.src().size_of() == size,
{
    crate::iters::filter::lemma_filter_based(size, r);
    lemma_serial_maker_based(size, r.src());
}

/// A filtered exhaustive source hands out only boards of its maker's
/// size, and each passed the validity checks — so a source built for a
/// size below 2 can never hand out a board: it is an exhausted sequence.
pub proof fn lemma_serial_source_sized(
    pre: Symmetries<SerialMaker>, post: Symmetries<SerialMaker>, b: Seq<Seq<Cell>>,
)
    requires
        pre.yields(post, b),
    ensures
        b.len() == pre.src().size_of(),
        post.src().size_of() == pre.src().size_of(),
        valid_board_spec(b),
        b.len() >= 2,
{
    crate::iters::filter::lemma_filter_forwards(pre, post, b);
    let (mid, n) = choose|mid: SerialMaker, n: nat|
        #[trigger] reaches(pre.src(), mid, n) && mid.yields(post.src(), b);
    lemma_serial_maker_reach(pre.src(), mid, n);
    lemma_serial_maker_complete(mid, post.src(), b);
    lemma_serial_maker_valid(mid, post.src(), b);
}

/// A filtered exhaustive source that stops keeps its maker's size.
pub proof fn lemma_serial_source_ends(pre: Symmetries<SerialMaker>, post: Symmetries<SerialMaker>)
    requires
        pre.ends(post),
    ensures
        post.src().size_of() == pre.src().size_of(),
{
    crate::iters::filter::lemma_filter_ends(pre, post);
    let (mid, n) = choose|mid: SerialMaker, n: nat|
        #[trigger] reaches(pre.src(), mid, n) && mid.ends(post.src());
    lemma_serial_maker_reach(pre.src(), mid, n);
}

/// Every board the exhaustive maker hands out passed the validity checks:
/// in particular its floor cells form exactly one 4-connected component.
pub proof fn lemma_serial_maker_valid(pre: SerialMaker, post: SerialMaker, b: Seq<Seq<Cell>>)
    requires
        pre.yields(post, b),
    ensures
        valid_board_spec(b),
        one_floor_component(b),
{
}

/// Every board the randomized maker hands out passed the same checks.
pub proof fn lemma_rng_maker_valid(pre: RngMaker, post: RngMaker, b: Seq<Seq<Cell>>)
    requires
        pre.yields(post, b),
    ensures
        valid_board_spec(b),
        one_floor_component(b),
{
}

/// An exhaustive empty-board source for the given size, deduplicated under
/// symmetry. Deterministic, and guaranteed to cover all valid layouts.
pub fn serial(size: u8) -> (r: Symmetries<SerialMaker>)
    requires
        size <= 11,
    ensures
        r.wf(),
{
    let serial_maker = SerialMaker::new_base(size);
    let filter = Symmetries::new_wrapper(serial_maker);
    filter
}

/// A randomized empty-board source for the given size, deduplicated under
/// symmetry. Generally faster at finding single examples than `serial`.
pub fn random(size: u8) -> (r: Symmetries<RngMaker>)
    requires
        size <= 11,
    ensures
        r.wf(),
{
    let random_maker = RngMaker::new_base(size);
    let filter = Symmetries::new_wrapper(random_maker);
    filter
}

} // verus!
