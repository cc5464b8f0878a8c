//! Placement of the movable piece and the goal on the floor cells of a
//! validated empty board: an exhaustive filler that enumerates all ordered
//! pairs, and a randomized filler that samples one pair per call.

use vstd::prelude::*;

use crate::base::{
    Board, BoardIter, Cell, SecondaryIter, board_ok, board_view, copy_board, in_bounds,
    scan_before, set_cell,
};
use crate::iters::filter::Symmetries;
use crate::play::playable;
use crate::rng::rand_usize_below;
use crate::tools::fill::floor_wall_only;
use crate::tools::stats::match_set;

verus! {

/// The slot list is exactly the floor cells of the board, in row-major
/// order, without repetition.
pub open spec fn slots_ok(e: Seq<Seq<Cell>>, slots: Seq<(usize, usize)>) -> bool {
    &&& forall|k: int| 0 <= k < slots.len() ==> ({
        let s = #[trigger] slots[k];
        in_bounds(e, s.0 as int, s.1 as int) && e[s.1 as int][s.0 as int] is Floor
    })
    &&& forall|i: int, j: int| in_bounds(e, i, j) && (#[trigger] e[j][i]) is Floor
        ==> exists|k: int| 0 <= k < slots.len()
            && (#[trigger] slots[k]) == ((i as usize, j as usize))
    &&& forall|k1: int, k2: int| 0 <= k1 < k2 < slots.len() ==> scan_before(
        (#[trigger] slots[k1]).0 as int, slots[k1].1 as int,
        (#[trigger] slots[k2]).0 as int, slots[k2].1 as int,
    )
    &&& slots.len() == match_set(e, Cell::Floor).len()
}

/// The empty board with its piece set on cell p and its goal on cell g.
pub open spec fn fill_view(e: Seq<Seq<Cell>>, p: (int, int), g: (int, int)) -> Seq<Seq<Cell>> {
    let e1 = e.update(p.1, e[p.1].update(p.0, Cell::Piece));
    e1.update(g.1, e1[g.1].update(g.0, Cell::Goal))
}

/// How many ordered (piece, goal) pairs come before state (bi, gi) in the
/// exhaustive enumeration over k slots.
pub open spec fn pairs_emitted(k: int, bi: int, gi: int) -> int {
    bi * (k - 1) + (if gi > bi { gi - 1 } else { gi })
}

/// (a+1)·b == a·b + b.
proof fn lemma_mul_succ(a: int, b: int)
    ensures
        (a + 1) * b == a * b + b,
{
    assert((a + 1) * b == a * b + b) by (nonlinear_arith)
    {
    }
}

/// Bounds on the enumeration counter in a live state.
proof fn lemma_pairs_bounds(k: int, bi: int, gi: int)
    requires
        k >= 2,
        0 <= bi < k,
        0 <= gi < k,
        gi != bi,
    ensures
        0 <= pairs_emitted(k, bi, gi) < k * (k - 1),
{
    assert(bi * (k - 1) >= 0) by (nonlinear_arith)
        requires bi >= 0 && k >= 2,
    {
    }
    assert(bi * (k - 1) + (k - 2) < k * (k - 1)) by (nonlinear_arith)
        requires k >= 2 && 0 <= bi < k,
    {
    }
}

/// A filled board is fit for play: one piece, no transient labels.
proof fn lemma_fill_playable(e: Seq<Seq<Cell>>, p: (int, int), g: (int, int))
    requires
        board_ok(e),
        floor_wall_only(e),
        in_bounds(e, p.0, p.1),
        in_bounds(e, g.0, g.1),
        p != g,
    ensures
        playable(fill_view(e, p, g)),
        fill_view(e, p, g).len() == e.len(),
{
    let b = fill_view(e, p, g);
    assert forall|j: int| 0 <= j < b.len()
        implies (#[trigger] b[j]).len() == b.len() by {
        if j != p.1 && j != g.1 {
            assert(b[j] == e[j]);
        }
    }
    assert forall|i: int, j: int| in_bounds(b, i, j)
        implies ((#[trigger] b[j][i]) == Cell::Piece ==> (i, j) == p)
            && !(b[j][i] is Zone) by {
        if (i, j) != p && (i, j) != g {
            assert(b[j][i] == e[j][i]);
            assert(e[j][i] is Floor || e[j][i] is Wall);
        } else if (i, j) == g {
            assert(b[j][i] == Cell::Goal);
        } else {
            assert(b[j][i] == Cell::Piece);
        }
    }
}

/// Makes every filled version of one empty board: all ordered pairs of a
/// piece slot and a distinct goal slot, in row-major order of both.
pub struct SerialFiller {
    empty_board: Board,
    slots: Vec<(usize, usize)>,
    box_idx: usize,
    goal_idx: usize,
}

impl BoardIter for SerialFiller {
    closed spec fn wf(&self) -> bool {
        let e = board_view(self.empty_board);
        let k = self.slots@.len() as int;
        &&& board_ok(e)
        &&& floor_wall_only(e)
        &&& slots_ok(e, self.slots@)
        &&& (k >= 2 ==> ((self.box_idx < k && self.goal_idx < k && self.goal_idx != self.box_idx)
            || (self.box_idx == k && self.goal_idx == 0)))
    }

    closed spec fn fuel(&self) -> nat {
        let k = self.slots@.len() as int;
        if k >= 2 && (self.box_idx as int) < k {
            (k * (k - 1) - pairs_emitted(k, self.box_idx as int, self.goal_idx as int)) as nat
        } else {
            0
        }
    }

    closed spec fn yields(&self, post: Self, b: Seq<Seq<Cell>>) -> bool {
        let e = board_view(self.empty_board);
        let k = self.slots@.len() as int;
        &&& self.wf()
        &&& k >= 2
        &&& (self.box_idx as int) < k
        &&& (self.goal_idx as int) < k
        &&& self.goal_idx != self.box_idx
        &&& self.slots@[self.box_idx as int] != self.slots@[self.goal_idx as int]
        &&& b == fill_view(
            e,
            (self.slots@[self.box_idx as int].0 as int, self.slots@[self.box_idx as int].1 as int),
            (self.slots@[self.goal_idx as int].0 as int, self.slots@[self.goal_idx as int].1 as int),
        )
        &&& post.empty_board == self.empty_board
        &&& post.slots@ == self.slots@
        &&& pairs_emitted(k, post.box_idx as int, post.goal_idx as int)
            == pairs_emitted(k, self.box_idx as int, self.goal_idx as int) + 1
    }

    closed spec fn ends(&self, post: Self) -> bool {
        &&& post == *self
        &&& (self.slots@.len() < 2 || self.box_idx >= self.slots@.len())
    }

    fn next_board(&mut self) -> (r: Option<Board>)
    {
        let k = self.slots.len();
        if k < 2 {
            return None;
        }
        if self.box_idx >= k {
            return None;
        }
        let ghost e = board_view(self.empty_board);
        let ghost bi = self.box_idx as int;
        let ghost gi = self.goal_idx as int;
        proof {
            assert(self.goal_idx < k && self.goal_idx != self.box_idx);
            lemma_pairs_bounds(k as int, bi, gi);
        }
        let mut filled = copy_board(&self.empty_board);
        let slot_b = self.slots[self.box_idx];
        proof {
            assert(board_view(filled)[slot_b.1 as int] == filled@[slot_b.1 as int]@);
        }
        set_cell(&mut filled, slot_b.0, slot_b.1, Cell::Piece);
        let slot_g = self.slots[self.goal_idx];
        proof {
            assert(board_view(filled)[slot_g.1 as int] == filled@[slot_g.1 as int]@);
            assert(board_view(filled)[slot_g.1 as int].len() == e.len());
        }
        set_cell(&mut filled, slot_g.0, slot_g.1, Cell::Goal);
        proof {
            // Distinct indices name distinct slots, by the strict scan order.
            if bi < gi {
                assert(scan_before(
                    self.slots@[bi].0 as int, self.slots@[bi].1 as int,
                    self.slots@[gi].0 as int, self.slots@[gi].1 as int,
                ));
            } else {
                assert(scan_before(
                    self.slots@[gi].0 as int, self.slots@[gi].1 as int,
                    self.slots@[bi].0 as int, self.slots@[bi].1 as int,
                ));
            }
            assert(self.slots@[bi] != self.slots@[gi]);
            lemma_fill_playable(
                e,
                (slot_b.0 as int, slot_b.1 as int),
                (slot_g.0 as int, slot_g.1 as int),
            );
            assert(board_view(filled) == fill_view(
                e,
                (slot_b.0 as int, slot_b.1 as int),
                (slot_g.0 as int, slot_g.1 as int),
            ));
        }
        // Advance to the next ordered pair, skipping the diagonal.
        self.goal_idx += 1;
        if self.goal_idx == self.box_idx {
            self.goal_idx += 1;
        }
        if self.goal_idx >= k {
            self.box_idx += 1;
            self.goal_idx = 0;
        }
        proof {
            let kk = k as int;
            lemma_mul_succ(bi, kk - 1);
            assert(pairs_emitted(kk, self.box_idx as int, self.goal_idx as int)
                == pairs_emitted(kk, bi, gi) + 1);
            lemma_pairs_bounds(kk, bi, gi);
            if (self.box_idx as int) < kk {
                lemma_pairs_bounds(kk, self.box_idx as int, self.goal_idx as int);
            }
        }
        Some(filled)
    }
}

impl SecondaryIter for SerialFiller {
    closed spec fn seeded(board: Seq<Seq<Cell>>, r: Self) -> bool {
        &&& board_view(r.empty_board) == board
        &&& slots_ok(board, r.slots@)
        &&& r.box_idx == 0
        &&& r.goal_idx == 1
    }

    closed spec fn origin(&self) -> Seq<Seq<Cell>> {
        board_view(self.empty_board)
    }

    fn new_secondary(board: Board) -> (r: Self) {
        let slots = get_slots(&board);
        SerialFiller { slots, empty_board: board, box_idx: 0, goal_idx: 1 }
    }

    proof fn origin_of_seed(board: Seq<Seq<Cell>>, r: Self) {
    }

    proof fn origin_stable(pre: Self, post: Self, b: Seq<Seq<Cell>>) {
    }
}

impl SerialFiller {
    /// The filler's slot list: the floor cells of its board.
    pub closed spec fn slot_list(&self) -> Seq<(usize, usize)> {
        self.slots@
    }

    /// The cursor: next (piece, goal) slot indices to use.
    pub closed spec fn cursor(&self) -> (usize, usize) {
        (self.box_idx, self.goal_idx)
    }
}

/// A freshly seeded exhaustive filler lists exactly the floor cells of its
/// board, in row-major order, and starts at the first ordered pair.
pub proof fn lemma_serial_filler_seeded(e: Seq<Seq<Cell>>, f: SerialFiller)
    requires
        SerialFiller::seeded(e, f),
    ensures
        f.origin() == e,
        slots_ok(e, f.slot_list()),
        f.cursor() == ((0usize, 1usize)),
{
}

/// Every board the exhaustive filler hands out is its seeded board with
/// the cursor's piece slot turned to the piece and its goal slot to the
/// goal; the cursor then advances to the next ordered pair in box-major,
/// goal-ascending order, skipping the diagonal — so across a full run the
/// k·(k−1) ordered pairs appear exactly once each, in that order.
pub proof fn lemma_serial_filler_fills(pre: SerialFiller, post: SerialFiller, b: Seq<Seq<Cell>>)
    requires
        pre.yields(post, b),
    ensures
        slots_ok(pre.origin(), pre.slot_list()),
        post.slot_list() == pre.slot_list(),
        post.origin() == pre.origin(),
        (pre.cursor().0 as int) < pre.slot_list().len(),
        (pre.cursor().1 as int) < pre.slot_list().len(),
        pre.cursor().1 != pre.cursor().0,
        b == fill_view(
            pre.origin(),
            (pre.slot_list()[pre.cursor().0 as int].0 as int,
                pre.slot_list()[pre.cursor().0 as int].1 as int),
            (pre.slot_list()[pre.cursor().1 as int].0 as int,
                pre.slot_list()[pre.cursor().1 as int].1 as int),
        ),
        pairs_emitted(
            pre.slot_list().len() as int, post.cursor().0 as int, post.cursor().1 as int,
        ) == pairs_emitted(
            pre.slot_list().len() as int, pre.cursor().0 as int, pre.cursor().1 as int,
        ) + 1,
{
}

/// A filler freshly seeded with an empty board holding k floor cells can
/// hand out exactly k·(k−1) filled boards.
pub proof fn lemma_filler_total(e: Seq<Seq<Cell>>, f: SerialFiller)
    requires
        SerialFiller::seeded(e, f),
    ensures
        f.fuel() == match_set(e, Cell::Floor).len() * (match_set(e, Cell::Floor).len() - 1),
{
    let k = f.slots@.len() as int;
    if k >= 2 {
        assert(pairs_emitted(k, 0, 1) == 0);
    } else {
        assert(k * (k - 1) == 0) by (nonlinear_arith)
            requires 0 <= k < 2,
        {
        }
    }
}

/// Each filled board handed out consumes exactly one unit of fuel.
pub proof fn lemma_filler_step(pre: SerialFiller, post: SerialFiller, b: Seq<Seq<Cell>>)
    requires
        pre.yields(post, b),
    ensures
        post.fuel() + 1 == pre.fuel(),
{
    let k = pre.slots@.len() as int;
    lemma_pairs_bounds(k, pre.box_idx as int, pre.goal_idx as int);
    assert(post.slots@.len() == k);
    if (post.box_idx as int) < k {
        assert((post.box_idx as int) * (k - 1) >= 0) by (nonlinear_arith)
            requires post.box_idx as int >= 0 && k >= 2,
        {
        }
    } else {
        assert((post.box_idx as int) * (k - 1) >= k * (k - 1)) by (nonlinear_arith)
            requires post.box_idx as int >= k && k >= 2,
        {
        }
    }
}

/// A filler that declines to produce has no fuel left.
pub proof fn lemma_filler_ends(pre: SerialFiller, post: SerialFiller)
    requires
        pre.wf(),
        pre.ends(post),
    ensures
        pre.fuel() == 0,
{
}

/// Makes filled versions of one empty board by drawing two distinct floor
/// slots at random, one for the piece and one for the goal, each call.
pub struct RngFiller {
    empty_board: Board,
    slots: Vec<(usize, usize)>,
    /// Boards handed out so far; capped to keep every run finite.
    count: u64,
}

impl BoardIter for RngFiller {
    closed spec fn wf(&self) -> bool {
        let e = board_view(self.empty_board);
        &&& board_ok(e)
        &&& floor_wall_only(e)
        &&& slots_ok(e, self.slots@)
    }

    closed spec fn fuel(&self) -> nat {
        (u64::MAX - self.count) as nat
    }

    closed spec fn yields(&self, post: Self, b: Seq<Seq<Cell>>) -> bool {
        let e = board_view(self.empty_board);
        let k = self.slots@.len() as int;
        &&& self.wf()
        &&& k >= 2
        &&& exists|bi: int, gi: int| 0 <= bi < k && 0 <= gi < k && bi != gi
            && b == fill_view(
                e,
                ((#[trigger] self.slots@[bi]).0 as int, self.slots@[bi].1 as int),
                ((#[trigger] self.slots@[gi]).0 as int, self.slots@[gi].1 as int),
            )
        &&& post.empty_board == self.empty_board
        &&& post.slots@ == self.slots@
        &&& self.count < post.count
    }

    closed spec fn ends(&self, post: Self) -> bool {
        &&& post == *self
        &&& (self.slots@.len() < 2 || self.count == u64::MAX)
    }

    fn next_board(&mut self) -> (r: Option<Board>)
    {
        let k = self.slots.len();
        if k < 2 {
            return None;
        }
        if self.count == u64::MAX {
            return None;
        }
        self.count = self.count + 1;
        let ghost e = board_view(self.empty_board);
        let i = rand_usize_below(k);
        let j0 = rand_usize_below(k - 1);
        let j = if j0 >= i {
            j0 + 1
        } else {
            j0
        };
        let slot_b = self.slots[i];
        let slot_g = self.slots[j];
        let mut filled = copy_board(&self.empty_board);
        proof {
            assert(board_view(filled)[slot_b.1 as int] == filled@[slot_b.1 as int]@);
        }
        set_cell(&mut filled, slot_b.0, slot_b.1, Cell::Piece);
        proof {
            assert(board_view(filled)[slot_g.1 as int] == filled@[slot_g.1 as int]@);
            assert(board_view(filled)[slot_g.1 as int].len() == e.len());
        }
        set_cell(&mut filled, slot_g.0, slot_g.1, Cell::Goal);
        proof {
            if i < j {
                assert(scan_before(
                    self.slots@[i as int].0 as int, self.slots@[i as int].1 as int,
                    self.slots@[j as int].0 as int, self.slots@[j as int].1 as int,
                ));
            } else {
                assert(scan_before(
                    self.slots@[j as int].0 as int, self.slots@[j as int].1 as int,
                    self.slots@[i as int].0 as int, self.slots@[i as int].1 as int,
                ));
            }
            lemma_fill_playable(
                e,
                (slot_b.0 as int, slot_b.1 as int),
                (slot_g.0 as int, slot_g.1 as int),
            );
            assert(board_view(filled) == fill_view(
                e,
                (slot_b.0 as int, slot_b.1 as int),
                (slot_g.0 as int, slot_g.1 as int),
            ));
            assert((i as int) < (k as int) && (j as int) < (k as int) && i != j);
        }
        Some(filled)
    }
}

impl SecondaryIter for RngFiller {
    closed spec fn seeded(board: Seq<Seq<Cell>>, r: Self) -> bool {
        &&& board_view(r.empty_board) == board
        &&& slots_ok(board, r.slots@)
        &&& r.count == 0
    }

    closed spec fn origin(&self) -> Seq<Seq<Cell>> {
        board_view(self.empty_board)
    }

    fn new_secondary(board: Board) -> (r: Self) {
        let slots = get_slots(&board);
        RngFiller { slots, empty_board: board, count: 0 }
    }

    proof fn origin_of_seed(board: Seq<Seq<Cell>>, r: Self) {
    }

    proof fn origin_stable(pre: Self, post: Self, b: Seq<Seq<Cell>>) {
    }
}

impl RngFiller {
    /// The filler's slot list: the floor cells of its board.
    pub closed spec fn slot_list(&self) -> Seq<(usize, usize)> {
        self.slots@
    }

    /// How many boards have been drawn so far.
    pub closed spec fn draws(&self) -> u64 {
        self.count
    }
}

/// Every board the randomized filler hands out is its seeded board with
/// one floor slot turned to the piece and a different floor slot to the
/// goal.
pub proof fn lemma_rng_filler_fills(pre: RngFiller, post: RngFiller, b: Seq<Seq<Cell>>)
    requires
        pre.yields(post, b),
    ensures
        slots_ok(pre.origin(), pre.slot_list()),
        post.slot_list() == pre.slot_list(),
        post.origin() == pre.origin(),
        pre.slot_list().len() >= 2,
        exists|bi: int, gi: int| 0 <= bi < pre.slot_list().len()
            && 0 <= gi < pre.slot_list().len() && bi != gi
            && b == fill_view(
                pre.origin(),
                ((#[trigger] pre.slot_list()[bi]).0 as int, pre.slot_list()[bi].1 as int),
                ((#[trigger] pre.slot_list()[gi]).0 as int, pre.slot_list()[gi].1 as int),
            ),
{
}

/// The randomized filler declines to produce only on a board with fewer
/// than two floor cells, or at the draw cap: below the cap, a board with
/// two floor slots always yields.
pub proof fn lemma_rng_filler_ends(pre: RngFiller, post: RngFiller)
    requires
        pre.ends(post),
    ensures
        post == pre,
        pre.slot_list().len() < 2 || pre.draws() == u64::MAX,
{
}

/// List the floor cells of the board in row-major order.
fn get_slots(board: &Board) -> (r: Vec<(usize, usize)>)
    requires
        board_ok(board_view(*board)),
    ensures
        slots_ok(board_view(*board), r@),
{
    let ghost b = board_view(*board);
    let mut slots: Vec<(usize, usize)> = Vec::new();
    let ghost mut found: Set<(int, int)> = Set::empty();
    let size = board.len();
    let mut j: usize = 0;
    while j < size
        invariant
            b == board_view(*board),
            board_ok(b),
            size == b.len(),
            j <= size,
            found == Set::new(|p: (int, int)| in_bounds(b, p.0, p.1) && p.1 < j
                && b[p.1][p.0] is Floor),
            found.finite(),
            slots@.len() == found.len(),
            forall|k: int| 0 <= k < slots@.len() ==> ({
                let s = #[trigger] slots@[k];
                &&& in_bounds(b, s.0 as int, s.1 as int)
                &&& b[s.1 as int][s.0 as int] is Floor
                &&& scan_before(s.0 as int, s.1 as int, 0, j as int)
            }),
            forall|x: int, y: int| in_bounds(b, x, y) && y < j && (#[trigger] b[y][x]) is Floor
                ==> exists|k: int| 0 <= k < slots@.len()
                    && (#[trigger] slots@[k]) == ((x as usize, y as usize)),
            forall|k1: int, k2: int| 0 <= k1 < k2 < slots@.len() ==> scan_before(
                (#[trigger] slots@[k1]).0 as int, slots@[k1].1 as int,
                (#[trigger] slots@[k2]).0 as int, slots@[k2].1 as int,
            ),
        decreases size - j,
    {
        let mut i: usize = 0;
        while i < size
            invariant
                b == board_view(*board),
                board_ok(b),
                size == b.len(),
                j < size,
                i <= size,
                found == Set::new(|p: (int, int)| in_bounds(b, p.0, p.1)
                    && scan_before(p.0, p.1, i as int, j as int) && b[p.1][p.0] is Floor),
                found.finite(),
                slots@.len() == found.len(),
                forall|k: int| 0 <= k < slots@.len() ==> ({
                    let s = #[trigger] slots@[k];
                    &&& in_bounds(b, s.0 as int, s.1 as int)
                    &&& b[s.1 as int][s.0 as int] is Floor
                    &&& scan_before(s.0 as int, s.1 as int, i as int, j as int)
                }),
                forall|x: int, y: int| in_bounds(b, x, y)
                    && scan_before(x, y, i as int, j as int) && (#[trigger] b[y][x]) is Floor
                    ==> exists|k: int| 0 <= k < slots@.len()
                        && (#[trigger] slots@[k]) == ((x as usize, y as usize)),
                forall|k1: int, k2: int| 0 <= k1 < k2 < slots@.len() ==> scan_before(
                    (#[trigger] slots@[k1]).0 as int, slots@[k1].1 as int,
                    (#[trigger] slots@[k2]).0 as int, slots@[k2].1 as int,
                ),
            decreases size - i,
        {
            proof {
                assert(board_view(*board)[j as int] == board@[j as int]@);
            }
            let ghost prev = found;
            let ghost old_slots = slots@;
            if crate::base::is_floor(board[j][i]) {
                proof {
                    assert(!prev.contains((i as int, j as int)));
                    found = prev.insert((i as int, j as int));
                    assert(found =~= Set::new(|p: (int, int)| in_bounds(b, p.0, p.1)
                        && scan_before(p.0, p.1, i as int + 1, j as int)
                        && b[p.1][p.0] is Floor));
                }
                slots.push((i, j));
                proof {
                    assert(slots@[slots@.len() - 1] == ((i, j)));
                    assert forall|x: int, y: int| in_bounds(b, x, y)
                        && scan_before(x, y, i as int + 1, j as int)
                        && (#[trigger] b[y][x]) is Floor
                        implies exists|k: int| 0 <= k < slots@.len()
                            && (#[trigger] slots@[k]) == ((x as usize, y as usize)) by {
                        if scan_before(x, y, i as int, j as int) {
                            let k = choose|k: int| 0 <= k < old_slots.len()
                                && (#[trigger] old_slots[k]) == ((x as usize, y as usize));
                            assert(slots@[k] == old_slots[k]);
                        } else {
                            assert(x == i as int && y == j as int);
                            assert(slots@[slots@.len() - 1] == ((x as usize, y as usize)));
                        }
                    }
                }
            } else {
                proof {
                    assert(found =~= Set::new(|p: (int, int)| in_bounds(b, p.0, p.1)
                        && scan_before(p.0, p.1, i as int + 1, j as int)
                        && b[p.1][p.0] is Floor));
                }
            }
            i += 1;
        }
        proof {
            assert(found =~= Set::new(|p: (int, int)| in_bounds(b, p.0, p.1)
                && p.1 < j as int + 1 && b[p.1][p.0] is Floor));
        }
        j += 1;
    }
    proof {
        assert(found =~= match_set(b, Cell::Floor)) by {
            assert forall|p: (int, int)| found.contains(p)
                == match_set(b, Cell::Floor).contains(p) by {
                if match_set(b, Cell::Floor).contains(p) {
                    assert(in_bounds(b, p.0, p.1) && b[p.1][p.0] == Cell::Floor);
                }
            }
        }
    }
    slots
}

/// An exhaustive filler for the given empty board, deduplicated under
/// symmetry.
pub fn serial(board: Board) -> (r: Symmetries<SerialFiller>)
    requires
        board_ok(board_view(board)),
        floor_wall_only(board_view(board)),
    ensures
        r.wf(),
{
    Symmetries::<SerialFiller>::new_secondary(board)
}

/// A randomized filler for the given empty board, deduplicated under
/// symmetry.
pub fn random(board: Board) -> (r: Symmetries<RngFiller>)
    requires
        board_ok(board_view(board)),
        floor_wall_only(board_view(board)),
    ensures
        r.wf(),
{
    Symmetries::<RngFiller>::new_secondary(board)
}

} // verus!
