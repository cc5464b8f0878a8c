//! The move engine and the solver: one directional slide of the piece, and
//! breadth-first exploration of the reachable positions.

use vstd::prelude::*;

use crate::base::{
    Board, Cell, board_ok, board_view, boards_equal, copy_board, find_cell, first_match,
    first_pos, has_cell, in_bounds, is_goal, is_square, is_wall, lemma_first_match_unique,
    lemma_first_pos, set_cell,
};

verus! {

/// One of the four slide commands.
#[derive(Clone, Copy, Debug, PartialEq, Eq, Structural)]
pub enum Direction {
    Up,
    Right,
    Down,
    Left,
}

/// Horizontal component of a direction's unit delta.
pub open spec fn dx(d: Direction) -> int {
    match d {
        Direction::Up => 0,
        Direction::Right => 1,
        Direction::Down => 0,
        Direction::Left => -1,
    }
}

/// Vertical component of a direction's unit delta.
pub open spec fn dy(d: Direction) -> int {
    match d {
        Direction::Up => -1,
        Direction::Right => 0,
        Direction::Down => 1,
        Direction::Left => 0,
    }
}

/// How many steps fit between (x, y) and the board edge in direction `d`.
pub open spec fn edge_fuel(size: int, x: int, y: int, d: Direction) -> int {
    match d {
        Direction::Up => y,
        Direction::Down => size - 1 - y,
        Direction::Left => x,
        Direction::Right => size - 1 - x,
    }
}

/// The outcome of one slide: resting cell, cells traversed, victory flag.
pub ghost struct Slide {
    pub x: int,
    pub y: int,
    pub moved: int,
    pub victory: bool,
}

/// Slide from (x, y) in direction `d`: advance while the next cell is in
/// bounds and not a wall; stepping onto the goal stops the slide and wins.
pub open spec fn slide(b: Seq<Seq<Cell>>, x: int, y: int, d: Direction) -> Slide
    decreases edge_fuel(b.len() as int, x, y, d)
    when in_bounds(b, x, y)
{
    let nx = x + dx(d);
    let ny = y + dy(d);
    if !in_bounds(b, nx, ny) {
        Slide { x, y, moved: 0, victory: false }
    } else if b[ny][nx] is Wall {
        Slide { x, y, moved: 0, victory: false }
    } else if b[ny][nx] is Goal {
        Slide { x: nx, y: ny, moved: 1, victory: true }
    } else {
        let rest = slide(b, nx, ny, d);
        Slide { x: rest.x, y: rest.y, moved: rest.moved + 1, victory: rest.victory }
    }
}

/// Basic facts about a slide: it stays on the board, travels along the
/// direction's ray, wins only on the goal, and stops only at an obstacle.
pub proof fn lemma_slide_props(b: Seq<Seq<Cell>>, x: int, y: int, d: Direction)
    requires
        is_square(b),
        in_bounds(b, x, y),
    ensures
        ({
            let s = slide(b, x, y, d);
            &&& in_bounds(b, s.x, s.y)
            &&& 0 <= s.moved <= edge_fuel(b.len() as int, x, y, d)
            &&& s.x == x + s.moved * dx(d)
            &&& s.y == y + s.moved * dy(d)
            &&& (s.moved == 0 ==> s.x == x && s.y == y && !s.victory)
            &&& (s.victory ==> b[s.y][s.x] is Goal && s.moved > 0)
            &&& (!s.victory ==> !in_bounds(b, s.x + dx(d), s.y + dy(d))
                || b[s.y + dy(d)][s.x + dx(d)] is Wall)
            &&& (s.moved > 0 ==> !(b[s.y][s.x] is Wall))
            &&& (!s.victory && s.moved > 0 ==> !(b[s.y][s.x] is Goal))
        }),
    decreases edge_fuel(b.len() as int, x, y, d),
{
    let s = slide(b, x, y, d);
    let nx = x + dx(d);
    let ny = y + dy(d);
    if in_bounds(b, nx, ny) && !(b[ny][nx] is Wall) && !(b[ny][nx] is Goal) {
        lemma_slide_props(b, nx, ny, d);
        let rest = slide(b, nx, ny, d);
        assert(s.moved * dx(d) == rest.moved * dx(d) + dx(d)) by (nonlinear_arith)
            requires
                s.moved == rest.moved + 1,
        {
        }
        assert(s.moved * dy(d) == rest.moved * dy(d) + dy(d)) by (nonlinear_arith)
            requires
                s.moved == rest.moved + 1,
        {
        }
    }
}

/// A slide whose first step is already off the board or into a wall does
/// not move the piece and does not win.
pub proof fn lemma_slide_blocked(b: Seq<Seq<Cell>>, x: int, y: int, d: Direction)
    requires
        is_square(b),
        in_bounds(b, x, y),
        !in_bounds(b, x + dx(d), y + dy(d)) || b[y + dy(d)][x + dx(d)] is Wall,
    ensures
        slide(b, x, y, d) == (Slide { x, y, moved: 0, victory: false }),
{
}

/// A slide whose path reaches the goal at step k, over open cells, stops
/// exactly on the goal cell and wins.
pub proof fn lemma_slide_to_goal(b: Seq<Seq<Cell>>, x: int, y: int, d: Direction, k: int)
    requires
        is_square(b),
        in_bounds(b, x, y),
        1 <= k,
        in_bounds(b, x + k * dx(d), y + k * dy(d)),
        b[y + k * dy(d)][x + k * dx(d)] is Goal,
        forall|t: int| 1 <= t < k ==> in_bounds(b, x + t * dx(d), y + t * dy(d))
            && !((#[trigger] b[y + t * dy(d)][x + t * dx(d)]) is Wall)
            && !(b[y + t * dy(d)][x + t * dx(d)] is Goal),
    ensures
        slide(b, x, y, d) == (Slide {
            x: x + k * dx(d),
            y: y + k * dy(d),
            moved: k,
            victory: true,
        }),
    decreases k,
{
    let nx = x + dx(d);
    let ny = y + dy(d);
    if k == 1 {
        assert(nx == x + 1 * dx(d));
        assert(ny == y + 1 * dy(d));
    } else {
        assert(in_bounds(b, x + 1 * dx(d), y + 1 * dy(d)) && !(b[y + 1 * dy(d)][x + 1 * dx(d)] is Wall)
            && !(b[y + 1 * dy(d)][x + 1 * dx(d)] is Goal));
        assert(nx == x + 1 * dx(d) && ny == y + 1 * dy(d));
        assert(nx + (k - 1) * dx(d) == x + k * dx(d)) by (nonlinear_arith)
            requires
                nx == x + dx(d),
        {
        }
        assert(ny + (k - 1) * dy(d) == y + k * dy(d)) by (nonlinear_arith)
            requires
                ny == y + dy(d),
        {
        }
        assert forall|t: int| 1 <= t < k - 1 implies in_bounds(b, nx + t * dx(d), ny + t * dy(d))
            && !((#[trigger] b[ny + t * dy(d)][nx + t * dx(d)]) is Wall)
            && !(b[ny + t * dy(d)][nx + t * dx(d)] is Goal) by {
            assert(nx + t * dx(d) == x + (t + 1) * dx(d)) by (nonlinear_arith)
                requires
                    nx == x + dx(d),
            {
            }
            assert(ny + t * dy(d) == y + (t + 1) * dy(d)) by (nonlinear_arith)
                requires
                    ny == y + dy(d),
            {
            }
            assert(in_bounds(b, x + (t + 1) * dx(d), y + (t + 1) * dy(d))
                && !(b[y + (t + 1) * dy(d)][x + (t + 1) * dx(d)] is Wall)
                && !(b[y + (t + 1) * dy(d)][x + (t + 1) * dx(d)] is Goal));
        }
        lemma_slide_to_goal(b, nx, ny, d, k - 1);
    }
}

/// The board after a slide from (x, y): the starting cell becomes floor and
/// the resting cell becomes the piece.
pub open spec fn after_slide(b: Seq<Seq<Cell>>, x: int, y: int, d: Direction) -> Seq<Seq<Cell>> {
    let s = slide(b, x, y, d);
    let cleared = b.update(y, b[y].update(x, Cell::Floor));
    cleared.update(s.y, cleared[s.y].update(s.x, Cell::Piece))
}

/// The board after one move command: the first piece found in row-major
/// order slides; a board without a piece is unchanged.
pub open spec fn move_view(b: Seq<Seq<Cell>>, d: Direction) -> Seq<Seq<Cell>> {
    if has_cell(b, Cell::Piece) {
        let p = first_pos(b, Cell::Piece);
        after_slide(b, p.0, p.1, d)
    } else {
        b
    }
}

/// A move that traverses no cells leaves the board unchanged.
pub proof fn lemma_move_view_noop(b: Seq<Seq<Cell>>, d: Direction)
    requires
        board_ok(b),
        has_cell(b, Cell::Piece),
        slide(b, first_pos(b, Cell::Piece).0, first_pos(b, Cell::Piece).1, d).moved == 0,
    ensures
        move_view(b, d) == b,
{
    let p = first_pos(b, Cell::Piece);
    lemma_first_pos(b, Cell::Piece);
    lemma_slide_props(b, p.0, p.1, d);
    assert(b[p.1][p.0] == Cell::Piece);
    assert(move_view(b, d) =~~= b);
}

/// A move preserves the board's size and squareness.
pub proof fn lemma_move_view_ok(b: Seq<Seq<Cell>>, d: Direction)
    requires
        board_ok(b),
    ensures
        board_ok(move_view(b, d)),
        move_view(b, d).len() == b.len(),
{
    if has_cell(b, Cell::Piece) {
        let p = first_pos(b, Cell::Piece);
        lemma_first_pos(b, Cell::Piece);
        lemma_slide_props(b, p.0, p.1, d);
    }
}

/// Outcome of one move command: cells traversed, resting position, victory.
#[derive(Clone, Copy, Debug)]
pub struct MoveStats {
    /// Number of cells the piece traveled.
    pub cells_moved: u8,
    /// (x, y) indices of the piece position after moving.
    pub piece_pos: (u8, u8),
    /// True if this move won the game by reaching the goal.
    pub victory: bool,
}

/// Try moving the piece in the given direction; the board is updated in
/// place. Returns `None`, with the board unchanged, when it has no piece.
pub fn move_piece(board: &mut Board, direction: Direction) -> (r: Option<MoveStats>)
    requires
        board_ok(board_view(*old(board))),
    ensures
        board_view(*final(board)) == move_view(board_view(*old(board)), direction),
        board_ok(board_view(*final(board))),
        final(board)@.len() == old(board)@.len(),
        match r {
            Some(st) => ({
                let b0 = board_view(*old(board));
                let p = first_pos(b0, Cell::Piece);
                let s = slide(b0, p.0, p.1, direction);
                &&& has_cell(b0, Cell::Piece)
                &&& st.cells_moved as int == s.moved
                &&& st.piece_pos.0 as int == s.x
                &&& st.piece_pos.1 as int == s.y
                &&& st.victory == s.victory
            }),
            None => !has_cell(board_view(*old(board)), Cell::Piece),
        },
{
    let ghost b0 = board_view(*board);
    let size = board.len();
    let found = find_cell(board, Cell::Piece);
    match found {
        None => {
            proof {
                assert(move_view(b0, direction) == b0);
            }
            None
        },
        Some(init_pos) => {
            let ghost x0 = init_pos.0 as int;
            let ghost y0 = init_pos.1 as int;
            proof {
                assert(has_cell(b0, Cell::Piece)) by {
                    assert(in_bounds(b0, x0, y0) && b0[y0][x0] == Cell::Piece);
                }
                lemma_first_pos(b0, Cell::Piece);
                lemma_first_match_unique(
                    b0, Cell::Piece,
                    first_pos(b0, Cell::Piece).0, first_pos(b0, Cell::Piece).1,
                    x0, y0,
                );
                lemma_slide_props(b0, x0, y0, direction);
            }
            let ghost total = slide(b0, x0, y0, direction);
            let mut px: usize = init_pos.0 as usize;
            let mut py: usize = init_pos.1 as usize;
            let mut num_cells: u8 = 0;
            let mut victory = false;
            loop
                invariant_except_break
                    board_ok(b0),
                    b0 == board_view(*board),
                    size == b0.len(),
                    in_bounds(b0, px as int, py as int),
                    total == slide(b0, x0, y0, direction),
                    0 <= total.moved <= 254,
                    slide(b0, px as int, py as int, direction).x == total.x,
                    slide(b0, px as int, py as int, direction).y == total.y,
                    slide(b0, px as int, py as int, direction).victory == total.victory,
                    num_cells + slide(b0, px as int, py as int, direction).moved == total.moved,
                    !victory,
                ensures
                    b0 == board_view(*board),
                    in_bounds(b0, px as int, py as int),
                    px as int == total.x,
                    py as int == total.y,
                    num_cells as int == total.moved,
                    victory == total.victory,
                decreases edge_fuel(b0.len() as int, px as int, py as int, direction),
            {
                proof {
                    lemma_slide_props(b0, px as int, py as int, direction);
                }
                let nx: usize;
                let ny: usize;
                match direction {
                    Direction::Up => {
                        if py == 0 {
                            break;
                        }
                        nx = px;
                        ny = py - 1;
                    },
                    Direction::Down => {
                        if py + 1 >= size {
                            break;
                        }
                        nx = px;
                        ny = py + 1;
                    },
                    Direction::Left => {
                        if px == 0 {
                            break;
                        }
                        nx = px - 1;
                        ny = py;
                    },
                    Direction::Right => {
                        if px + 1 >= size {
                            break;
                        }
                        nx = px + 1;
                        ny = py;
                    },
                }
                proof {
                    assert(nx as int == px + dx(direction));
                    assert(ny as int == py + dy(direction));
                    assert(in_bounds(b0, nx as int, ny as int));
                    assert(b0[ny as int] == board@[ny as int]@);
                }
                let cell = board[ny][nx];
                if is_wall(cell) {
                    break;
                }
                px = nx;
                py = ny;
                proof {
                    assert(num_cells < 254);
                }
                num_cells += 1;
                if is_goal(cell) {
                    victory = true;
                    break;
                }
            }
            proof {
                assert(board@[y0]@ == b0[y0]);
                assert(x0 < b0[y0].len());
            }
            set_cell(board, init_pos.0 as usize, init_pos.1 as usize, Cell::Floor);
            proof {
                assert(board_view(*board)[py as int] == board@[py as int]@);
                assert(board_view(*board)[py as int].len() == b0.len());
            }
            set_cell(board, px, py, Cell::Piece);
            proof {
                assert(board_view(*board) == after_slide(b0, x0, y0, direction));
                assert(move_view(b0, direction) == after_slide(b0, x0, y0, direction));
                lemma_move_view_ok(b0, direction);
            }
            Some(MoveStats {
                cells_moved: num_cells,
                piece_pos: (px as u8, py as u8),
                victory,
            })
        },
    }
}

/// No cell of the board is a piece.
pub open spec fn no_piece(b: Seq<Seq<Cell>>) -> bool {
    forall|i: int, j: int| in_bounds(b, i, j) ==> !((#[trigger] b[j][i]) is Piece)
}

/// At most one cell of the board is a piece.
pub open spec fn at_most_one_piece(b: Seq<Seq<Cell>>) -> bool {
    forall|x1: int, y1: int, x2: int, y2: int|
        in_bounds(b, x1, y1) && in_bounds(b, x2, y2)
        && #[trigger] b[y1][x1] == Cell::Piece && #[trigger] b[y2][x2] == Cell::Piece
        ==> x1 == x2 && y1 == y2
}

/// No cell of the board carries a transient zone label.
pub open spec fn no_zone(b: Seq<Seq<Cell>>) -> bool {
    forall|i: int, j: int| in_bounds(b, i, j) ==> !((#[trigger] b[j][i]) is Zone)
}

/// A board fit for the solver: square, u8-addressable, at most one piece,
/// and free of transient zone labels.
pub open spec fn playable(b: Seq<Seq<Cell>>) -> bool {
    board_ok(b) && at_most_one_piece(b) && no_zone(b)
}

/// The slide of the board's (first) piece in direction `d`.
pub open spec fn slide_pc(b: Seq<Seq<Cell>>, d: Direction) -> Slide {
    slide(b, first_pos(b, Cell::Piece).0, first_pos(b, Cell::Piece).1, d)
}

/// The board reached by applying a sequence of move commands in order.
pub open spec fn run(b: Seq<Seq<Cell>>, moves: Seq<Direction>) -> Seq<Seq<Cell>>
    decreases moves.len(),
{
    if moves.len() == 0 {
        b
    } else {
        run(move_view(b, moves[0]), moves.subrange(1, moves.len() as int))
    }
}

/// Every move of the sequence moves the piece and none of them wins.
pub open spec fn clean(b: Seq<Seq<Cell>>, moves: Seq<Direction>) -> bool
    decreases moves.len(),
{
    if moves.len() == 0 {
        true
    } else {
        &&& has_cell(b, Cell::Piece)
        &&& slide_pc(b, moves[0]).moved > 0
        &&& !slide_pc(b, moves[0]).victory
        &&& clean(move_view(b, moves[0]), moves.subrange(1, moves.len() as int))
    }
}

/// The sequence of moves solves the board: played in order, the final move
/// steps the piece onto the goal, and no earlier move does.
pub open spec fn solves(b: Seq<Seq<Cell>>, moves: Seq<Direction>) -> bool
    decreases moves.len(),
{
    if moves.len() == 0 {
        false
    } else if !has_cell(b, Cell::Piece) {
        false
    } else {
        let s = slide_pc(b, moves[0]);
        if moves.len() == 1 {
            s.victory
        } else {
            !s.victory && solves(move_view(b, moves[0]), moves.subrange(1, moves.len() as int))
        }
    }
}

/// The base layout with the piece set down on cell (x, y).
pub open spec fn place(base: Seq<Seq<Cell>>, x: int, y: int) -> Seq<Seq<Cell>> {
    base.update(y, base[y].update(x, Cell::Piece))
}

/// Appending a move to a command sequence runs to the moved board.
proof fn lemma_run_push(b: Seq<Seq<Cell>>, moves: Seq<Direction>, d: Direction)
    ensures
        run(b, moves.push(d)) == move_view(run(b, moves), d),
    decreases moves.len(),
{
    if moves.len() == 0 {
        assert(moves.push(d)[0] == d);
        assert(moves.push(d).subrange(1, 1) =~= Seq::<Direction>::empty());
        assert(run(b, moves.push(d))
            == run(move_view(b, d), moves.push(d).subrange(1, 1)));
        assert(run(move_view(b, d), Seq::<Direction>::empty()) == move_view(b, d));
        assert(run(b, moves) == b);
    } else {
        assert(moves.push(d)[0] == moves[0]);
        assert(moves.push(d).subrange(1, moves.len() as int + 1)
            =~= moves.subrange(1, moves.len() as int).push(d));
        lemma_run_push(move_view(b, moves[0]), moves.subrange(1, moves.len() as int), d);
        assert(run(b, moves.push(d))
            == run(move_view(b, moves[0]), moves.push(d).subrange(1, moves.len() as int + 1)));
        assert(run(b, moves)
            == run(move_view(b, moves[0]), moves.subrange(1, moves.len() as int)));
    }
}

/// A clean sequence stays clean when extended by a non-winning move that
/// moves the piece.
proof fn lemma_clean_push(b: Seq<Seq<Cell>>, moves: Seq<Direction>, d: Direction)
    requires
        clean(b, moves),
        has_cell(run(b, moves), Cell::Piece),
        slide_pc(run(b, moves), d).moved > 0,
        !slide_pc(run(b, moves), d).victory,
    ensures
        clean(b, moves.push(d)),
    decreases moves.len(),
{
    if moves.len() == 0 {
        assert(moves.push(d)[0] == d);
        assert(moves.push(d).subrange(1, 1) =~= Seq::<Direction>::empty());
        assert(run(b, moves) == b);
        assert(clean(move_view(b, d), Seq::<Direction>::empty()));
    } else {
        assert(moves.push(d)[0] == moves[0]);
        assert(moves.push(d).subrange(1, moves.len() as int + 1)
            =~= moves.subrange(1, moves.len() as int).push(d));
        assert(run(b, moves)
            == run(move_view(b, moves[0]), moves.subrange(1, moves.len() as int)));
        lemma_clean_push(move_view(b, moves[0]), moves.subrange(1, moves.len() as int), d);
    }
}

/// A clean sequence followed by a winning move solves the board.
proof fn lemma_solves_push(b: Seq<Seq<Cell>>, moves: Seq<Direction>, d: Direction)
    requires
        clean(b, moves),
        has_cell(run(b, moves), Cell::Piece),
        slide_pc(run(b, moves), d).victory,
    ensures
        solves(b, moves.push(d)),
    decreases moves.len(),
{
    if moves.len() == 0 {
        assert(moves.push(d)[0] == d);
        assert(run(b, moves) == b);
    } else {
        assert(moves.push(d)[0] == moves[0]);
        assert(moves.push(d).subrange(1, moves.len() as int + 1)
            =~= moves.subrange(1, moves.len() as int).push(d));
        assert(run(b, moves)
            == run(move_view(b, moves[0]), moves.subrange(1, moves.len() as int)));
        lemma_solves_push(move_view(b, moves[0]), moves.subrange(1, moves.len() as int), d);
    }
}

/// A point k >= 1 steps along a direction's ray differs from the origin.
proof fn lemma_ray_ne(x: int, y: int, d: Direction, k: int)
    requires
        k >= 1,
    ensures
        x + k * dx(d) != x || y + k * dy(d) != y,
{
    match d {
        Direction::Up => {
            assert(k * dy(d) == -k) by (nonlinear_arith)
                requires dy(d) == -1,
            {
            }
        },
        Direction::Down => {
            assert(k * dy(d) == k) by (nonlinear_arith)
                requires dy(d) == 1,
            {
            }
        },
        Direction::Left => {
            assert(k * dx(d) == -k) by (nonlinear_arith)
                requires dx(d) == -1,
            {
            }
        },
        Direction::Right => {
            assert(k * dx(d) == k) by (nonlinear_arith)
                requires dx(d) == 1,
            {
            }
        },
    }
}

/// Facts about a base layout with the piece set down on one floor cell.
proof fn lemma_place_props(base: Seq<Seq<Cell>>, x: int, y: int)
    requires
        board_ok(base),
        no_piece(base),
        in_bounds(base, x, y),
    ensures
        ({
            let bp = place(base, x, y);
            &&& bp.len() == base.len()
            &&& board_ok(bp)
            &&& has_cell(bp, Cell::Piece)
            &&& at_most_one_piece(bp)
            &&& first_pos(bp, Cell::Piece) == (x, y)
            &&& forall|i: int, j: int| in_bounds(base, i, j) && (i != x || j != y)
                ==> #[trigger] bp[j][i] == base[j][i]
            &&& bp[y][x] == Cell::Piece
        }),
{
    let bp = place(base, x, y);
    assert(bp[y][x] == Cell::Piece);
    assert(has_cell(bp, Cell::Piece)) by {
        assert(in_bounds(bp, x, y) && bp[y][x] == Cell::Piece);
    }
    assert forall|i: int, j: int| in_bounds(bp, i, j) && #[trigger] bp[j][i] == Cell::Piece
        implies i == x && j == y by {
        if i != x || j != y {
            assert(bp[j][i] == base[j][i]);
        }
    }
    assert(first_match(bp, Cell::Piece, x, y));
    lemma_first_pos(bp, Cell::Piece);
    lemma_first_match_unique(
        bp, Cell::Piece,
        first_pos(bp, Cell::Piece).0, first_pos(bp, Cell::Piece).1,
        x, y,
    );
}

/// One non-winning, piece-moving step from a placed board lands the piece
/// on another floor cell of the same base layout, and sliding again in the
/// same direction is then a no-op.
proof fn lemma_step_form(base: Seq<Seq<Cell>>, qx: int, qy: int, d: Direction)
    requires
        board_ok(base),
        no_piece(base),
        no_zone(base),
        in_bounds(base, qx, qy),
        base[qy][qx] == Cell::Floor,
        slide_pc(place(base, qx, qy), d).moved > 0,
    ensures
        ({
            let bq = place(base, qx, qy);
            let s = slide_pc(bq, d);
            let bnew = move_view(bq, d);
            &&& in_bounds(base, s.x, s.y)
            &&& (s.x, s.y) != (qx, qy)
            &&& bnew == place(base, s.x, s.y)
            &&& (!s.victory ==> ({
                &&& base[s.y][s.x] == Cell::Floor
                &&& first_pos(bnew, Cell::Piece) == (s.x, s.y)
                &&& has_cell(bnew, Cell::Piece)
                &&& board_ok(bnew)
                &&& slide_pc(bnew, d).moved == 0
                &&& !slide_pc(bnew, d).victory
            }))
            &&& (s.victory ==> base[s.y][s.x] is Goal)
        }),
{
    let bq = place(base, qx, qy);
    lemma_place_props(base, qx, qy);
    let s = slide_pc(bq, d);
    lemma_slide_props(bq, qx, qy, d);
    lemma_ray_ne(qx, qy, d, s.moved);
    assert((s.x, s.y) != (qx, qy));
    assert(bq[s.y][s.x] == base[s.y][s.x]);
    // The board after the move: clearing the placed piece restores the base.
    let cleared = bq.update(qy, bq[qy].update(qx, Cell::Floor));
    assert(cleared =~~= base);
    assert(move_view(bq, d) == after_slide(bq, qx, qy, d));
    assert(after_slide(bq, qx, qy, d) == place(base, s.x, s.y));
    let bnew = place(base, s.x, s.y);
    if s.victory {
        assert(bq[s.y][s.x] is Goal);
    } else {
        // The resting cell is neither wall nor goal, nor the lone piece,
        // nor a zone label: it is floor.
        assert(!(bq[s.y][s.x] is Wall));
        assert(!(bq[s.y][s.x] is Goal));
        assert(!(base[s.y][s.x] is Piece));
        assert(!(base[s.y][s.x] is Zone));
        assert(base[s.y][s.x] == Cell::Floor);
        lemma_place_props(base, s.x, s.y);
        // Sliding again in the same direction stops at once: the cell ahead
        // of the resting cell is the same obstacle as before the move.
        let ax = s.x + dx(d);
        let ay = s.y + dy(d);
        if in_bounds(bnew, ax, ay) {
            assert(in_bounds(bq, ax, ay));
            assert(bq[ay][ax] is Wall);
            lemma_ray_ne(qx, qy, d, s.moved + 1);
            assert(ax == qx + (s.moved + 1) * dx(d) && ay == qy + (s.moved + 1) * dy(d)) by {
                assert((s.moved + 1) * dx(d) == s.moved * dx(d) + dx(d)) by (nonlinear_arith)
                {
                }
                assert((s.moved + 1) * dy(d) == s.moved * dy(d) + dy(d)) by (nonlinear_arith)
                {
                }
            }
            assert((ax, ay) != (qx, qy));
            assert((ax, ay) != (s.x, s.y)) by {
                lemma_ray_ne(s.x, s.y, d, 1);
                assert(1 * dx(d) == dx(d) && 1 * dy(d) == dy(d)) by (nonlinear_arith)
                {
                }
            }
            assert(bnew[ay][ax] == base[ay][ax]);
            assert(base[ay][ax] == bq[ay][ax]);
            assert(bnew[ay][ax] is Wall);
            lemma_slide_blocked(bnew, s.x, s.y, d);
        } else {
            lemma_slide_blocked(bnew, s.x, s.y, d);
        }
    }
}

/// Summary of the exhaustive exploration of a board's move space.
#[derive(Debug, Default)]
pub struct ExploreStats {
    /// Can this board be solved?
    pub solvable: bool,
    /// Length of the shortest solution found, 0 when unsolvable.
    pub num_moves: usize,
    /// The winning move sequence, empty when unsolvable.
    pub solution: Vec<Direction>,
}

/// One node of the search tree: a board, the move that produced it, and a
/// back-reference to its parent by index.
struct TreeNode {
    board: Board,
    reached_by: Option<Direction>,
    parent_idx: Option<usize>,
}

/// The search tree: an arena of nodes indexed by position.
struct Tree {
    nodes: Vec<TreeNode>,
}

/// The move sequence that leads from the root to node i, read off the
/// parent back-references.
spec fn trace(nodes: Seq<TreeNode>, i: int) -> Seq<Direction>
    decreases i
    when 0 <= i < nodes.len()
{
    match (nodes[i].reached_by, nodes[i].parent_idx) {
        (Some(d), Some(p)) => if (p as int) < i {
            trace(nodes, p as int).push(d)
        } else {
            Seq::empty()
        },
        _ => Seq::empty(),
    }
}

/// Node n's links: a move and a parent that stands strictly earlier.
spec fn link_ok_at(nodes: Seq<TreeNode>, n: int) -> bool {
    &&& nodes[n].reached_by is Some
    &&& nodes[n].parent_idx matches Some(p) && (p as int) < n
}

/// Parent links point strictly backwards and only the root lacks one.
spec fn links_ok(nodes: Seq<TreeNode>) -> bool {
    &&& forall|n: int| 1 <= n < nodes.len() ==> #[trigger] link_ok_at(nodes, n)
    &&& (nodes.len() > 0 ==> nodes[0].reached_by is None && nodes[0].parent_idx is None)
}

/// Some node of the tree holds exactly this board.
spec fn in_tree(nodes: Seq<TreeNode>, bv: Seq<Seq<Cell>>) -> bool {
    exists|k: int| 0 <= k < nodes.len() && #[trigger] board_view(nodes[k].board) == bv
}

/// From node n, direction d leads nowhere new: it does not win, and either
/// it does not move the piece or it reaches a board already in the tree.
spec fn dir_closed(nodes: Seq<TreeNode>, n: int, d: Direction) -> bool {
    let bv = board_view(nodes[n].board);
    let s = slide_pc(bv, d);
    &&& !s.victory
    &&& (s.moved == 0 || in_tree(nodes, move_view(bv, d)))
}

/// The order in which the solver tries the four directions.
spec fn dir_at(i: int) -> Direction {
    if i == 0 {
        Direction::Up
    } else if i == 1 {
        Direction::Down
    } else if i == 2 {
        Direction::Left
    } else {
        Direction::Right
    }
}

/// All four directions from node n are closed.
spec fn node_closed(nodes: Seq<TreeNode>, n: int) -> bool {
    &&& dir_closed(nodes, n, Direction::Up)
    &&& dir_closed(nodes, n, Direction::Down)
    &&& dir_closed(nodes, n, Direction::Left)
    &&& dir_closed(nodes, n, Direction::Right)
}

/// The base layout is the root board with its piece lifted off.
spec fn base_ok(base: Seq<Seq<Cell>>, b0: Seq<Seq<Cell>>) -> bool {
    &&& board_ok(base)
    &&& base.len() == b0.len()
    &&& no_piece(base)
    &&& no_zone(base)
}

/// Well-formedness of one tree node relative to the root board and the
/// pieceless base layout.
spec fn node_inv(nodes: Seq<TreeNode>, b0: Seq<Seq<Cell>>, base: Seq<Seq<Cell>>, n: int) -> bool {
    let bv = board_view(nodes[n].board);
    let q = first_pos(bv, Cell::Piece);
    &&& board_ok(bv)
    &&& has_cell(bv, Cell::Piece)
    &&& in_bounds(base, q.0, q.1)
    &&& base[q.1][q.0] == Cell::Floor
    &&& bv == place(base, q.0, q.1)
    &&& run(b0, trace(nodes, n)) == bv
    &&& clean(b0, trace(nodes, n))
    &&& (n == 0 ==> nodes[n].reached_by is None && nodes[n].parent_idx is None)
    &&& (n >= 1 ==> (nodes[n].reached_by matches Some(d) && nodes[n].parent_idx matches Some(p)
        && (p as int) < n && ({
            let pv = board_view(nodes[p as int].board);
            &&& slide_pc(pv, d).moved > 0
            &&& !slide_pc(pv, d).victory
            &&& bv == move_view(pv, d)
            &&& slide_pc(bv, d).moved == 0
            &&& !slide_pc(bv, d).victory
        })))
}

/// Well-formedness of the whole tree.
spec fn tree_inv(nodes: Seq<TreeNode>, b0: Seq<Seq<Cell>>, base: Seq<Seq<Cell>>) -> bool {
    &&& nodes.len() >= 1
    &&& board_view(nodes[0].board) == b0
    &&& forall|n: int| 0 <= n < nodes.len() ==> #[trigger] node_inv(nodes, b0, base, n)
}

/// The number of moves from the root to node n.
spec fn depth(nodes: Seq<TreeNode>, n: int) -> nat {
    trace(nodes, n).len()
}

/// A non-empty run decomposes into its last move.
proof fn lemma_run_last(b: Seq<Seq<Cell>>, m: Seq<Direction>)
    requires
        m.len() >= 1,
    ensures
        run(b, m) == move_view(run(b, m.drop_last()), m.last()),
{
    assert(m =~= m.drop_last().push(m.last()));
    lemma_run_push(b, m.drop_last(), m.last());
}

/// A solving sequence ends with a winning slide from the state its prefix
/// runs to.
proof fn lemma_solves_last(b: Seq<Seq<Cell>>, m: Seq<Direction>)
    requires
        solves(b, m),
    ensures
        m.len() >= 1,
        has_cell(run(b, m.drop_last()), Cell::Piece),
        slide_pc(run(b, m.drop_last()), m.last()).victory,
    decreases m.len(),
{
    if m.len() == 1 {
        assert(m.drop_last() =~= Seq::<Direction>::empty());
        assert(run(b, m.drop_last()) == b);
    } else {
        let rest = m.subrange(1, m.len() as int);
        lemma_solves_last(move_view(b, m[0]), rest);
        assert(m.drop_last()[0] == m[0]);
        assert(m.drop_last().subrange(1, m.len() - 1) =~= rest.drop_last());
        assert(run(b, m.drop_last())
            == run(move_view(b, m[0]), m.drop_last().subrange(1, m.len() - 1)));
        assert(rest.last() == m.last());
    }
}

/// Row-major encoding of a cell position.
spec fn enc(size: int, x: int, y: int) -> int {
    y * size + x
}

/// The encoded piece positions of all boards in the tree.
spec fn enc_set(nodes: Seq<TreeNode>, size: int) -> Set<int> {
    Set::new(
        |e: int|
            exists|n: int|
                0 <= n < nodes.len() && e == enc(
                    size,
                    first_pos(#[trigger] board_view(nodes[n].board), Cell::Piece).0,
                    first_pos(board_view(nodes[n].board), Cell::Piece).1,
                ),
    )
}

/// The position encoding is injective on the board.
proof fn lemma_enc_inj(size: int, x1: int, y1: int, x2: int, y2: int)
    requires
        0 <= x1 < size,
        0 <= y1 < size,
        0 <= x2 < size,
        0 <= y2 < size,
        enc(size, x1, y1) == enc(size, x2, y2),
    ensures
        x1 == x2 && y1 == y2,
{
    assert(y1 == y2 && x1 == x2) by (nonlinear_arith)
        requires
            0 <= x1 < size,
            0 <= y1 < size,
            0 <= x2 < size,
            0 <= y2 < size,
            y1 * size + x1 == y2 * size + x2,
    {
    }
}

/// The position encoding stays within [0, size * size).
proof fn lemma_enc_range(size: int, x: int, y: int)
    requires
        0 <= x < size,
        0 <= y < size,
    ensures
        0 <= enc(size, x, y) < size * size,
{
    assert(0 <= y * size + x < size * size) by (nonlinear_arith)
        requires
            0 <= x < size,
            0 <= y < size,
    {
    }
}

/// Appending a node does not change the trace of existing nodes.
proof fn lemma_trace_push(nodes: Seq<TreeNode>, node: TreeNode, k: int)
    requires
        links_ok(nodes),
        0 <= k < nodes.len(),
    ensures
        trace(nodes.push(node), k) == trace(nodes, k),
    decreases k,
{
    let ns = nodes.push(node);
    assert(ns[k] == nodes[k]);
    if k >= 1 {
        match (nodes[k].reached_by, nodes[k].parent_idx) {
            (Some(d), Some(p)) => {
                if (p as int) < k {
                    lemma_trace_push(nodes, node, p as int);
                }
            },
            _ => {},
        }
    }
}

/// Appending a node preserves closedness of existing nodes.
proof fn lemma_dir_closed_push(nodes: Seq<TreeNode>, node: TreeNode, n: int, d: Direction)
    requires
        0 <= n < nodes.len(),
        dir_closed(nodes, n, d),
    ensures
        dir_closed(nodes.push(node), n, d),
{
    let ns = nodes.push(node);
    assert(ns[n] == nodes[n]);
    let bv = board_view(nodes[n].board);
    let s = slide_pc(bv, d);
    if s.moved != 0 {
        let k = choose|k: int|
            0 <= k < nodes.len() && #[trigger] board_view(nodes[k].board) == move_view(bv, d);
        assert(ns[k] == nodes[k]);
        assert(in_tree(ns, move_view(bv, d)));
    }
}

/// A well-formed tree has well-formed parent links.
proof fn lemma_inv_links(nodes: Seq<TreeNode>, b0: Seq<Seq<Cell>>, base: Seq<Seq<Cell>>)
    requires
        tree_inv(nodes, b0, base),
    ensures
        links_ok(nodes),
{
    assert forall|n: int| 1 <= n < nodes.len() implies #[trigger] link_ok_at(nodes, n) by {
        assert(node_inv(nodes, b0, base, n));
    }
    if nodes.len() > 0 {
        assert(node_inv(nodes, b0, base, 0));
    }
}

/// Appending a well-formed child node preserves the tree invariant.
proof fn lemma_push_node(
    nodes: Seq<TreeNode>,
    b0: Seq<Seq<Cell>>,
    base: Seq<Seq<Cell>>,
    node: TreeNode,
    idxp: usize,
    d: Direction,
)
    requires
        tree_inv(nodes, b0, base),
        base_ok(base, b0),
        (idxp as int) < nodes.len(),
        node.reached_by == Some(d),
        node.parent_idx == Some(idxp),
        board_view(node.board) == move_view(board_view(nodes[idxp as int].board), d),
        slide_pc(board_view(nodes[idxp as int].board), d).moved > 0,
        !slide_pc(board_view(nodes[idxp as int].board), d).victory,
    ensures
        tree_inv(nodes.push(node), b0, base),
        forall|k: int| 0 <= k < nodes.len()
            ==> #[trigger] trace(nodes.push(node), k) == trace(nodes, k),
        trace(nodes.push(node), nodes.len() as int) == trace(nodes, idxp as int).push(d),
        forall|k: int, d2: Direction| 0 <= k < nodes.len() && #[trigger] dir_closed(nodes, k, d2)
            ==> dir_closed(nodes.push(node), k, d2),
        in_tree(nodes.push(node), board_view(node.board)),
        forall|bv: Seq<Seq<Cell>>| #[trigger] in_tree(nodes, bv) ==> in_tree(nodes.push(node), bv),
{
    assert forall|bv: Seq<Seq<Cell>>| #[trigger] in_tree(nodes, bv)
        implies in_tree(nodes.push(node), bv) by {
        let k = choose|k: int| 0 <= k < nodes.len() && #[trigger] board_view(nodes[k].board) == bv;
        assert(nodes.push(node)[k] == nodes[k]);
        assert(board_view(nodes.push(node)[k].board) == bv);
    }
    let ns = nodes.push(node);
    let pv = board_view(nodes[idxp as int].board);
    let bv = board_view(node.board);
    let newn = nodes.len() as int;
    lemma_inv_links(nodes, b0, base);
    assert forall|k: int| 0 <= k < nodes.len()
        implies #[trigger] trace(ns, k) == trace(nodes, k) by {
        lemma_trace_push(nodes, node, k);
    }
    assert(ns[newn] == node);
    assert(ns[idxp as int] == nodes[idxp as int]);
    assert(trace(ns, newn) == trace(ns, idxp as int).push(d));
    assert(trace(ns, newn) == trace(nodes, idxp as int).push(d));

    assert(node_inv(nodes, b0, base, idxp as int));
    let q = first_pos(pv, Cell::Piece);
    lemma_step_form(base, q.0, q.1, d);
    let s = slide_pc(pv, d);
    assert(bv == place(base, s.x, s.y));
    assert(first_pos(bv, Cell::Piece) == (s.x, s.y));

    // The new node's trace runs to its board and stays clean.
    lemma_run_push(b0, trace(nodes, idxp as int), d);
    lemma_clean_push(b0, trace(nodes, idxp as int), d);

    assert(node_inv(ns, b0, base, newn));
    assert forall|n: int| 0 <= n < ns.len() implies #[trigger] node_inv(ns, b0, base, n) by {
        if n < newn {
            assert(node_inv(nodes, b0, base, n));
            assert(ns[n] == nodes[n]);
            if n >= 1 {
                let p = nodes[n].parent_idx->0;
                assert(ns[p as int] == nodes[p as int]);
            }
        }
    }
    assert(board_view(ns[0].board) == b0);

    assert forall|k: int, d2: Direction| 0 <= k < nodes.len() && #[trigger] dir_closed(
        nodes, k, d2,
    ) implies dir_closed(ns, k, d2) by {
        lemma_dir_closed_push(nodes, node, k, d2);
    }
    assert(0 <= newn < ns.len() && board_view(ns[newn].board) == bv);
}

/// In a fully closed tree no move sequence solves any node's board.
proof fn lemma_unsolvable(
    nodes: Seq<TreeNode>,
    b0: Seq<Seq<Cell>>,
    base: Seq<Seq<Cell>>,
    moves: Seq<Direction>,
    n: int,
)
    requires
        tree_inv(nodes, b0, base),
        forall|k: int| 0 <= k < nodes.len() ==> #[trigger] node_closed(nodes, k),
        0 <= n < nodes.len(),
    ensures
        !solves(board_view(nodes[n].board), moves),
    decreases moves.len(),
{
    let bv = board_view(nodes[n].board);
    assert(node_inv(nodes, b0, base, n));
    assert(node_closed(nodes, n));
    if solves(bv, moves) {
        let d = moves[0];
        assert(dir_closed(nodes, n, d)) by {
            match d {
                Direction::Up => {},
                Direction::Down => {},
                Direction::Left => {},
                Direction::Right => {},
            }
        }
        let s = slide_pc(bv, d);
        assert(!s.victory);
        if moves.len() == 1 {
            assert(s.victory);
        } else {
            let rest = moves.subrange(1, moves.len() as int);
            assert(solves(move_view(bv, d), rest));
            if s.moved == 0 {
                lemma_move_view_noop(bv, d);
                assert(solves(bv, rest));
                lemma_unsolvable(nodes, b0, base, rest, n);
            } else {
                let k = choose|k: int|
                    0 <= k < nodes.len() && #[trigger] board_view(nodes[k].board) == move_view(
                        bv, d,
                    );
                lemma_unsolvable(nodes, b0, base, rest, k);
            }
        }
    }
}

/// Depths never decrease along the arena: the search expands the tree in
/// breadth-first order.
spec fn depths_sorted(nodes: Seq<TreeNode>) -> bool {
    forall|n1: int, n2: int|
        #![trigger depth(nodes, n1), depth(nodes, n2)]
        0 <= n1 <= n2 < nodes.len() ==> depth(nodes, n1) <= depth(nodes, n2)
}

/// No move sequence reaches a tree board in fewer moves than its depth.
spec fn depths_minimal(nodes: Seq<TreeNode>, b0: Seq<Seq<Cell>>) -> bool {
    forall|n: int, m: Seq<Direction>|
        #![trigger run(b0, m), nodes[n]]
        0 <= n < nodes.len() && run(b0, m) == board_view(nodes[n].board)
        ==> m.len() >= depth(nodes, n)
}

/// Every board reachable in at most k moves already stands in the tree.
spec fn frontier_complete(nodes: Seq<TreeNode>, b0: Seq<Seq<Cell>>, k: int) -> bool {
    forall|m: Seq<Direction>| m.len() <= k ==> in_tree(nodes, #[trigger] run(b0, m))
}

/// All node depths are bounded by k + 1.
spec fn depths_capped(nodes: Seq<TreeNode>, k: int) -> bool {
    forall|n: int| 0 <= n < nodes.len() ==> #[trigger] depth(nodes, n) <= k + 1
}

/// When the cursor advances one node, completeness extends to the next
/// depth: the new cursor node is at most one level deeper, and every board
/// reachable within that depth comes from one more move off an expanded
/// node.
proof fn lemma_frontier_advance(
    nodes: Seq<TreeNode>, b0: Seq<Seq<Cell>>, base: Seq<Seq<Cell>>, idx: int,
)
    requires
        tree_inv(nodes, b0, base),
        depths_sorted(nodes),
        depths_minimal(nodes, b0),
        frontier_complete(nodes, b0, depth(nodes, idx) as int),
        forall|k: int| 0 <= k <= idx ==> #[trigger] node_closed(nodes, k),
        0 <= idx < nodes.len(),
        idx + 1 < nodes.len(),
        depth(nodes, idx + 1) <= depth(nodes, idx) + 1,
    ensures
        frontier_complete(nodes, b0, depth(nodes, idx + 1) as int),
{
    let d0 = depth(nodes, idx) as int;
    let d1 = depth(nodes, idx + 1) as int;
    assert forall|m: Seq<Direction>| m.len() <= d1
        implies in_tree(nodes, #[trigger] run(b0, m)) by {
        if m.len() <= d0 {
            assert(in_tree(nodes, run(b0, m)));
        } else {
            let pre = m.drop_last();
            assert(pre.len() <= d0);
            assert(in_tree(nodes, run(b0, pre)));
            let n = choose|n: int|
                0 <= n < nodes.len() && #[trigger] board_view(nodes[n].board) == run(b0, pre);
            assert(pre.len() >= depth(nodes, n));
            if n > idx {
                assert(depth(nodes, idx + 1) <= depth(nodes, n));
                assert(false);
            }
            assert(node_closed(nodes, n));
            let d = m.last();
            assert(dir_closed(nodes, n, d)) by {
                match d {
                    Direction::Up => {},
                    Direction::Down => {},
                    Direction::Left => {},
                    Direction::Right => {},
                }
            }
            lemma_run_last(b0, m);
            let bv = board_view(nodes[n].board);
            let s = slide_pc(bv, d);
            if s.moved == 0 {
                assert(node_inv(nodes, b0, base, n));
                lemma_move_view_noop(bv, d);
                assert(run(b0, m) == bv);
                assert(in_tree(nodes, run(b0, m))) by {
                    assert(board_view(nodes[n].board) == run(b0, m));
                }
            } else {
                assert(in_tree(nodes, move_view(bv, d)));
                assert(run(b0, m) == move_view(bv, d));
            }
        }
    }
}

/// While every node before the cursor is closed, no solving sequence is as
/// short as the cursor's depth: a shorter win would end with a winning
/// slide off an already-expanded node.
proof fn lemma_minimal_so_far(
    nodes: Seq<TreeNode>, b0: Seq<Seq<Cell>>, base: Seq<Seq<Cell>>, idx: int, m: Seq<Direction>,
)
    requires
        tree_inv(nodes, b0, base),
        depths_sorted(nodes),
        depths_minimal(nodes, b0),
        frontier_complete(nodes, b0, depth(nodes, idx) as int),
        forall|k: int| 0 <= k < idx ==> #[trigger] node_closed(nodes, k),
        0 <= idx < nodes.len(),
        solves(b0, m),
    ensures
        m.len() > depth(nodes, idx),
{
    let d0 = depth(nodes, idx) as int;
    if m.len() <= d0 {
        lemma_solves_last(b0, m);
        let pre = m.drop_last();
        assert(pre.len() <= d0);
        assert(in_tree(nodes, run(b0, pre)));
        let n = choose|n: int|
            0 <= n < nodes.len() && #[trigger] board_view(nodes[n].board) == run(b0, pre);
        assert(pre.len() >= depth(nodes, n));
        if n >= idx {
            assert(depth(nodes, idx) <= depth(nodes, n));
            assert(false);
        }
        assert(node_closed(nodes, n));
        let d = m.last();
        assert(dir_closed(nodes, n, d)) by {
            match d {
                Direction::Up => {},
                Direction::Down => {},
                Direction::Left => {},
                Direction::Right => {},
            }
        }
        assert(slide_pc(board_view(nodes[n].board), d).victory);
        assert(false);
    }
}

/// A winning move from a tree board reaches a board no tree node holds:
/// tree boards keep their goal cell, a winning board has covered it.
proof fn lemma_victory_fresh(
    nodes: Seq<TreeNode>,
    b0: Seq<Seq<Cell>>,
    base: Seq<Seq<Cell>>,
    idxp: usize,
    d: Direction,
)
    requires
        tree_inv(nodes, b0, base),
        base_ok(base, b0),
        (idxp as int) < nodes.len(),
        slide_pc(board_view(nodes[idxp as int].board), d).moved > 0,
        slide_pc(board_view(nodes[idxp as int].board), d).victory,
    ensures
        !in_tree(nodes, move_view(board_view(nodes[idxp as int].board), d)),
{
    let pv = board_view(nodes[idxp as int].board);
    assert(node_inv(nodes, b0, base, idxp as int));
    let q = first_pos(pv, Cell::Piece);
    lemma_step_form(base, q.0, q.1, d);
    let s = slide_pc(pv, d);
    let bnew = move_view(pv, d);
    assert(bnew == place(base, s.x, s.y));
    assert(base[s.y][s.x] is Goal);
    if in_tree(nodes, bnew) {
        let k = choose|k: int|
            0 <= k < nodes.len() && #[trigger] board_view(nodes[k].board) == bnew;
        assert(node_inv(nodes, b0, base, k));
        let bk = board_view(nodes[k].board);
        let qk = first_pos(bk, Cell::Piece);
        assert(base[qk.1][qk.0] == Cell::Floor);
        if qk.0 == s.x && qk.1 == s.y {
            assert(false);
        } else {
            assert(bk[s.y][s.x] == base[s.y][s.x]);
            assert(bnew[s.y][s.x] == Cell::Piece);
            assert(false);
        }
    }
}

impl Tree {
    /// Create a new tree whose root holds the given board.
    fn new(board: Board) -> (t: Tree)
        ensures
            t.nodes@.len() == 1,
            t.nodes@[0].board == board,
            t.nodes@[0].reached_by is None,
            t.nodes@[0].parent_idx is None,
    {
        let mut nodes: Vec<TreeNode> = Vec::new();
        nodes.push(TreeNode { board, reached_by: None, parent_idx: None });
        Tree { nodes }
    }

    /// Borrow the node at the given index.
    fn get(&self, idx: usize) -> (r: &TreeNode)
        requires
            idx < self.nodes@.len(),
        ensures
            *r == self.nodes@[idx as int],
    {
        &self.nodes[idx]
    }

    /// Append a node.
    fn push(&mut self, node: TreeNode)
        ensures
            final(self).nodes@ == old(self).nodes@.push(node),
    {
        self.nodes.push(node)
    }

    /// Number of nodes in the tree.
    fn len(&self) -> (r: usize)
        ensures
            r == self.nodes@.len(),
    {
        self.nodes.len()
    }

    /// Check whether the tree already holds this exact board.
    fn contains_board(&self, board: &Board) -> (r: bool)
        ensures
            r == in_tree(self.nodes@, board_view(*board)),
    {
        let ghost bv = board_view(*board);
        let mut n: usize = 0;
        while n < self.nodes.len()
            invariant
                bv == board_view(*board),
                n <= self.nodes@.len(),
                forall|k: int| 0 <= k < n ==> #[trigger] board_view(self.nodes@[k].board) != bv,
            decreases self.nodes@.len() - n,
        {
            if boards_equal(&self.nodes[n].board, board) {
                proof {
                    assert(0 <= n < self.nodes@.len()
                        && board_view(self.nodes@[n as int].board) == bv);
                }
                return true;
            }
            n += 1;
        }
        proof {
            if in_tree(self.nodes@, bv) {
                let k = choose|k: int|
                    0 <= k < self.nodes@.len() && #[trigger] board_view(self.nodes@[k].board) == bv;
            }
        }
        false
    }

    /// Unwind the moves that lead from the root to the given node.
    fn trace_moves(&self, idx: usize) -> (r: Vec<Direction>)
        requires
            links_ok(self.nodes@),
            idx < self.nodes@.len(),
        ensures
            r@ == trace(self.nodes@, idx as int),
    {
        let ghost ns = self.nodes@;
        let mut rev: Vec<Direction> = Vec::new();
        let mut cur: usize = idx;
        loop
            invariant_except_break
                ns == self.nodes@,
                links_ok(ns),
                cur < ns.len(),
                trace(ns, idx as int) == trace(ns, cur as int) + rev@.reverse(),
            ensures
                trace(ns, idx as int) == rev@.reverse(),
            decreases cur,
        {
            let node = self.get(cur);
            match node.reached_by {
                None => {
                    proof {
                        assert(trace(ns, cur as int) == Seq::<Direction>::empty());
                        assert(Seq::<Direction>::empty() + rev@.reverse() =~= rev@.reverse());
                    }
                    break;
                },
                Some(d) => {
                    proof {
                        assert(link_ok_at(ns, cur as int));
                    }
                    let p = match node.parent_idx {
                        Some(p) => p,
                        None => vstd::pervasive::unreached(),
                    };
                    let ghost old_rev = rev@;
                    rev.push(d);
                    proof {
                        assert(trace(ns, cur as int) == trace(ns, p as int).push(d));
                        assert(rev@.reverse() =~= seq![d] + old_rev.reverse());
                        assert(trace(ns, p as int).push(d) + old_rev.reverse()
                            =~= trace(ns, p as int) + (seq![d] + old_rev.reverse()));
                    }
                    cur = p;
                },
            }
        }
        let mut out: Vec<Direction> = Vec::new();
        let mut k: usize = rev.len();
        while k > 0
            invariant
                k <= rev@.len(),
                out@.len() + k == rev@.len(),
                forall|t: int| 0 <= t < out@.len()
                    ==> #[trigger] out@[t] == rev@[rev@.len() - 1 - t],
            decreases k,
        {
            k -= 1;
            out.push(rev[k]);
        }
        proof {
            assert(out@ =~= rev@.reverse());
        }
        out
    }
}

/// Exhaustively explore the boards reachable by slide moves from the given
/// board. The result reports whether any move sequence reaches the goal,
/// and if so carries one such sequence together with its length.
pub fn explore_space(board: &Board) -> (r: ExploreStats)
    requires
        playable(board_view(*board)),
    ensures
        r.solvable == exists|m: Seq<Direction>| solves(board_view(*board), m),
        r.solvable ==> solves(board_view(*board), r.solution@) && r.num_moves == r.solution@.len(),
        r.solvable ==> forall|m: Seq<Direction>| #[trigger] solves(board_view(*board), m)
            ==> r.num_moves <= m.len(),
        !r.solvable ==> r.num_moves == 0 && r.solution@.len() == 0,
{
    let ghost b0 = board_view(*board);
    let size = board.len();
    let piece = find_cell(board, Cell::Piece);
    if piece.is_none() {
        proof {
            assert forall|m: Seq<Direction>| !solves(b0, m) by {
                if m.len() > 0 {
                    assert(!has_cell(b0, Cell::Piece));
                }
            }
        }
        return ExploreStats { solvable: false, num_moves: 0, solution: Vec::new() };
    }
    let p0 = piece.unwrap();
    let ghost p0x = p0.0 as int;
    let ghost p0y = p0.1 as int;
    let ghost base = b0.update(p0y, b0[p0y].update(p0x, Cell::Floor));
    proof {
        assert(b0[p0y][p0x] == Cell::Piece);
        assert(has_cell(b0, Cell::Piece)) by {
            assert(in_bounds(b0, p0x, p0y));
        }
        lemma_first_pos(b0, Cell::Piece);
        lemma_first_match_unique(
            b0, Cell::Piece,
            first_pos(b0, Cell::Piece).0, first_pos(b0, Cell::Piece).1,
            p0x, p0y,
        );
        assert(base_ok(base, b0)) by {
            assert forall|i: int, j: int| in_bounds(base, i, j)
                implies !((#[trigger] base[j][i]) is Piece) by {
                if i != p0x || j != p0y {
                    assert(base[j][i] == b0[j][i]);
                    if b0[j][i] is Piece {
                        assert(b0[j][i] == Cell::Piece && b0[p0y][p0x] == Cell::Piece);
                    }
                }
            }
            assert forall|i: int, j: int| in_bounds(base, i, j)
                implies !((#[trigger] base[j][i]) is Zone) by {
                if i != p0x || j != p0y {
                    assert(base[j][i] == b0[j][i]);
                }
            }
            assert(is_square(base)) by {
                assert forall|j: int| 0 <= j < base.len()
                    implies (#[trigger] base[j]).len() == base.len() by {
                    if j != p0y {
                        assert(base[j] == b0[j]);
                    }
                }
            }
        }
        assert(b0 =~~= place(base, p0x, p0y));
    }
    let mut tree = Tree::new(copy_board(board));
    let ghost mut used: Set<int> = Set::empty().insert(enc(size as int, p0x, p0y));
    proof {
        assert(size >= 1);
        assert(tree.nodes@.len() == 1);
        assert(trace(tree.nodes@, 0) == Seq::<Direction>::empty());
        assert(node_inv(tree.nodes@, b0, base, 0)) by {
            assert(board_view(tree.nodes@[0].board) == b0);
            assert(run(b0, Seq::<Direction>::empty()) == b0);
            assert(clean(b0, Seq::<Direction>::empty()));
        }
        assert(tree_inv(tree.nodes@, b0, base)) by {
            assert forall|n: int| 0 <= n < tree.nodes@.len()
                implies #[trigger] node_inv(tree.nodes@, b0, base, n) by {
                assert(n == 0);
            }
        }
        assert(used =~= enc_set(tree.nodes@, size as int)) by {
            assert(first_pos(board_view(tree.nodes@[0].board), Cell::Piece) == (p0x, p0y));
            assert forall|e: int| used.contains(e)
                == enc_set(tree.nodes@, size as int).contains(e) by {
                if enc_set(tree.nodes@, size as int).contains(e) {
                    let n = choose|n: int|
                        0 <= n < tree.nodes@.len() && e == enc(
                            size as int,
                            first_pos(
                                #[trigger] board_view(tree.nodes@[n].board), Cell::Piece).0,
                            first_pos(board_view(tree.nodes@[n].board), Cell::Piece).1,
                        );
                    assert(n == 0);
                }
            }
        }
        lemma_enc_range(size as int, p0x, p0y);
        vstd::set_lib::lemma_int_range(0, (size * size) as int);
        assert(used.subset_of(vstd::set_lib::set_int_range(0, (size * size) as int)));
        vstd::set_lib::lemma_len_subset(
            used,
            vstd::set_lib::set_int_range(0, (size * size) as int),
        );
        assert(depth(tree.nodes@, 0) == 0);
        assert(depths_sorted(tree.nodes@)) by {
            assert forall|n1: int, n2: int|
                #![trigger depth(tree.nodes@, n1), depth(tree.nodes@, n2)]
                0 <= n1 <= n2 < tree.nodes@.len()
                implies depth(tree.nodes@, n1) <= depth(tree.nodes@, n2) by {
                assert(n1 == 0 && n2 == 0);
            }
        }
        assert(depths_minimal(tree.nodes@, b0)) by {
            assert forall|n: int, m: Seq<Direction>|
                #![trigger run(b0, m), tree.nodes@[n]]
                0 <= n < tree.nodes@.len() && run(b0, m) == board_view(tree.nodes@[n].board)
                implies m.len() >= depth(tree.nodes@, n) by {
                assert(n == 0 && depth(tree.nodes@, 0) == 0);
            }
        }
        assert(frontier_complete(tree.nodes@, b0, 0)) by {
            assert forall|m: Seq<Direction>| m.len() <= 0
                implies in_tree(tree.nodes@, #[trigger] run(b0, m)) by {
                assert(run(b0, m) == b0);
                assert(board_view(tree.nodes@[0].board) == b0);
            }
        }
        assert(depths_capped(tree.nodes@, 0)) by {
            assert forall|n: int| 0 <= n < tree.nodes@.len()
                implies #[trigger] depth(tree.nodes@, n) <= 1 by {
                assert(n == 0);
            }
        }
    }
    let mut idx: usize = 0;
    while idx < tree.len()
        invariant
            b0 == board_view(*board),
            playable(b0),
            size == b0.len(),
            size >= 1,
            base_ok(base, b0),
            tree_inv(tree.nodes@, b0, base),
            idx <= tree.nodes@.len(),
            used == enc_set(tree.nodes@, size as int),
            used.finite(),
            used.len() == tree.nodes@.len(),
            used.subset_of(vstd::set_lib::set_int_range(0, (size * size) as int)),
            tree.nodes@.len() <= size * size,
            forall|n: int| 0 <= n < idx ==> #[trigger] node_closed(tree.nodes@, n),
            depths_sorted(tree.nodes@),
            depths_minimal(tree.nodes@, b0),
            idx < tree.nodes@.len() ==> frontier_complete(
                tree.nodes@, b0, depth(tree.nodes@, idx as int) as int,
            ),
            idx < tree.nodes@.len() ==> depths_capped(
                tree.nodes@, depth(tree.nodes@, idx as int) as int,
            ),
        decreases size * size - idx,
    {
        let mut di: usize = 0;
        while di < 4
            invariant
                b0 == board_view(*board),
                playable(b0),
                size == b0.len(),
                size >= 1,
                base_ok(base, b0),
                tree_inv(tree.nodes@, b0, base),
                idx < tree.nodes@.len(),
                used == enc_set(tree.nodes@, size as int),
                used.finite(),
                used.len() == tree.nodes@.len(),
                used.subset_of(vstd::set_lib::set_int_range(0, (size * size) as int)),
                tree.nodes@.len() <= size * size,
                forall|n: int| 0 <= n < idx ==> #[trigger] node_closed(tree.nodes@, n),
                depths_sorted(tree.nodes@),
                depths_minimal(tree.nodes@, b0),
                frontier_complete(tree.nodes@, b0, depth(tree.nodes@, idx as int) as int),
                depths_capped(tree.nodes@, depth(tree.nodes@, idx as int) as int),
                di <= 4,
                forall|dd: int| 0 <= dd < di
                    ==> #[trigger] dir_closed(tree.nodes@, idx as int, dir_at(dd)),
            decreases 4 - di,
        {
            let dir = dir_from(di);
            let ghost bq = board_view(tree.nodes@[idx as int].board);
            proof {
                assert(node_inv(tree.nodes@, b0, base, idx as int));
            }
            let skip = match tree.get(idx).reached_by {
                Some(d2) => d2 == dir,
                None => false,
            };
            if skip {
                proof {
                    assert(idx >= 1);
                    assert(dir_closed(tree.nodes@, idx as int, dir));
                }
                di += 1;
                continue;
            }
            let mut candidate = copy_board(&tree.get(idx).board);
            proof {
                assert(board_view(candidate) == bq);
            }
            let ghost q = first_pos(bq, Cell::Piece);
            let ghost s = slide_pc(bq, dir);
            let stats = match move_piece(&mut candidate, dir) {
                Some(st) => st,
                None => vstd::pervasive::unreached(),
            };
            proof {
                assert(board_view(candidate) == move_view(bq, dir));
                assert(stats.cells_moved as int == s.moved);
                assert(stats.victory == s.victory);
            }
            if stats.cells_moved == 0 {
                proof {
                    lemma_first_pos(bq, Cell::Piece);
                    lemma_slide_props(bq, q.0, q.1, dir);
                    assert(!s.victory);
                    assert(dir_closed(tree.nodes@, idx as int, dir));
                }
                di += 1;
                continue;
            }
            if tree.contains_board(&candidate) {
                proof {
                    if s.victory {
                        lemma_victory_fresh(tree.nodes@, b0, base, idx, dir);
                    }
                    assert(dir_closed(tree.nodes@, idx as int, dir));
                }
                di += 1;
                continue;
            }
            if stats.victory {
                proof {
                    lemma_inv_links(tree.nodes@, b0, base);
                    assert(run(b0, trace(tree.nodes@, idx as int)) == bq);
                    assert(clean(b0, trace(tree.nodes@, idx as int)));
                    lemma_solves_push(b0, trace(tree.nodes@, idx as int), dir);
                }
                let mut solution = tree.trace_moves(idx);
                solution.push(dir);
                proof {
                    assert(solves(b0, solution@));
                    assert(solution@.len() == depth(tree.nodes@, idx as int) + 1);
                    assert forall|m2: Seq<Direction>| #[trigger] solves(b0, m2)
                        implies solution@.len() <= m2.len() by {
                        lemma_minimal_so_far(tree.nodes@, b0, base, idx as int, m2);
                    }
                }
                let n = solution.len();
                return ExploreStats { solvable: true, num_moves: n, solution };
            }
            let node = TreeNode {
                board: candidate,
                reached_by: Some(dir),
                parent_idx: Some(idx),
            };
            let ghost nodes_old = tree.nodes@;
            let ghost bnew = board_view(node.board);
            let ghost node_snap = node;
            tree.push(node);
            proof {
                lemma_push_node(nodes_old, b0, base, node_snap, idx, dir);
                // Bookkeeping for the position bound: the fresh board's piece
                // stands on a cell no other tree board uses.
                lemma_step_form(base, q.0, q.1, dir);
                assert(first_pos(bnew, Cell::Piece) == (s.x, s.y));
                let e = enc(size as int, s.x, s.y);
                assert(!used.contains(e)) by {
                    if used.contains(e) {
                        let n = choose|n: int|
                            0 <= n < nodes_old.len() && e == enc(
                                size as int,
                                first_pos(
                                    #[trigger] board_view(nodes_old[n].board), Cell::Piece).0,
                                first_pos(board_view(nodes_old[n].board), Cell::Piece).1,
                            );
                        assert(node_inv(nodes_old, b0, base, n));
                        let qn = first_pos(board_view(nodes_old[n].board), Cell::Piece);
                        lemma_enc_inj(size as int, qn.0, qn.1, s.x, s.y);
                        assert(board_view(nodes_old[n].board) == place(base, s.x, s.y));
                        assert(board_view(nodes_old[n].board) == bnew);
                        assert(in_tree(nodes_old, bnew));
                    }
                }
                used = used.insert(e);
                assert(used =~= enc_set(tree.nodes@, size as int)) by {
                    assert forall|e2: int| used.contains(e2)
                        == enc_set(tree.nodes@, size as int).contains(e2) by {
                        if enc_set(tree.nodes@, size as int).contains(e2) {
                            let n = choose|n: int|
                                0 <= n < tree.nodes@.len() && e2 == enc(
                                    size as int,
                                    first_pos(
                                        #[trigger] board_view(tree.nodes@[n].board),
                                        Cell::Piece).0,
                                    first_pos(board_view(tree.nodes@[n].board), Cell::Piece).1,
                                );
                            if n < nodes_old.len() {
                                assert(tree.nodes@[n] == nodes_old[n]);
                                assert(enc_set(nodes_old, size as int).contains(e2));
                            } else {
                                assert(tree.nodes@[n] == node);
                            }
                        }
                        if enc_set(nodes_old, size as int).contains(e2) {
                            let n = choose|n: int|
                                0 <= n < nodes_old.len() && e2 == enc(
                                    size as int,
                                    first_pos(
                                        #[trigger] board_view(nodes_old[n].board),
                                        Cell::Piece).0,
                                    first_pos(board_view(nodes_old[n].board), Cell::Piece).1,
                                );
                            assert(tree.nodes@[n] == nodes_old[n]);
                            assert(board_view(tree.nodes@[n].board)
                                == board_view(nodes_old[n].board));
                        }
                        if e2 == e {
                            assert(board_view(tree.nodes@[nodes_old.len() as int].board)
                                == bnew);
                        }
                    }
                }
                lemma_enc_range(size as int, s.x, s.y);
                vstd::set_lib::lemma_int_range(0, (size * size) as int);
                vstd::set_lib::lemma_len_subset(
                    used,
                    vstd::set_lib::set_int_range(0, (size * size) as int),
                );
                // Breadth-first bookkeeping: the new node lies one level
                // below the cursor, no shorter run reaches its board, and
                // completeness carries over unchanged.
                let nodes_new = tree.nodes@;
                let dcur = depth(nodes_old, idx as int) as int;
                let newn = nodes_old.len() as int;
                assert(trace(nodes_new, idx as int) == trace(nodes_old, idx as int));
                assert(depth(nodes_new, idx as int) == dcur);
                assert(depth(nodes_new, newn) == dcur + 1);
                assert forall|k: int| 0 <= k < nodes_new.len()
                    implies #[trigger] depth(nodes_new, k) <= dcur + 1 by {
                    if k < newn {
                        assert(trace(nodes_new, k) == trace(nodes_old, k));
                        assert(depth(nodes_old, k) <= dcur + 1);
                    }
                }
                assert(depths_sorted(nodes_new)) by {
                    assert forall|n1: int, n2: int|
                        #![trigger depth(nodes_new, n1), depth(nodes_new, n2)]
                        0 <= n1 <= n2 < nodes_new.len()
                        implies depth(nodes_new, n1) <= depth(nodes_new, n2) by {
                        if n2 < newn {
                            assert(trace(nodes_new, n1) == trace(nodes_old, n1));
                            assert(trace(nodes_new, n2) == trace(nodes_old, n2));
                            assert(depth(nodes_old, n1) <= depth(nodes_old, n2));
                        } else {
                            if n1 < newn {
                                assert(trace(nodes_new, n1) == trace(nodes_old, n1));
                                assert(depth(nodes_old, n1) <= dcur + 1);
                            }
                        }
                    }
                }
                assert(depths_minimal(nodes_new, b0)) by {
                    assert forall|n: int, m2: Seq<Direction>|
                        #![trigger run(b0, m2), nodes_new[n]]
                        0 <= n < nodes_new.len()
                        && run(b0, m2) == board_view(nodes_new[n].board)
                        implies m2.len() >= depth(nodes_new, n) by {
                        if n < newn {
                            assert(nodes_new[n] == nodes_old[n]);
                            assert(trace(nodes_new, n) == trace(nodes_old, n));
                            assert(m2.len() >= depth(nodes_old, n));
                        } else {
                            assert(board_view(nodes_new[n].board) == bnew);
                            if m2.len() <= dcur {
                                assert(in_tree(nodes_old, run(b0, m2)));
                                assert(in_tree(nodes_old, bnew));
                                assert(false);
                            }
                        }
                    }
                }
                assert(frontier_complete(nodes_new, b0, dcur)) by {
                    assert forall|m2: Seq<Direction>| m2.len() <= dcur
                        implies in_tree(nodes_new, #[trigger] run(b0, m2)) by {
                        assert(in_tree(nodes_old, run(b0, m2)));
                    }
                }
                assert(depths_capped(nodes_new, dcur));
            }
            proof {
                assert(in_tree(tree.nodes@, move_view(bq, dir)));
                assert(board_view(tree.nodes@[idx as int].board) == bq);
                assert(dir_closed(tree.nodes@, idx as int, dir));
                assert forall|dd: int| 0 <= dd < di + 1
                    implies #[trigger] dir_closed(tree.nodes@, idx as int, dir_at(dd)) by {
                    if dd < di {
                        assert(dir_closed(nodes_old, idx as int, dir_at(dd)));
                    } else {
                        assert(dir_at(dd) == dir);
                    }
                }
                assert forall|n: int| 0 <= n < idx
                    implies #[trigger] node_closed(tree.nodes@, n) by {
                    assert(node_closed(nodes_old, n));
                    assert(dir_closed(nodes_old, n, Direction::Up));
                    assert(dir_closed(nodes_old, n, Direction::Down));
                    assert(dir_closed(nodes_old, n, Direction::Left));
                    assert(dir_closed(nodes_old, n, Direction::Right));
                }
            }
            di += 1;
        }
        proof {
            assert(dir_closed(tree.nodes@, idx as int, dir_at(0)));
            assert(dir_closed(tree.nodes@, idx as int, dir_at(1)));
            assert(dir_closed(tree.nodes@, idx as int, dir_at(2)));
            assert(dir_closed(tree.nodes@, idx as int, dir_at(3)));
            assert(node_closed(tree.nodes@, idx as int));
            assert forall|n: int| 0 <= n < idx + 1
                implies #[trigger] node_closed(tree.nodes@, n) by {
            }
            if idx + 1 < tree.nodes@.len() {
                assert(depth(tree.nodes@, idx as int + 1) <= depth(tree.nodes@, idx as int) + 1);
                assert forall|k: int| 0 <= k <= idx
                    implies #[trigger] node_closed(tree.nodes@, k) by {
                }
                lemma_frontier_advance(tree.nodes@, b0, base, idx as int);
                assert(depth(tree.nodes@, idx as int) <= depth(tree.nodes@, idx as int + 1));
                assert(depths_capped(
                    tree.nodes@, depth(tree.nodes@, idx as int + 1) as int,
                )) by {
                    assert forall|n: int| 0 <= n < tree.nodes@.len()
                        implies #[trigger] depth(tree.nodes@, n)
                            <= depth(tree.nodes@, idx as int + 1) + 1 by {
                        assert(depth(tree.nodes@, n)
                            <= depth(tree.nodes@, idx as int) + 1);
                    }
                }
            }
        }
        idx += 1;
    }
    proof {
        assert forall|m: Seq<Direction>| !solves(b0, m) by {
            lemma_unsolvable(tree.nodes@, b0, base, m, 0);
        }
    }
    ExploreStats { solvable: false, num_moves: 0, solution: Vec::new() }
}

/// The i-th direction in the solver's exploration order.
fn dir_from(i: usize) -> (d: Direction)
    requires
        i < 4,
    ensures
        d == dir_at(i as int),
{
    if i == 0 {
        Direction::Up
    } else if i == 1 {
        Direction::Down
    } else if i == 2 {
        Direction::Left
    } else {
        Direction::Right
    }
}

} // verus!
