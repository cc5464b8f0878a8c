//! The eight symmetries of a square board: the D4 orbit.

use vstd::prelude::*;

use crate::base::{Board, Cell, board_view, copy_board, is_square};

verus! {

/// The counter-clockwise quarter turn: cell (x, size-1-y) of the source
/// lands at (x, y) of the result.
pub open spec fn rotate_view(b: Seq<Seq<Cell>>) -> Seq<Seq<Cell>> {
    Seq::new(b.len(), |y: int| Seq::new(b.len(), |x: int| b[x][b.len() - 1 - y]))
}

/// The mirror image over the vertical axis: cell (size-1-x, y) of the
/// source lands at (x, y) of the result.
pub open spec fn reflect_view(b: Seq<Seq<Cell>>) -> Seq<Seq<Cell>> {
    Seq::new(b.len(), |y: int| Seq::new(b.len(), |x: int| b[y][b.len() - 1 - x]))
}

/// The full D4 orbit of a board: the identity, the three proper rotations,
/// the reflection, and the reflection followed by each rotation.
pub open spec fn orbit_view(b: Seq<Seq<Cell>>) -> Seq<Seq<Seq<Cell>>> {
    let a = rotate_view(b);
    let a2 = rotate_view(a);
    let a3 = rotate_view(a2);
    let f = reflect_view(b);
    let af = rotate_view(f);
    let a2f = rotate_view(af);
    let a3f = rotate_view(a2f);
    seq![b, a, a2, a3, f, af, a2f, a3f]
}

/// A rotated square board is again square, of the same size.
pub proof fn lemma_rotate_square(b: Seq<Seq<Cell>>)
    requires
        is_square(b),
    ensures
        is_square(rotate_view(b)),
        rotate_view(b).len() == b.len(),
{
}

/// A reflected square board is again square, of the same size.
pub proof fn lemma_reflect_square(b: Seq<Seq<Cell>>)
    requires
        is_square(b),
    ensures
        is_square(reflect_view(b)),
        reflect_view(b).len() == b.len(),
{
}

/// Four quarter turns return the original board.
pub proof fn lemma_rotate_four(b: Seq<Seq<Cell>>)
    requires
        is_square(b),
    ensures
        rotate_view(rotate_view(rotate_view(rotate_view(b)))) == b,
{
    let a = rotate_view(b);
    let a2 = rotate_view(a);
    let a3 = rotate_view(a2);
    let a4 = rotate_view(a3);
    lemma_rotate_square(b);
    lemma_rotate_square(a);
    lemma_rotate_square(a2);
    lemma_rotate_square(a3);
    assert(a4 =~~= b);
}

/// Two reflections return the original board.
pub proof fn lemma_reflect_twice(b: Seq<Seq<Cell>>)
    requires
        is_square(b),
    ensures
        reflect_view(reflect_view(b)) == b,
{
    lemma_reflect_square(b);
    assert(reflect_view(reflect_view(b)) =~~= b);
}

/// Every member of the orbit is a square board of the same size, and the
/// original board is among them.
pub proof fn lemma_orbit_square(b: Seq<Seq<Cell>>)
    requires
        is_square(b),
    ensures
        orbit_view(b).len() == 8,
        orbit_view(b)[0] == b,
        forall|k: int| 0 <= k < 8 ==>
            is_square(#[trigger] orbit_view(b)[k]) && orbit_view(b)[k].len() == b.len(),
{
    let a = rotate_view(b);
    let a2 = rotate_view(a);
    let f = reflect_view(b);
    let af = rotate_view(f);
    let a2f = rotate_view(af);
    lemma_rotate_square(b);
    lemma_rotate_square(a);
    lemma_rotate_square(a2);
    lemma_reflect_square(b);
    lemma_rotate_square(f);
    lemma_rotate_square(af);
    lemma_rotate_square(a2f);
}

/// Counter-clockwise 90° rotation.
pub fn rotate(board: &Board) -> (r: Board)
    requires
        is_square(board_view(*board)),
    ensures
        board_view(r) == rotate_view(board_view(*board)),
{
    let ghost b = board_view(*board);
    let size = board.len();
    let mut output: Board = Vec::new();
    let mut y: usize = 0;
    while y < size
        invariant
            y <= size,
            size == b.len(),
            b == board_view(*board),
            is_square(b),
            output@.len() == y,
            forall|j: int| 0 <= j < y ==> #[trigger] output@[j]@ == rotate_view(b)[j],
        decreases size - y,
    {
        let mut row: Vec<Cell> = Vec::new();
        let mut x: usize = 0;
        while x < size
            invariant
                y < size,
                x <= size,
                size == b.len(),
                b == board_view(*board),
                is_square(b),
                row@.len() == x,
                forall|i: int| 0 <= i < x ==> #[trigger] row@[i] == b[i][size - 1 - y],
            decreases size - x,
        {
            proof {
                assert(b[x as int] == board@[x as int]@);
            }
            row.push(board[x][size - 1 - y]);
            x += 1;
        }
        proof {
            assert(row@ =~= rotate_view(b)[y as int]);
        }
        output.push(row);
        y += 1;
    }
    proof {
        assert(board_view(output) =~= rotate_view(b));
    }
    output
}

/// Reflection over the vertical axis.
pub fn reflect_x(board: &Board) -> (r: Board)
    requires
        is_square(board_view(*board)),
    ensures
        board_view(r) == reflect_view(board_view(*board)),
{
    let ghost b = board_view(*board);
    let size = board.len();
    let mut output: Board = Vec::new();
    let mut y: usize = 0;
    while y < size
        invariant
            y <= size,
            size == b.len(),
            b == board_view(*board),
            is_square(b),
            output@.len() == y,
            forall|j: int| 0 <= j < y ==> #[trigger] output@[j]@ == reflect_view(b)[j],
        decreases size - y,
    {
        let mut row: Vec<Cell> = Vec::new();
        let mut x: usize = 0;
        while x < size
            invariant
                y < size,
                x <= size,
                size == b.len(),
                b == board_view(*board),
                is_square(b),
                row@.len() == x,
                forall|i: int| 0 <= i < x ==> #[trigger] row@[i] == b[y as int][size - 1 - i],
            decreases size - x,
        {
            proof {
                assert(b[y as int] == board@[y as int]@);
            }
            row.push(board[y][size - 1 - x]);
            x += 1;
        }
        proof {
            assert(row@ =~= reflect_view(b)[y as int]);
        }
        output.push(row);
        y += 1;
    }
    proof {
        assert(board_view(output) =~= reflect_view(b));
    }
    output
}

/// All eight D4 symmetries of a board, the board itself first.
pub fn all(board: &Board) -> (r: Vec<Board>)
    requires
        is_square(board_view(*board)),
    ensures
        r@.map_values(|m: Board| board_view(m)) == orbit_view(board_view(*board)),
{
    let ghost b = board_view(*board);
    proof {
        lemma_orbit_square(b);
    }
    let e = copy_board(board);
    let a = rotate(board);
    let a2 = rotate(&a);
    let a3 = rotate(&a2);
    let f = reflect_x(board);
    let af = rotate(&f);
    let a2f = rotate(&af);
    let a3f = rotate(&a2f);
    let mut out: Vec<Board> = Vec::new();
    out.push(e);
    out.push(a);
    out.push(a2);
    out.push(a3);
    out.push(f);
    out.push(af);
    out.push(a2f);
    out.push(a3f);
    proof {
        assert(out@.map_values(|m: Board| board_view(m)) =~= orbit_view(b));
    }
    out
}

} // verus!
