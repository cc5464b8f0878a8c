//! The grid model: cells, boards, and the board-producer capabilities that
//! the pipeline stages implement.

use vstd::prelude::*;

verus! {

/// One square of a board.
///
/// `Zone` is a transient label used only while connected components are
/// being computed; boards handed to consumers never contain it.
#[derive(Clone, Copy, PartialEq, Eq, Structural, Debug)]
pub enum Cell {
    Floor,
    Wall,
    Piece,
    Goal,
    Zone(u32),
}

/// A board: a square grid of cells, stored row by row.
pub type Board = Vec<Vec<Cell>>;

/// The mathematical view of a board: a sequence of rows of cells.
pub open spec fn board_view(b: Board) -> Seq<Seq<Cell>> {
    b@.map_values(|row: Vec<Cell>| row@)
}

/// Every row is as long as the grid is tall.
pub open spec fn is_square(b: Seq<Seq<Cell>>) -> bool {
    forall|y: int| 0 <= y < b.len() ==> (#[trigger] b[y]).len() == b.len()
}

/// A square board whose coordinates fit in a `u8`.
pub open spec fn board_ok(b: Seq<Seq<Cell>>) -> bool {
    is_square(b) && b.len() <= 255
}

/// The coordinate pair (x, y) addresses a cell of the board.
pub open spec fn in_bounds(b: Seq<Seq<Cell>>, x: int, y: int) -> bool {
    0 <= x < b.len() && 0 <= y < b.len()
}

/// Some cell of the board holds `c`.
pub open spec fn has_cell(b: Seq<Seq<Cell>>, c: Cell) -> bool {
    exists|i: int, j: int| in_bounds(b, i, j) && #[trigger] b[j][i] == c
}

/// (x1, y1) is scanned before (x2, y2) in row-major order.
pub open spec fn scan_before(x1: int, y1: int, x2: int, y2: int) -> bool {
    y1 < y2 || (y1 == y2 && x1 < x2)
}

/// (x, y) is the first cell holding `c` in row-major scan order.
pub open spec fn first_match(b: Seq<Seq<Cell>>, c: Cell, x: int, y: int) -> bool {
    &&& in_bounds(b, x, y)
    &&& b[y][x] == c
    &&& forall|i: int, j: int|
        in_bounds(b, i, j) && scan_before(i, j, x, y) ==> #[trigger] b[j][i] != c
}

/// The position of the first cell holding `c`, meaningful when `has_cell`.
pub open spec fn first_pos(b: Seq<Seq<Cell>>, c: Cell) -> (int, int) {
    choose|p: (int, int)| first_match(b, c, p.0, p.1)
}

/// Starting from any occurrence of `c`, a scan-first occurrence exists.
proof fn lemma_first_match_from(b: Seq<Seq<Cell>>, c: Cell, x: int, y: int)
    requires
        in_bounds(b, x, y),
        b[y][x] == c,
    ensures
        exists|i: int, j: int| #[trigger] first_match(b, c, i, j),
    decreases y * b.len() + x,
{
    if exists|i: int, j: int|
        in_bounds(b, i, j) && scan_before(i, j, x, y) && #[trigger] b[j][i] == c {
        let (i, j) = choose|i: int, j: int|
            in_bounds(b, i, j) && scan_before(i, j, x, y) && #[trigger] b[j][i] == c;
        assert(j * b.len() + i < y * b.len() + x) by (nonlinear_arith)
            requires
                0 <= i < b.len(),
                0 <= j,
                0 <= x,
                scan_before(i, j, x, y),
        {
        }
        lemma_first_match_from(b, c, i, j);
    } else {
        assert(first_match(b, c, x, y));
    }
}

/// If the board holds `c` anywhere, `first_pos` names a genuine first match.
pub proof fn lemma_first_pos(b: Seq<Seq<Cell>>, c: Cell)
    requires
        has_cell(b, c),
    ensures
        first_match(b, c, first_pos(b, c).0, first_pos(b, c).1),
{
    let (x, y) = choose|x: int, y: int| in_bounds(b, x, y) && #[trigger] b[y][x] == c;
    lemma_first_match_from(b, c, x, y);
    let (i, j) = choose|i: int, j: int| #[trigger] first_match(b, c, i, j);
    let p = first_pos(b, c);
    assert(first_match(b, c, p.0, p.1)) by {
        assert(first_match(b, c, i, j));
    }
}

/// There is at most one first match.
pub proof fn lemma_first_match_unique(b: Seq<Seq<Cell>>, c: Cell, x1: int, y1: int, x2: int, y2: int)
    requires
        first_match(b, c, x1, y1),
        first_match(b, c, x2, y2),
    ensures
        x1 == x2 && y1 == y2,
{
    if (x1, y1) != (x2, y2) {
        if scan_before(x1, y1, x2, y2) {
            assert(b[y1][x1] != c);
        } else {
            assert(scan_before(x2, y2, x1, y1));
            assert(b[y2][x2] != c);
        }
    }
}

/// True when the cell is a floor tile.
pub fn is_floor(cell: Cell) -> (r: bool)
    ensures
        r == (cell is Floor),
{
    match cell {
        Cell::Floor => true,
        _ => false,
    }
}

/// True when the cell is a wall tile.
pub fn is_wall(cell: Cell) -> (r: bool)
    ensures
        r == (cell is Wall),
{
    match cell {
        Cell::Wall => true,
        _ => false,
    }
}

/// True when the cell is the goal tile.
pub fn is_goal(cell: Cell) -> (r: bool)
    ensures
        r == (cell is Goal),
{
    match cell {
        Cell::Goal => true,
        _ => false,
    }
}

/// Scan the board in row-major order for the first cell equal to `cell`.
pub fn find_cell(board: &Board, cell: Cell) -> (r: Option<(u8, u8)>)
    requires
        board_ok(board_view(*board)),
    ensures
        match r {
            Some(p) => first_match(board_view(*board), cell, p.0 as int, p.1 as int),
            None => !has_cell(board_view(*board), cell),
        },
{
    let ghost b = board_view(*board);
    let size = board.len();
    let mut y: usize = 0;
    while y < size
        invariant
            y <= size,
            size == b.len(),
            b == board_view(*board),
            board_ok(b),
            forall|i: int, j: int|
                in_bounds(b, i, j) && j < y ==> #[trigger] b[j][i] != cell,
        decreases size - y,
    {
        let mut x: usize = 0;
        while x < size
            invariant
                y < size,
                x <= size,
                size == b.len(),
                b == board_view(*board),
                board_ok(b),
                forall|i: int, j: int|
                    in_bounds(b, i, j) && j < y ==> #[trigger] b[j][i] != cell,
                forall|i: int| 0 <= i < x ==> #[trigger] b[y as int][i] != cell,
            decreases size - x,
        {
            if cell == board[y][x] {
                assert(b[y as int][x as int] == cell);
                return Some((x as u8, y as u8));
            }
            x += 1;
        }
        y += 1;
    }
    None
}

/// Copy a board cell by cell.
pub fn copy_board(board: &Board) -> (r: Board)
    ensures
        board_view(r) == board_view(*board),
        r@.len() == board@.len(),
{
    let mut out: Board = Vec::new();
    let mut y: usize = 0;
    while y < board.len()
        invariant
            y <= board@.len(),
            out@.len() == y,
            forall|j: int| 0 <= j < y ==> #[trigger] out@[j]@ == board@[j]@,
        decreases board@.len() - y,
    {
        let row = &board[y];
        let mut new_row: Vec<Cell> = Vec::new();
        let mut x: usize = 0;
        while x < row.len()
            invariant
                x <= row@.len(),
                new_row@.len() == x,
                forall|i: int| 0 <= i < x ==> #[trigger] new_row@[i] == row@[i],
            decreases row@.len() - x,
        {
            new_row.push(row[x]);
            x += 1;
        }
        proof {
            assert(new_row@ =~= board@[y as int]@);
        }
        out.push(new_row);
        y += 1;
    }
    proof {
        assert(board_view(out) =~= board_view(*board));
    }
    out
}

/// Write one cell of the board in place.
pub fn set_cell(board: &mut Board, x: usize, y: usize, c: Cell)
    requires
        y < old(board)@.len(),
        x < old(board)@[y as int]@.len(),
    ensures
        board_view(*final(board)) == board_view(*old(board)).update(
            y as int,
            board_view(*old(board))[y as int].update(x as int, c),
        ),
        final(board)@.len() == old(board)@.len(),
{
    board[y][x] = c;
    proof {
        assert(board_view(*board) =~= board_view(*old(board)).update(
            y as int,
            board_view(*old(board))[y as int].update(x as int, c),
        ));
    }
}

/// Compare two boards cell by cell.
pub fn boards_equal(a: &Board, b: &Board) -> (r: bool)
    ensures
        r == (board_view(*a) == board_view(*b)),
{
    let ghost av = board_view(*a);
    let ghost bv = board_view(*b);
    if a.len() != b.len() {
        proof {
            assert(av.len() != bv.len());
        }
        return false;
    }
    let mut y: usize = 0;
    while y < a.len()
        invariant
            av == board_view(*a),
            bv == board_view(*b),
            av.len() == bv.len(),
            y <= av.len(),
            forall|j: int| 0 <= j < y ==> #[trigger] av[j] == bv[j],
        decreases av.len() - y,
    {
        proof {
            assert(av[y as int] == a@[y as int]@);
            assert(bv[y as int] == b@[y as int]@);
        }
        let row_a = &a[y];
        let row_b = &b[y];
        if row_a.len() != row_b.len() {
            proof {
                assert(av[y as int].len() != bv[y as int].len());
                assert(av != bv) by {
                    if av == bv {
                        assert(av[y as int] == bv[y as int]);
                    }
                }
            }
            return false;
        }
        let mut x: usize = 0;
        while x < row_a.len()
            invariant
                av == board_view(*a),
                bv == board_view(*b),
                row_a@ == av[y as int],
                row_b@ == bv[y as int],
                y < av.len(),
                av.len() == bv.len(),
                row_a@.len() == row_b@.len(),
                x <= row_a@.len(),
                forall|i: int| 0 <= i < x ==> #[trigger] row_a@[i] == row_b@[i],
            decreases row_a@.len() - x,
        {
            if row_a[x] != row_b[x] {
                proof {
                    assert(av[y as int][x as int] != bv[y as int][x as int]);
                    assert(av != bv) by {
                        if av == bv {
                            assert(av[y as int] == bv[y as int]);
                        }
                    }
                }
                return false;
            }
            x += 1;
        }
        proof {
            assert(av[y as int] =~= bv[y as int]);
        }
        y += 1;
    }
    proof {
        assert(av =~= bv);
    }
    true
}

/// A lazy producer of boards. Each call to `next_board` hands out one
/// board or signals exhaustion; `fuel` bounds how many boards can still
/// come, and the per-implementation `yields` and `ends` relations say what
/// one step means.
pub trait BoardIter: Sized {
    /// Well-formedness of the producer's state.
    spec fn wf(&self) -> bool;

    /// An upper bound on how many more boards this producer can hand out.
    spec fn fuel(&self) -> nat;

    /// What one successful step means: `post` is the state after the call
    /// and `b` the view of the board handed out.
    spec fn yields(&self, post: Self, b: Seq<Seq<Cell>>) -> bool;

    /// What exhaustion means.
    spec fn ends(&self, post: Self) -> bool;

    fn next_board(&mut self) -> (r: Option<Board>)
        requires
            old(self).wf(),
        ensures
            final(self).wf(),
            match r {
                Some(b) => crate::play::playable(board_view(b))
                    && old(self).yields(*final(self), board_view(b))
                    && final(self).fuel() < old(self).fuel(),
                None => old(self).ends(*final(self)),
            },
    ;
}

/// A board producer seeded by a board size alone; it hands out empty
/// boards, made of floor and wall cells only.
pub trait BaseIter: BoardIter {
    /// What the freshly constructed state is, for this implementation.
    spec fn based(size: u8, r: Self) -> bool;

    fn new_base(size: u8) -> (r: Self)
        requires
            size <= 11,
        ensures
            r.wf(),
            Self::based(size, r),
    ;

    /// Boards handed out by this producer hold floor and wall cells only.
    proof fn yields_empty(pre: Self, post: Self, b: Seq<Seq<Cell>>)
        requires
            pre.yields(post, b),
        ensures
            crate::tools::fill::floor_wall_only(b),
    ;
}

/// One successful pull of a producer: some board was handed out.
pub open spec fn steps_to<T: BoardIter>(a: T, b: T) -> bool {
    exists|bv: Seq<Seq<Cell>>| #[trigger] a.yields(b, bv)
}

/// State b is reachable from state a by n successful pulls: some chain of
/// states leads from a to b, one pull per link.
pub open spec fn reaches<T: BoardIter>(a: T, b: T, n: nat) -> bool {
    exists|chain: Seq<T>|
        #![trigger chain.len()]
        chain.len() == n + 1 && chain[0] == a && chain[n as int] == b
        && forall|i: int| 0 <= i < n ==> steps_to(#[trigger] chain[i], chain[i + 1])
}

/// A board producer seeded by one empty board; it fills that board.
pub trait SecondaryIter: BoardIter {
    /// What the freshly constructed state is, for this implementation.
    spec fn seeded(board: Seq<Seq<Cell>>, r: Self) -> bool;

    /// The board this producer fills.
    spec fn origin(&self) -> Seq<Seq<Cell>>;

    fn new_secondary(board: Board) -> (r: Self)
        requires
            board_ok(board_view(board)),
            crate::tools::fill::floor_wall_only(board_view(board)),
        ensures
            r.wf(),
            Self::seeded(board_view(board), r),
            r.origin() == board_view(board),
    ;

    /// A fresh producer's origin is its seeding board.
    proof fn origin_of_seed(board: Seq<Seq<Cell>>, r: Self)
        requires
            Self::seeded(board, r),
        ensures
            r.origin() == board,
    ;

    /// The origin never changes across a pull.
    proof fn origin_stable(pre: Self, post: Self, b: Seq<Seq<Cell>>)
        requires
            pre.yields(post, b),
        ensures
            post.origin() == pre.origin(),
    ;
}

/// A run of zero pulls goes nowhere: the two states are equal.
pub proof fn lemma_reaches_none<T: BoardIter>(a: T, b: T)
    requires
        reaches(a, b, 0),
    ensures
        a == b,
{
    let chain = choose|chain: Seq<T>|
        #![trigger chain.len()]
        chain.len() == 1 && chain[0] == a && chain[0int] == b
        && forall|i: int| 0 <= i < 0 ==> steps_to(#[trigger] chain[i], chain[i + 1]);
    assert(chain[0] == a && chain[0] == b);
}

/// A producer reaches itself by zero pulls.
pub proof fn lemma_reaches_refl<T: BoardIter>(a: T)
    ensures
        reaches(a, a, 0),
{
    let chain = seq![a];
    assert(chain.len() == 1 && chain[0] == a);
    assert(forall|i: int| 0 <= i < 0 ==> steps_to(#[trigger] chain[i], chain[i + 1]));
}

/// A run of pulls extends by one more successful pull.
pub proof fn lemma_reaches_step<T: BoardIter>(a: T, mid: T, b: T, n: nat)
    requires
        reaches(a, mid, n),
        steps_to(mid, b),
    ensures
        reaches(a, b, n + 1),
{
    let chain = choose|chain: Seq<T>|
        #![trigger chain.len()]
        chain.len() == n + 1 && chain[0] == a && chain[n as int] == mid
        && forall|i: int| 0 <= i < n ==> steps_to(#[trigger] chain[i], chain[i + 1]);
    let chain2 = chain.push(b);
    assert(chain2.len() == (n + 1) + 1 && chain2[0] == a && chain2[(n + 1) as int] == b);
    assert forall|i: int| 0 <= i < n + 1
        implies steps_to(#[trigger] chain2[i], chain2[i + 1]) by {
        if i < n {
            assert(chain2[i] == chain[i]);
            assert(chain2[i + 1] == chain[i + 1]);
            assert(steps_to(chain[i], chain[i + 1]));
        } else {
            assert(chain2[i] == chain[n as int]);
            assert(chain2[i + 1] == b);
        }
    }
}

/// A shorter run sits inside a longer one.
pub proof fn lemma_reaches_front<T: BoardIter>(a: T, b: T, n: nat)
    requires
        reaches(a, b, n),
        n > 0,
    ensures
        exists|mid: T| #[trigger] reaches(a, mid, (n - 1) as nat) && steps_to(mid, b),
{
    let chain = choose|chain: Seq<T>|
        #![trigger chain.len()]
        chain.len() == n + 1 && chain[0] == a && chain[n as int] == b
        && forall|i: int| 0 <= i < n ==> steps_to(#[trigger] chain[i], chain[i + 1]);
    let mid = chain[n - 1];
    let front = chain.take(n as int);
    assert(front.len() == ((n - 1) + 1) as nat && front[0] == a
        && front[(n - 1) as int] == mid);
    assert forall|i: int| 0 <= i < n - 1
        implies steps_to(#[trigger] front[i], front[i + 1]) by {
        assert(front[i] == chain[i]);
        assert(front[i + 1] == chain[i + 1]);
        assert(steps_to(chain[i], chain[i + 1]));
    }
    assert(reaches(a, mid, (n - 1) as nat));
    assert(steps_to(chain[n - 1], chain[(n - 1) + 1]));
}

/// The origin never changes along any run of pulls.
pub proof fn lemma_origin_reaches<T: SecondaryIter>(a: T, b: T, n: nat)
    requires
        reaches(a, b, n),
    ensures
        b.origin() == a.origin(),
    decreases n,
{
    if n == 0 {
        let chain = choose|chain: Seq<T>|
            #![trigger chain.len()]
            chain.len() == n + 1 && chain[0] == a && chain[n as int] == b
            && forall|i: int| 0 <= i < n ==> steps_to(#[trigger] chain[i], chain[i + 1]);
        assert(b == a);
    } else {
        lemma_reaches_front(a, b, n);
        let mid = choose|mid: T| #[trigger] reaches(a, mid, (n - 1) as nat) && steps_to(mid, b);
        lemma_origin_reaches(a, mid, (n - 1) as nat);
        let bv = choose|bv: Seq<Seq<Cell>>| #[trigger] mid.yields(b, bv);
        assert(mid.yields(b, bv));
        T::origin_stable(mid, b, bv);
    }
}

/// A board producer wrapping another, forwarding selectively.
pub trait WrapperIter<T: BoardIter>: BoardIter {
    /// What the freshly constructed state is, for this implementation.
    spec fn wrapped(source: T, r: Self) -> bool;

    fn new_wrapper(source: T) -> (r: Self)
        requires
            source.wf(),
        ensures
            r.wf(),
            Self::wrapped(source, r),
    ;
}

/// The one-character symbol that renders a cell.
pub open spec fn symbol_of(c: Cell) -> char {
    match c {
        Cell::Floor => '.',
        Cell::Wall => 'X',
        Cell::Piece => '#',
        Cell::Goal => '@',
        Cell::Zone(n) => digit_char(n),
    }
}

/// The decimal digit character for `n`, meaningful for n < 10.
pub open spec fn digit_char(n: u32) -> char {
    if n == 0 { '0' }
    else if n == 1 { '1' }
    else if n == 2 { '2' }
    else if n == 3 { '3' }
    else if n == 4 { '4' }
    else if n == 5 { '5' }
    else if n == 6 { '6' }
    else if n == 7 { '7' }
    else if n == 8 { '8' }
    else if n == 9 { '9' }
    else { '?' }
}

/// Render one cell as a character. Zone labels render as decimal digits and
/// must be single-digit.
pub fn cell_symbol(cell: &Cell) -> (r: char)
    requires
        *cell matches Cell::Zone(n) ==> n < 10,
    ensures
        r == symbol_of(*cell),
{
    match cell {
        Cell::Floor => '.',
        Cell::Wall => 'X',
        Cell::Piece => '#',
        Cell::Goal => '@',
        Cell::Zone(n) => {
            let n = *n;
            if n == 0 { '0' }
            else if n == 1 { '1' }
            else if n == 2 { '2' }
            else if n == 3 { '3' }
            else if n == 4 { '4' }
            else if n == 5 { '5' }
            else if n == 6 { '6' }
            else if n == 7 { '7' }
            else if n == 8 { '8' }
            else { '9' }
        },
    }
}

} // verus!
