//! A filter around any board source that forwards only boards the solver
//! confirms solvable.

use vstd::prelude::*;

use crate::base::{
    BaseIter, Board, BoardIter, Cell, SecondaryIter, WrapperIter, board_view,
    lemma_origin_reaches, reaches, steps_to,
};
use crate::play::{Direction, explore_space, solves};

verus! {

/// State b is reachable from state a by n pulls, every one of whose
/// boards is unsolvable.
pub open spec fn skips_unsolvable<T: BoardIter>(a: T, b: T, n: nat) -> bool {
    exists|chain: Seq<T>, boards: Seq<Seq<Seq<Cell>>>|
        #![trigger chain.len(), boards.len()]
        chain.len() == n + 1 && boards.len() == n && chain[0] == a && chain[n as int] == b
        && forall|i: int| 0 <= i < n ==> (#[trigger] chain[i]).yields(chain[i + 1], boards[i])
            && !(exists|m: Seq<Direction>| solves(boards[i], m))
}

/// A producer skips nothing in zero pulls.
proof fn lemma_skips_unsolvable_refl<T: BoardIter>(a: T)
    ensures
        skips_unsolvable(a, a, 0),
{
    let chain = seq![a];
    let boards = Seq::<Seq<Seq<Cell>>>::empty();
    assert(chain.len() == 1 && boards.len() == 0 && chain[0] == a);
    assert(forall|i: int| 0 <= i < 0 ==> (#[trigger] chain[i]).yields(chain[i + 1], boards[i]));
}

/// A skipping run extends by one more unsolvable board.
proof fn lemma_skips_unsolvable_step<T: BoardIter>(a: T, mid: T, b: T, n: nat, bv: Seq<Seq<Cell>>)
    requires
        skips_unsolvable(a, mid, n),
        mid.yields(b, bv),
        !(exists|m: Seq<Direction>| solves(bv, m)),
    ensures
        skips_unsolvable(a, b, n + 1),
{
    let (chain, boards) = choose|chain: Seq<T>, boards: Seq<Seq<Seq<Cell>>>|
        #![trigger chain.len(), boards.len()]
        chain.len() == n + 1 && boards.len() == n && chain[0] == a && chain[n as int] == mid
        && forall|i: int| 0 <= i < n ==> (#[trigger] chain[i]).yields(chain[i + 1], boards[i])
            && !(exists|m: Seq<Direction>| solves(boards[i], m));
    let chain2 = chain.push(b);
    let boards2 = boards.push(bv);
    assert(chain2.len() == (n + 1) + 1 && boards2.len() == n + 1 && chain2[0] == a
        && chain2[(n + 1) as int] == b);
    assert forall|i: int| 0 <= i < n + 1
        implies (#[trigger] chain2[i]).yields(chain2[i + 1], boards2[i])
            && !(exists|m: Seq<Direction>| solves(boards2[i], m)) by {
        if i < n {
            assert(chain2[i] == chain[i]);
            assert(chain2[i + 1] == chain[i + 1]);
            assert(boards2[i] == boards[i]);
            assert(chain[i].yields(chain[i + 1], boards[i]));
        } else {
            assert(chain2[i] == chain[n as int]);
            assert(chain2[i + 1] == b);
            assert(boards2[i] == bv);
        }
    }
}

/// A skipping run is in particular a run of pulls.
pub proof fn lemma_skips_unsolvable_reaches<T: BoardIter>(a: T, b: T, n: nat)
    requires
        skips_unsolvable(a, b, n),
    ensures
        reaches(a, b, n),
{
    let (chain, boards) = choose|chain: Seq<T>, boards: Seq<Seq<Seq<Cell>>>|
        #![trigger chain.len(), boards.len()]
        chain.len() == n + 1 && boards.len() == n && chain[0] == a && chain[n as int] == b
        && forall|i: int| 0 <= i < n ==> (#[trigger] chain[i]).yields(chain[i + 1], boards[i])
            && !(exists|m: Seq<Direction>| solves(boards[i], m));
    assert forall|i: int| 0 <= i < n
        implies steps_to(#[trigger] chain[i], chain[i + 1]) by {
        assert(chain[i].yields(chain[i + 1], boards[i]));
    }
    assert(reaches(a, b, n));
}

/// Wrapper around a board source that forwards only solvable boards.
pub struct Solvable<T: BoardIter> {
    /// Source iterator.
    source: T,
}

impl<T: BoardIter> BoardIter for Solvable<T> {
    closed spec fn wf(&self) -> bool {
        self.source.wf()
    }

    closed spec fn fuel(&self) -> nat {
        self.source.fuel()
    }

    closed spec fn yields(&self, post: Self, b: Seq<Seq<Cell>>) -> bool {
        &&& self.wf()
        &&& (exists|mid: T, n: nat| #[trigger] skips_unsolvable(self.source, mid, n)
            && mid.yields(post.source, b))
        &&& (exists|m: Seq<Direction>| solves(b, m))
    }

    closed spec fn ends(&self, post: Self) -> bool {
        exists|mid: T, n: nat| #[trigger] skips_unsolvable(self.source, mid, n)
            && mid.ends(post.source)
    }

    fn next_board(&mut self) -> (r: Option<Board>)
    {
        let ghost src0 = self.source;
        let ghost mut pulls: nat = 0;
        proof {
            lemma_skips_unsolvable_refl(src0);
        }
        loop
            invariant
                self.wf(),
                old(self).wf(),
                src0 == old(self).source,
                skips_unsolvable(src0, self.source, pulls),
                self.fuel() <= old(self).fuel(),
            decreases self.source.fuel(),
        {
            let ghost src_pre = self.source;
            let next = self.source.next_board();
            match next {
                None => {
                    proof {
                        assert(src_pre.ends(self.source));
                    }
                    return None;
                },
                Some(board) => {
                    proof {
                        assert(src_pre.yields(self.source, board_view(board)));
                    }
                    let stats = explore_space(&board);
                    if stats.solvable {
                        return Some(board);
                    }
                    proof {
                        lemma_skips_unsolvable_step(
                            src0, src_pre, self.source, pulls, board_view(board),
                        );
                        pulls = pulls + 1;
                    }
                },
            }
        }
    }
}

/// A board forwarded by the solvability filter came from its source and
/// is solvable: some move sequence wins on it.
pub proof fn lemma_solvable_forwards<T: BoardIter>(
    pre: Solvable<T>, post: Solvable<T>, b: Seq<Seq<Cell>>,
)
    requires
        pre.yields(post, b),
    ensures
        exists|mid: T, n: nat| #[trigger] skips_unsolvable(pre.src(), mid, n)
            && mid.yields(post.src(), b),
        exists|m: Seq<Direction>| solves(b, m),
{
    let (mid, n) = choose|mid: T, n: nat| #[trigger] skips_unsolvable(pre.source, mid, n)
        && mid.yields(post.source, b);
    assert(skips_unsolvable(pre.src(), mid, n) && mid.yields(post.src(), b));
}

/// When the solvability filter stops, its source itself stands in an
/// ended state, reached from where this call began over unsolvable
/// boards only.
pub proof fn lemma_solvable_ends<T: BoardIter>(pre: Solvable<T>, post: Solvable<T>)
    requires
        pre.ends(post),
    ensures
        exists|mid: T, n: nat| #[trigger] skips_unsolvable(pre.src(), mid, n)
            && mid.ends(post.src()),
{
    let (mid, n) = choose|mid: T, n: nat| #[trigger] skips_unsolvable(pre.source, mid, n)
        && mid.ends(post.source);
    assert(skips_unsolvable(pre.src(), mid, n) && mid.ends(post.src()));
}

impl<T: BoardIter> Solvable<T> {
    /// The wrapped source.
    pub closed spec fn src(&self) -> T {
        self.source
    }
}

impl<T: BoardIter> WrapperIter<T> for Solvable<T> {
    closed spec fn wrapped(source: T, r: Self) -> bool {
        r.source == source
    }

    fn new_wrapper(source: T) -> (r: Self) {
        Solvable { source }
    }
}

impl<T: BaseIter> BaseIter for Solvable<T> {
    closed spec fn based(size: u8, r: Self) -> bool {
        T::based(size, r.source)
    }

    fn new_base(size: u8) -> (r: Self) {
        Solvable { source: T::new_base(size) }
    }

    proof fn yields_empty(pre: Self, post: Self, b: Seq<Seq<Cell>>) {
        let (sp, sq) = choose|sp: T, sq: T| #[trigger] sp.yields(sq, b);
        T::yields_empty(sp, sq, b);
    }
}

impl<T: SecondaryIter> SecondaryIter for Solvable<T> {
    closed spec fn seeded(board: Seq<Seq<Cell>>, r: Self) -> bool {
        T::seeded(board, r.source)
    }

    closed spec fn origin(&self) -> Seq<Seq<Cell>> {
        self.source.origin()
    }

    fn new_secondary(board: Board) -> (r: Self) {
        Solvable { source: T::new_secondary(board) }
    }

    proof fn origin_of_seed(board: Seq<Seq<Cell>>, r: Self) {
        T::origin_of_seed(board, r.source);
    }

    proof fn origin_stable(pre: Self, post: Self, b: Seq<Seq<Cell>>) {
        let (mid, n) = choose|mid: T, n: nat| #[trigger] skips_unsolvable(pre.source, mid, n)
            && mid.yields(post.source, b);
        lemma_skips_unsolvable_reaches(pre.source, mid, n);
        lemma_origin_reaches(pre.source, mid, n);
        T::origin_stable(mid, post.source, b);
    }
}

} // verus!
