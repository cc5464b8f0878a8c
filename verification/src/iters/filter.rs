//! Generic accumulating symmetry filter: wraps any board source and
//! forwards only boards whose D4 orbit has not been seen before.

use vstd::prelude::*;

use crate::base::{
    BaseIter, Board, BoardIter, Cell, SecondaryIter, WrapperIter, board_view, boards_equal,
    copy_board, lemma_origin_reaches, reaches, steps_to,
};
use crate::tools::symmetry;
use crate::tools::symmetry::orbit_view;

verus! {

/// Accumulating filter over a board source, deduplicating by D4 orbit.
pub struct Symmetries<T: BoardIter> {
    /// Source iterator.
    source: T,
    /// All boards that have been forwarded by the filter.
    boards: Vec<Board>,
    /// The eight symmetries of each forwarded board; `symmetries[i]` is
    /// the orbit of `boards[i]`.
    symmetries: Vec<Vec<Board>>,
}

/// Some stored board equals the given view.
spec fn accepted_in(boards: Seq<Board>, bv: Seq<Seq<Cell>>) -> bool {
    exists|k: int| 0 <= k < boards.len() && #[trigger] board_view(boards[k]) == bv
}

/// Some member of some stored orbit equals the given view.
pub open spec fn seen_in(symmetries: Seq<Vec<Board>>, bv: Seq<Seq<Cell>>) -> bool {
    exists|k: int, t: int| 0 <= k < symmetries.len()
        && 0 <= t < (#[trigger] symmetries[k])@.len()
        && board_view(#[trigger] symmetries[k]@[t]) == bv
}

/// State b is reachable from state a by n pulls, every one of whose
/// boards the filter had already seen: each equals a member of some orbit
/// stored in `syms`.
pub open spec fn skips_seen<T: BoardIter>(a: T, b: T, n: nat, syms: Seq<Vec<Board>>) -> bool {
    exists|chain: Seq<T>, boards: Seq<Seq<Seq<Cell>>>|
        #![trigger chain.len(), boards.len()]
        chain.len() == n + 1 && boards.len() == n && chain[0] == a && chain[n as int] == b
        && forall|i: int| 0 <= i < n ==> (#[trigger] chain[i]).yields(chain[i + 1], boards[i])
            && seen_in(syms, boards[i])
}

/// A producer skips nothing in zero pulls.
proof fn lemma_skips_seen_refl<T: BoardIter>(a: T, syms: Seq<Vec<Board>>)
    ensures
        skips_seen(a, a, 0, syms),
{
    let chain = seq![a];
    let boards = Seq::<Seq<Seq<Cell>>>::empty();
    assert(chain.len() == 1 && boards.len() == 0 && chain[0] == a);
    assert(forall|i: int| 0 <= i < 0 ==> (#[trigger] chain[i]).yields(chain[i + 1], boards[i]));
}

/// A skipping run extends by one more already-seen board.
proof fn lemma_skips_seen_step<T: BoardIter>(
    a: T, mid: T, b: T, n: nat, bv: Seq<Seq<Cell>>, syms: Seq<Vec<Board>>,
)
    requires
        skips_seen(a, mid, n, syms),
        mid.yields(b, bv),
        seen_in(syms, bv),
    ensures
        skips_seen(a, b, n + 1, syms),
{
    let (chain, boards) = choose|chain: Seq<T>, boards: Seq<Seq<Seq<Cell>>>|
        #![trigger chain.len(), boards.len()]
        chain.len() == n + 1 && boards.len() == n && chain[0] == a && chain[n as int] == mid
        && forall|i: int| 0 <= i < n ==> (#[trigger] chain[i]).yields(chain[i + 1], boards[i])
            && seen_in(syms, boards[i]);
    let chain2 = chain.push(b);
    let boards2 = boards.push(bv);
    assert(chain2.len() == (n + 1) + 1 && boards2.len() == n + 1 && chain2[0] == a
        && chain2[(n + 1) as int] == b);
    assert forall|i: int| 0 <= i < n + 1
        implies (#[trigger] chain2[i]).yields(chain2[i + 1], boards2[i])
            && seen_in(syms, boards2[i]) by {
        if i < n {
            assert(chain2[i] == chain[i]);
            assert(chain2[i + 1] == chain[i + 1]);
            assert(boards2[i] == boards[i]);
            assert(chain[i].yields(chain[i + 1], boards[i]));
        } else {
            assert(chain2[i] == chain[n as int]);
            assert(chain2[i + 1] == b);
            assert(boards2[i] == bv);
        }
    }
}

/// A skipping run is in particular a run of pulls.
proof fn lemma_skips_seen_reaches<T: BoardIter>(a: T, b: T, n: nat, syms: Seq<Vec<Board>>)
    requires
        skips_seen(a, b, n, syms),
    ensures
        reaches(a, b, n),
{
    let (chain, boards) = choose|chain: Seq<T>, boards: Seq<Seq<Seq<Cell>>>|
        #![trigger chain.len(), boards.len()]
        chain.len() == n + 1 && boards.len() == n && chain[0] == a && chain[n as int] == b
        && forall|i: int| 0 <= i < n ==> (#[trigger] chain[i]).yields(chain[i + 1], boards[i])
            && seen_in(syms, boards[i]);
    assert forall|i: int| 0 <= i < n
        implies steps_to(#[trigger] chain[i], chain[i + 1]) by {
        assert(chain[i].yields(chain[i + 1], boards[i]));
    }
    assert(reaches(a, b, n));
}

impl<T: BoardIter> Symmetries<T> {
    /// Internal consistency of the stored orbits.
    pub closed spec fn filter_wf(&self) -> bool {
        &&& self.symmetries@.len() == self.boards@.len()
        &&& forall|k: int| 0 <= k < self.boards@.len()
            ==> crate::base::is_square(board_view(#[trigger] self.boards@[k]))
        &&& forall|k: int| 0 <= k < self.boards@.len()
            ==> (#[trigger] self.symmetries@[k])@.map_values(|m: Board| board_view(m))
                == orbit_view(board_view(self.boards@[k]))
    }

    /// The board was forwarded by this filter.
    pub closed spec fn accepted(&self, bv: Seq<Seq<Cell>>) -> bool {
        accepted_in(self.boards@, bv)
    }

    /// The board equals some member of a stored orbit.
    pub closed spec fn seen(&self, bv: Seq<Seq<Cell>>) -> bool {
        seen_in(self.symmetries@, bv)
    }

    /// Does the filter remember this exact board or any symmetry of an
    /// accepted board?
    fn seen_board(&self, board: &Board) -> (r: bool)
        ensures
            r == self.seen(board_view(*board)),
    {
        let ghost bv = board_view(*board);
        let mut k: usize = 0;
        while k < self.symmetries.len()
            invariant
                bv == board_view(*board),
                k <= self.symmetries@.len(),
                forall|k2: int, t: int| 0 <= k2 < k
                    && 0 <= t < (#[trigger] self.symmetries@[k2])@.len()
                    ==> board_view(#[trigger] self.symmetries@[k2]@[t]) != bv,
            decreases self.symmetries@.len() - k,
        {
            let set = &self.symmetries[k];
            let mut t: usize = 0;
            while t < set.len()
                invariant
                    bv == board_view(*board),
                    k < self.symmetries@.len(),
                    set == &self.symmetries@[k as int],
                    t <= set@.len(),
                    forall|t2: int| 0 <= t2 < t ==> board_view(#[trigger] set@[t2]) != bv,
                decreases set@.len() - t,
            {
                if boards_equal(&set[t], board) {
                    proof {
                        assert(board_view(self.symmetries@[k as int]@[t as int]) == bv);
                    }
                    return true;
                }
                t += 1;
            }
            k += 1;
        }
        proof {
            if self.seen(bv) {
                let (k2, t2) = choose|k2: int, t2: int| 0 <= k2 < self.symmetries@.len()
                    && 0 <= t2 < (#[trigger] self.symmetries@[k2])@.len()
                    && board_view(#[trigger] self.symmetries@[k2]@[t2]) == bv;
            }
        }
        false
    }

    /// Store a fresh board together with its orbit.
    fn remember(&mut self, board: &Board)
        requires
            old(self).filter_wf(),
            crate::base::is_square(board_view(*board)),
        ensures
            final(self).filter_wf(),
            final(self).source == old(self).source,
            final(self).accepted(board_view(*board)),
            forall|t: Seq<Seq<Cell>>| final(self).seen(t)
                == (old(self).seen(t) || orbit_view(board_view(*board)).contains(t)),
            forall|t: Seq<Seq<Cell>>| final(self).accepted(t)
                == (old(self).accepted(t) || t == board_view(*board)),
    {
        let ghost bv = board_view(*board);
        let ghost old_boards = self.boards@;
        let ghost old_syms = self.symmetries@;
        self.boards.push(copy_board(board));
        let orb = symmetry::all(board);
        let ghost orbv = orb@;
        self.symmetries.push(orb);
        proof {
            let n = old_boards.len() as int;
            assert(board_view(self.boards@[n]) == bv);
            assert(self.symmetries@[n]@.map_values(|m: Board| board_view(m)) == orbit_view(bv));
            assert forall|k2: int| 0 <= k2 < self.boards@.len()
                implies crate::base::is_square(board_view(#[trigger] self.boards@[k2]))
                    && (#[trigger] self.symmetries@[k2])@.map_values(|m: Board| board_view(m))
                        == orbit_view(board_view(self.boards@[k2])) by {
                if k2 < n {
                    assert(self.boards@[k2] == old_boards[k2]);
                    assert(self.symmetries@[k2] == old_syms[k2]);
                } else {
                    symmetry::lemma_orbit_square(bv);
                }
            }
            assert(final(self).accepted(bv)) by {
                assert(board_view(self.boards@[n]) == bv);
            }
            assert forall|t: Seq<Seq<Cell>>| #[trigger] final(self).seen(t)
                == (old(self).seen(t) || orbit_view(bv).contains(t)) by {
                if final(self).seen(t) {
                    let (k2, t2) = choose|k2: int, t2: int|
                        0 <= k2 < self.symmetries@.len()
                        && 0 <= t2 < (#[trigger] self.symmetries@[k2])@.len()
                        && board_view(#[trigger] self.symmetries@[k2]@[t2]) == t;
                    if k2 < n {
                        assert(self.symmetries@[k2] == old_syms[k2]);
                        assert(old(self).seen(t));
                    } else {
                        assert(self.symmetries@[k2] == orb);
                        assert(orbv.map_values(|m: Board| board_view(m))[t2] == t);
                        assert(orbit_view(bv)[t2] == t);
                        assert(orbit_view(bv).contains(t));
                    }
                }
                if old(self).seen(t) {
                    let (k2, t2) = choose|k2: int, t2: int|
                        0 <= k2 < old_syms.len()
                        && 0 <= t2 < (#[trigger] old_syms[k2])@.len()
                        && board_view(#[trigger] old_syms[k2]@[t2]) == t;
                    assert(self.symmetries@[k2] == old_syms[k2]);
                    assert(final(self).seen(t));
                }
                if orbit_view(bv).contains(t) {
                    let t2 = choose|t2: int| 0 <= t2 < orbit_view(bv).len()
                        && orbit_view(bv)[t2] == t;
                    assert(orbv.map_values(|m: Board| board_view(m))[t2] == t);
                    assert(board_view(self.symmetries@[n]@[t2]) == t);
                    assert(final(self).seen(t));
                }
            }
            assert forall|t: Seq<Seq<Cell>>| final(self).accepted(t)
                == (old(self).accepted(t) || t == bv) by {
                if final(self).accepted(t) {
                    let k2 = choose|k2: int| 0 <= k2 < self.boards@.len()
                        && #[trigger] board_view(self.boards@[k2]) == t;
                    if k2 < n {
                        assert(self.boards@[k2] == old_boards[k2]);
                        assert(old(self).accepted(t));
                    }
                }
                if old(self).accepted(t) {
                    let k2 = choose|k2: int| 0 <= k2 < old_boards.len()
                        && #[trigger] board_view(old_boards[k2]) == t;
                    assert(self.boards@[k2] == old_boards[k2]);
                    assert(final(self).accepted(t));
                }
            }
        }
    }
}

impl<T: BoardIter> BoardIter for Symmetries<T> {
    closed spec fn wf(&self) -> bool {
        &&& self.source.wf()
        &&& self.filter_wf()
    }

    closed spec fn fuel(&self) -> nat {
        self.source.fuel()
    }

    closed spec fn yields(&self, post: Self, b: Seq<Seq<Cell>>) -> bool {
        &&& self.wf()
        &&& (exists|mid: T, n: nat| #[trigger] skips_seen(self.source, mid, n, self.symmetries@)
            && mid.yields(post.source, b))
        &&& !self.seen(b)
        &&& post.accepted(b)
        &&& forall|t: Seq<Seq<Cell>>| post.seen(t)
            == (self.seen(t) || orbit_view(b).contains(t))
        &&& forall|t: Seq<Seq<Cell>>| post.accepted(t) == (self.accepted(t) || t == b)
    }

    closed spec fn ends(&self, post: Self) -> bool {
        &&& post.boards@ == self.boards@
        &&& post.symmetries@ == self.symmetries@
        &&& exists|mid: T, n: nat| #[trigger] skips_seen(self.source, mid, n, self.symmetries@)
            && mid.ends(post.source)
    }

    fn next_board(&mut self) -> (r: Option<Board>)
    {
        let ghost src0 = self.source;
        let ghost mut pulls: nat = 0;
        proof {
            lemma_skips_seen_refl(src0, old(self).symmetries@);
        }
        loop
            invariant
                self.wf(),
                old(self).wf(),
                src0 == old(self).source,
                skips_seen(src0, self.source, pulls, old(self).symmetries@),
                self.boards@ == old(self).boards@,
                self.symmetries@ == old(self).symmetries@,
                self.fuel() <= old(self).fuel(),
            decreases self.source.fuel(),
        {
            let ghost src_pre = self.source;
            let next = self.source.next_board();
            match next {
                None => {
                    proof {
                        assert(src_pre.ends(self.source));
                    }
                    return None;
                },
                Some(board) => {
                    proof {
                        assert(src_pre.yields(self.source, board_view(board)));
                    }
                    if !self.seen_board(&board) {
                        self.remember(&board);
                        return Some(board);
                    }
                    proof {
                        lemma_skips_seen_step(
                            src0, src_pre, self.source, pulls, board_view(board),
                            old(self).symmetries@,
                        );
                        pulls = pulls + 1;
                    }
                },
            }
        }
    }
}

impl<T: BoardIter> WrapperIter<T> for Symmetries<T> {
    closed spec fn wrapped(source: T, r: Self) -> bool {
        &&& r.source == source
        &&& r.boards@.len() == 0
        &&& r.symmetries@.len() == 0
    }

    fn new_wrapper(source: T) -> (r: Self) {
        Symmetries { source, boards: Vec::new(), symmetries: Vec::new() }
    }
}

impl<T: BaseIter> BaseIter for Symmetries<T> {
    closed spec fn based(size: u8, r: Self) -> bool {
        &&& T::based(size, r.source)
        &&& r.boards@.len() == 0
        &&& r.symmetries@.len() == 0
    }

    fn new_base(size: u8) -> (r: Self) {
        let source = T::new_base(size);
        Symmetries { source, boards: Vec::new(), symmetries: Vec::new() }
    }

    proof fn yields_empty(pre: Self, post: Self, b: Seq<Seq<Cell>>) {
        let (sp, sq) = choose|sp: T, sq: T| #[trigger] sp.yields(sq, b);
        T::yields_empty(sp, sq, b);
    }
}

impl<T: SecondaryIter> SecondaryIter for Symmetries<T> {
    closed spec fn seeded(board: Seq<Seq<Cell>>, r: Self) -> bool {
        &&& T::seeded(board, r.source)
        &&& r.boards@.len() == 0
        &&& r.symmetries@.len() == 0
    }

    closed spec fn origin(&self) -> Seq<Seq<Cell>> {
        self.source.origin()
    }

    fn new_secondary(board: Board) -> (r: Self) {
        let source = T::new_secondary(board);
        Symmetries { source, boards: Vec::new(), symmetries: Vec::new() }
    }

    proof fn origin_of_seed(board: Seq<Seq<Cell>>, r: Self) {
        T::origin_of_seed(board, r.source);
    }

    proof fn origin_stable(pre: Self, post: Self, b: Seq<Seq<Cell>>) {
        let (mid, n) = choose|mid: T, n: nat|
            #[trigger] skips_seen(pre.source, mid, n, pre.symmetries@)
            && mid.yields(post.source, b);
        lemma_skips_seen_reaches(pre.source, mid, n, pre.symmetries@);
        lemma_origin_reaches(pre.source, mid, n);
        T::origin_stable(mid, post.source, b);
    }
}

impl<T: BoardIter> Symmetries<T> {
    /// The wrapped source.
    pub closed spec fn src(&self) -> T {
        self.source
    }

    /// The stored orbits, as an abstract handle for the skip relation.
    pub closed spec fn orbit_store(&self) -> Seq<Vec<Board>> {
        self.symmetries@
    }
}

/// A board forwarded by the filter came from its source, was new to the
/// filter, and is remembered afterwards.
pub proof fn lemma_filter_forwards<T: BoardIter>(
    pre: Symmetries<T>, post: Symmetries<T>, b: Seq<Seq<Cell>>,
)
    requires
        pre.yields(post, b),
    ensures
        exists|mid: T, n: nat| #[trigger] reaches(pre.src(), mid, n)
            && mid.yields(post.src(), b),
        forall|mid: T, n: nat| #[trigger] skips_seen(pre.src(), mid, n, pre.orbit_store())
            ==> reaches(pre.src(), mid, n),
        exists|mid: T, n: nat| #[trigger] skips_seen(pre.src(), mid, n, pre.orbit_store())
            && mid.yields(post.src(), b),
        !pre.seen(b),
        post.accepted(b),
{
    let (mid, n) = choose|mid: T, n: nat|
        #[trigger] skips_seen(pre.source, mid, n, pre.symmetries@)
        && mid.yields(post.source, b);
    lemma_skips_seen_reaches(pre.source, mid, n, pre.symmetries@);
    assert(reaches(pre.src(), mid, n) && mid.yields(post.src(), b));
    assert(skips_seen(pre.src(), mid, n, pre.orbit_store()) && mid.yields(post.src(), b));
    assert forall|mid2: T, n2: nat|
        #[trigger] skips_seen(pre.src(), mid2, n2, pre.orbit_store())
        implies reaches(pre.src(), mid2, n2) by {
        lemma_skips_seen_reaches(pre.src(), mid2, n2, pre.orbit_store());
    }
}

/// When the symmetry filter stops, its source itself stands in an ended
/// state reached from where this call began, and the filter forgot
/// nothing: its memory is exactly as before.
pub proof fn lemma_filter_ends<T: BoardIter>(pre: Symmetries<T>, post: Symmetries<T>)
    requires
        pre.ends(post),
    ensures
        exists|mid: T, n: nat| #[trigger] reaches(pre.src(), mid, n) && mid.ends(post.src()),
        forall|t: Seq<Seq<Cell>>| post.seen(t) == pre.seen(t),
        forall|t: Seq<Seq<Cell>>| post.accepted(t) == pre.accepted(t),
{
    let (mid, n) = choose|mid: T, n: nat|
        #[trigger] skips_seen(pre.source, mid, n, pre.symmetries@)
        && mid.ends(post.source);
    lemma_skips_seen_reaches(pre.source, mid, n, pre.symmetries@);
    assert(reaches(pre.src(), mid, n) && mid.ends(post.src()));
}

/// A fresh wrapper starts from the given source construction.
pub proof fn lemma_filter_based<T: BaseIter>(size: u8, r: Symmetries<T>)
    requires
        Symmetries::<T>::based(size, r),
    ensures
        T::based(size, r.src()),
{
}

/// Once this filter has forwarded a board, every one of that board's eight
/// D4 symmetries counts as seen, so the filter forwards none of them from
/// then on.
pub proof fn lemma_symmetry_filter_idempotent<T: BoardIter>(
    s: &Symmetries<T>, b: Seq<Seq<Cell>>, t: Seq<Seq<Cell>>,
)
    requires
        s.wf(),
        s.accepted(b),
        orbit_view(b).contains(t),
    ensures
        s.seen(t),
        forall|post: Symmetries<T>| !s.yields(post, t),
{
    let k = choose|k: int| 0 <= k < s.boards@.len() && #[trigger] board_view(s.boards@[k]) == b;
    let i = choose|i: int| 0 <= i < orbit_view(b).len() && orbit_view(b)[i] == t;
    assert(s.symmetries@[k]@.map_values(|m: Board| board_view(m)) == orbit_view(b));
    assert(s.symmetries@[k]@.map_values(|m: Board| board_view(m))[i] == t);
    assert(board_view(s.symmetries@[k]@[i]) == t);
}

} // verus!
