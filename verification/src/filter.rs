//! Accumulating symmetry filter: discards boards equal to any D4 symmetry
//! of a previously accepted board.

use vstd::prelude::*;

use crate::base::{Board, Cell, board_view, boards_equal, copy_board, is_square};
use crate::tools::symmetry;
use crate::tools::symmetry::orbit_view;

verus! {

/// Accumulating filter over boards, deduplicating by D4 symmetry orbit.
pub struct Symmetries {
    /// All boards that have been accepted by the filter.
    boards: Vec<Board>,
    /// The eight symmetries of each accepted board; `symmetries[i]` is the
    /// orbit of `boards[i]`.
    symmetries: Vec<Vec<Board>>,
}

impl Symmetries {
    /// Internal consistency: one stored orbit per accepted board.
    pub closed spec fn wf(&self) -> bool {
        &&& self.symmetries@.len() == self.boards@.len()
        &&& forall|k: int| 0 <= k < self.boards@.len()
            ==> is_square(board_view(#[trigger] self.boards@[k]))
        &&& forall|k: int| 0 <= k < self.boards@.len()
            ==> (#[trigger] self.symmetries@[k])@.map_values(|m: Board| board_view(m))
                == orbit_view(board_view(self.boards@[k]))
    }

    /// The board was accepted by this filter.
    pub closed spec fn accepted(&self, bv: Seq<Seq<Cell>>) -> bool {
        exists|k: int| 0 <= k < self.boards@.len()
            && #[trigger] board_view(self.boards@[k]) == bv
    }

    /// The board equals some member of a stored orbit.
    pub closed spec fn seen(&self, bv: Seq<Seq<Cell>>) -> bool {
        exists|k: int, t: int| 0 <= k < self.symmetries@.len()
            && 0 <= t < (#[trigger] self.symmetries@[k])@.len()
            && board_view(#[trigger] self.symmetries@[k]@[t]) == bv
    }

    /// A fresh filter that has seen nothing.
    pub fn new() -> (r: Symmetries)
        ensures
            r.wf(),
            forall|t: Seq<Seq<Cell>>| !r.seen(t),
            forall|t: Seq<Seq<Cell>>| !r.accepted(t),
    {
        Symmetries { boards: Vec::new(), symmetries: Vec::new() }
    }

    /// Accept the board if neither it nor any of its eight symmetries has
    /// been accepted before; a accepted board is stored with its orbit.
    pub fn accept(&mut self, board: &Board) -> (r: bool)
        requires
            old(self).wf(),
            is_square(board_view(*board)),
        ensures
            final(self).wf(),
            r == !old(self).seen(board_view(*board)),
            !r ==> *final(self) == *old(self),
            r ==> final(self).accepted(board_view(*board)),
            r ==> forall|t: Seq<Seq<Cell>>| final(self).seen(t)
                == (old(self).seen(t) || orbit_view(board_view(*board)).contains(t)),
            r ==> forall|t: Seq<Seq<Cell>>| final(self).accepted(t)
                == (old(self).accepted(t) || t == board_view(*board)),
            forall|t: Seq<Seq<Cell>>| old(self).seen(t) ==> final(self).seen(t),
            forall|t: Seq<Seq<Cell>>| old(self).accepted(t) ==> final(self).accepted(t),
    {
        let ghost bv = board_view(*board);
        let mut k: usize = 0;
        while k < self.symmetries.len()
            invariant
                self == old(self),
                old(self).wf(),
                bv == board_view(*board),
                k <= self.symmetries@.len(),
                forall|k2: int, t: int| 0 <= k2 < k && 0 <= t < (#[trigger] self.symmetries@[k2])@.len()
                    ==> board_view(#[trigger] self.symmetries@[k2]@[t]) != bv,
            decreases self.symmetries@.len() - k,
        {
            let set = &self.symmetries[k];
            let mut t: usize = 0;
            while t < set.len()
                invariant
                    self == old(self),
                    old(self).wf(),
                    bv == board_view(*board),
                    k < self.symmetries@.len(),
                    set == &self.symmetries@[k as int],
                    t <= set@.len(),
                    forall|t2: int| 0 <= t2 < t
                        ==> board_view(#[trigger] set@[t2]) != bv,
                decreases set@.len() - t,
            {
                if boards_equal(&set[t], board) {
                    proof {
                        assert(board_view(self.symmetries@[k as int]@[t as int]) == bv);
                        assert(old(self).seen(bv));
                    }
                    return false;
                }
                t += 1;
            }
            k += 1;
        }
        proof {
            if old(self).seen(bv) {
                let (k2, t2) = choose|k2: int, t2: int| 0 <= k2 < old(self).symmetries@.len()
                    && 0 <= t2 < (#[trigger] old(self).symmetries@[k2])@.len()
                    && board_view(#[trigger] old(self).symmetries@[k2]@[t2]) == bv;
            }
            assert(!old(self).seen(bv));
        }
        let ghost old_boards = self.boards@;
        let ghost old_syms = self.symmetries@;
        self.boards.push(copy_board(board));
        let orb = symmetry::all(board);
        let ghost orbv = orb@;
        self.symmetries.push(orb);
        proof {
            let n = old_boards.len() as int;
            assert(board_view(self.boards@[n]) == bv);
            assert(self.symmetries@[n]@.map_values(|m: Board| board_view(m)) == orbit_view(bv));
            assert forall|k2: int| 0 <= k2 < self.boards@.len()
                implies is_square(board_view(#[trigger] self.boards@[k2]))
                    && (#[trigger] self.symmetries@[k2])@.map_values(|m: Board| board_view(m))
                        == orbit_view(board_view(self.boards@[k2])) by {
                if k2 < n {
                    assert(self.boards@[k2] == old_boards[k2]);
                    assert(self.symmetries@[k2] == old_syms[k2]);
                } else {
                    symmetry::lemma_orbit_square(bv);
                }
            }
            assert(final(self).accepted(bv)) by {
                assert(board_view(self.boards@[n]) == bv);
            }
            assert forall|t: Seq<Seq<Cell>>| final(self).seen(t)
                == (old(self).seen(t) || orbit_view(bv).contains(t)) by {
                if final(self).seen(t) {
                    let (k2, t2) = choose|k2: int, t2: int|
                        0 <= k2 < self.symmetries@.len()
                        && 0 <= t2 < (#[trigger] self.symmetries@[k2])@.len()
                        && board_view(#[trigger] self.symmetries@[k2]@[t2]) == t;
                    if k2 < n {
                        assert(self.symmetries@[k2] == old_syms[k2]);
                        assert(old(self).seen(t));
                    } else {
                        assert(self.symmetries@[k2] == orb);
                        assert(orbv.map_values(|m: Board| board_view(m))[t2] == t);
                        assert(orbit_view(bv)[t2] == t);
                        assert(orbit_view(bv).contains(t));
                    }
                }
                if old(self).seen(t) {
                    let (k2, t2) = choose|k2: int, t2: int|
                        0 <= k2 < old_syms.len()
                        && 0 <= t2 < (#[trigger] old_syms[k2])@.len()
                        && board_view(#[trigger] old_syms[k2]@[t2]) == t;
                    assert(self.symmetries@[k2] == old_syms[k2]);
                    assert(final(self).seen(t));
                }
                if orbit_view(bv).contains(t) {
                    let t2 = choose|t2: int| 0 <= t2 < orbit_view(bv).len()
                        && orbit_view(bv)[t2] == t;
                    assert(orbv.map_values(|m: Board| board_view(m))[t2] == t);
                    assert(board_view(self.symmetries@[n]@[t2]) == t);
                    assert(final(self).seen(t));
                }
            }
            assert forall|t: Seq<Seq<Cell>>| final(self).accepted(t)
                == (old(self).accepted(t) || t == bv) by {
                if final(self).accepted(t) {
                    let k2 = choose|k2: int| 0 <= k2 < self.boards@.len()
                        && #[trigger] board_view(self.boards@[k2]) == t;
                    if k2 < n {
                        assert(self.boards@[k2] == old_boards[k2]);
                        assert(old(self).accepted(t));
                    }
                }
                if old(self).accepted(t) {
                    let k2 = choose|k2: int| 0 <= k2 < old_boards.len()
                        && #[trigger] board_view(old_boards[k2]) == t;
                    assert(self.boards@[k2] == old_boards[k2]);
                    assert(final(self).accepted(t));
                }
            }
        }
        true
    }
}

/// Once a filter has accepted a board, every one of that board's eight D4
/// symmetries counts as seen, so the same filter refuses each of them from
/// then on.
pub proof fn lemma_symmetry_idempotent(s: &Symmetries, b: Seq<Seq<Cell>>, t: Seq<Seq<Cell>>)
    requires
        s.wf(),
        s.accepted(b),
        orbit_view(b).contains(t),
    ensures
        s.seen(t),
{
    let k = choose|k: int| 0 <= k < s.boards@.len() && #[trigger] board_view(s.boards@[k]) == b;
    let i = choose|i: int| 0 <= i < orbit_view(b).len() && orbit_view(b)[i] == t;
    assert(s.symmetries@[k]@.map_values(|m: Board| board_view(m)) == orbit_view(b));
    assert(s.symmetries@[k]@.map_values(|m: Board| board_view(m))[i] == t);
    assert(board_view(s.symmetries@[k]@[i]) == t);
}

} // verus!
