//! Connectors that compose an empty-board source with a filler source into
//! one lazy sequence of playable boards.

use vstd::prelude::*;

use crate::base::{BaseIter, Board, BoardIter, Cell, SecondaryIter, board_view};
use crate::iters::empty::{RngMaker, SerialMaker};
use crate::iters::filled::{RngFiller, SerialFiller};
use crate::iters::filter::Symmetries;
use crate::iters::solvable::Solvable;

verus! {

/// Every valid, symmetry-reduced filled board of the given size, smallest
/// layouts first.
pub fn serial(size: u8) -> (r: ExhaustiveConnector<Symmetries<SerialMaker>, Symmetries<SerialFiller>>)
    requires
        size <= 11,
    ensures
        r.wf(),
{
    ExhaustiveConnector::<Symmetries<SerialMaker>, Symmetries<SerialFiller>>::new(size)
}

/// One random filled board of the given size per pull.
pub fn random(size: u8) -> (r: ConsumingConnector<Symmetries<RngMaker>, Symmetries<RngFiller>>)
    requires
        size <= 11,
    ensures
        r.wf(),
{
    ConsumingConnector::<Symmetries<RngMaker>, Symmetries<RngFiller>>::new(size)
}

/// Every valid, symmetry-reduced, solver-confirmed solvable filled board of
/// the given size.
pub fn solvable_serial(size: u8) -> (r: ExhaustiveConnector<
    Symmetries<SerialMaker>,
    Symmetries<Solvable<SerialFiller>>,
>)
    requires
        size <= 11,
    ensures
        r.wf(),
{
    ExhaustiveConnector::<Symmetries<SerialMaker>, Symmetries<Solvable<SerialFiller>>>::new(size)
}

/// One random, solver-confirmed solvable filled board per pull.
pub fn solvable_random(size: u8) -> (r: ConsumingConnector<
    Symmetries<RngMaker>,
    Symmetries<Solvable<RngFiller>>,
>)
    requires
        size <= 11,
    ensures
        r.wf(),
{
    ConsumingConnector::<Symmetries<RngMaker>, Symmetries<Solvable<RngFiller>>>::new(size)
}

/// Exhaustive composition: drains a filler for each empty board before
/// pulling the next empty board from the base source.
pub struct ExhaustiveConnector<T: BaseIter, U: SecondaryIter> {
    base: T,
    modifier: Option<U>,
}

impl<T: BaseIter, U: SecondaryIter> ExhaustiveConnector<T, U> {
    /// Internal consistency: the current filler, if any, was seeded from a
    /// board the base source handed out.
    pub closed spec fn wf(&self) -> bool {
        &&& self.base.wf()
        &&& (self.modifier matches Some(m) ==> m.wf()
            && (exists|tp: T, tq: T| #[trigger] tp.yields(tq, m.origin())))
    }

    /// The base source's current state.
    pub closed spec fn base_ref(&self) -> T {
        self.base
    }

    /// No filler is currently held: the previous one, if any, was drained.
    pub closed spec fn filler_done(&self) -> bool {
        self.modifier is None
    }

    /// A fresh connector for the given board size.
    pub fn new(size: u8) -> (r: Self)
        requires
            size <= 11,
        ensures
            r.wf(),
            r.filler_done(),
            T::based(size, r.base_ref()),
    {
        let base = T::new_base(size);
        ExhaustiveConnector { base, modifier: None }
    }

    /// Pull the next filled board: drain the current filler, then seed a
    /// fresh filler from the next empty board, until both run out. Every
    /// board handed out came from a filler seeded with a board the base
    /// source yielded; `None` means the base source itself has ended and
    /// the last filler was drained.
    pub fn next_board(&mut self) -> (r: Option<Board>)
        requires
            old(self).wf(),
        ensures
            final(self).wf(),
            r matches Some(b) ==> crate::play::playable(board_view(b))
                && (exists|up: U, uq: U| #[trigger] up.yields(uq, board_view(b))
                    && (exists|tp: T, tq: T| #[trigger] tp.yields(tq, up.origin()))),
            r is None ==> final(self).filler_done()
                && (exists|tp: T| #[trigger] tp.ends(final(self).base_ref())),
    {
        loop
            invariant
                self.wf(),
            decreases
                self.base.fuel(),
                (match self.modifier {
                    Some(m) => m.fuel() + 1,
                    None => 0,
                }),
        {
            let taken = self.modifier.take();
            match taken {
                Some(mut m) => {
                    let ghost m_pre = m;
                    let out = m.next_board();
                    match out {
                        Some(b) => {
                            proof {
                                assert(m_pre.yields(m, board_view(b)));
                                U::origin_stable(m_pre, m, board_view(b));
                            }
                            self.modifier = Some(m);
                            return Some(b);
                        },
                        None => {
                        },
                    }
                },
                None => {
                    let ghost base_pre = self.base;
                    match self.base.next_board() {
                        Some(empty) => {
                            proof {
                                T::yields_empty(base_pre, self.base, board_view(empty));
                            }
                            let filler = U::new_secondary(empty);
                            proof {
                                assert(base_pre.yields(self.base, filler.origin()));
                            }
                            self.modifier = Some(filler);
                        },
                        None => {
                            proof {
                                assert(self.filler_done());
                                assert(exists|tp: T| #[trigger] tp.ends(self.base_ref())) by {
                                    assert(base_pre.ends(self.base_ref()));
                                }
                            }
                            return None;
                        },
                    }
                },
            }
        }
    }
}

/// Single-sample composition: one fresh empty board and one filled board
/// drawn from it per pull.
pub struct ConsumingConnector<T: BaseIter, U: SecondaryIter> {
    base: T,
    phantom: core::marker::PhantomData<U>,
}

impl<T: BaseIter, U: SecondaryIter> ConsumingConnector<T, U> {
    /// Internal consistency.
    pub closed spec fn wf(&self) -> bool {
        self.base.wf()
    }

    /// The base source's current state.
    pub closed spec fn base_ref(&self) -> T {
        self.base
    }

    /// A fresh connector for the given board size.
    pub fn new(size: u8) -> (r: Self)
        requires
            size <= 11,
        ensures
            r.wf(),
            T::based(size, r.base_ref()),
    {
        ConsumingConnector { base: T::new_base(size), phantom: core::marker::PhantomData }
    }

    /// Pull one empty board from the base source and draw one filled board
    /// from a filler seeded with exactly that board. `None` means the base
    /// source has ended, or the fresh filler declined to produce.
    pub fn next_board(&mut self) -> (r: Option<Board>)
        requires
            old(self).wf(),
        ensures
            final(self).wf(),
            r matches Some(b) ==> crate::play::playable(board_view(b))
                && (exists|e: Seq<Seq<Cell>>, u0: U, u1: U|
                    #![trigger U::seeded(e, u0), u0.yields(u1, board_view(b))]
                    old(self).base_ref().yields(final(self).base_ref(), e)
                    && U::seeded(e, u0) && u0.yields(u1, board_view(b))),
            r is None ==> old(self).base_ref().ends(final(self).base_ref())
                || (exists|e: Seq<Seq<Cell>>, u0: U, u1: U|
                    #![trigger U::seeded(e, u0), u0.ends(u1)]
                    old(self).base_ref().yields(final(self).base_ref(), e)
                    && U::seeded(e, u0) && u0.ends(u1)),
    {
        let ghost base_pre = self.base;
        match self.base.next_board() {
            Some(empty) => {
                let ghost e = board_view(empty);
                proof {
                    T::yields_empty(base_pre, self.base, e);
                    assert(base_pre.yields(self.base_ref(), e));
                }
                let mut filler = U::new_secondary(empty);
                let ghost f_pre = filler;
                proof {
                    assert(U::seeded(e, f_pre));
                }
                match filler.next_board() {
                    Some(filled) => {
                        proof {
                            assert(f_pre.yields(filler, board_view(filled)));
                        }
                        Some(filled)
                    },
                    None => {
                        proof {
                            assert(f_pre.ends(filler));
                            assert(exists|e2: Seq<Seq<Cell>>, u0: U, u1: U|
                                #![trigger U::seeded(e2, u0), u0.ends(u1)]
                                base_pre.yields(self.base_ref(), e2)
                                && U::seeded(e2, u0) && u0.ends(u1)) by {
                                assert(base_pre.yields(self.base_ref(), e)
                                    && U::seeded(e, f_pre) && f_pre.ends(filler));
                            }
                        }
                        None
                    },
                }
            },
            None => {
                proof {
                    assert(base_pre.ends(self.base_ref()));
                }
                None
            },
        }
    }
}

} // verus!
