//! The capability contract that every puzzle-state representation meets.
//!
//! A representation is described by its view, an abstract state. Which moves
//! are legal, what a move does and which tiles the state shows are all
//! functions of that abstract state, so that generic code can reason about
//! any board topology.

use crate::status::ErrorKind;
use vstd::prelude::*;

verus! {

/// The rows of tile values held by a vector of rows.
pub open spec fn rows_of(data: Vec<Vec<usize>>) -> Seq<Seq<usize>> {
    Seq::new(data@.len(), |r: int| data@[r]@)
}

/// The sides of `layout` fit a coordinate.
pub open spec fn loadable(layout: Seq<Seq<usize>>) -> bool {
    &&& layout.len() <= i32::MAX
    &&& layout.len() > 0 ==> layout[0].len() <= i32::MAX
}

pub trait Grid: View + Sized {
    /// Moves.
    type M;

    /// Positions.
    type P;

    /// The representation is consistent: every operation may be applied.
    spec fn wf(v: Self::V) -> bool;

    /// The cached blank position is where the blank really is.
    spec fn anchored(v: Self::V) -> bool;

    /// The layout: the tile value of every cell, row by row.
    spec fn tiles(v: Self::V) -> Seq<Seq<usize>>;

    /// (width, height) of the state.
    spec fn extent(v: Self::V) -> (usize, usize);

    /// Whether `m` may be played from `v`.
    spec fn legal(v: Self::V, m: Self::M) -> bool;

    /// The state reached from `v` by playing `m`.
    spec fn step(v: Self::V, m: Self::M) -> Self::V;

    /// The move that takes `m` back.
    spec fn back(m: Self::M) -> Self::M;

    /// The tile value at `p`, or nothing when `p` is outside the board.
    spec fn cell(v: Self::V, p: Self::P) -> Option<usize>;

    /// The state `v` with the cell at `p` overwritten by `value`.
    spec fn put(v: Self::V, p: Self::P, value: usize) -> Self::V;

    /// Why a layout cannot be loaded, or nothing when it can.
    spec fn load_error(layout: Seq<Seq<usize>>) -> Option<ErrorKind>;

    /// The state that loading `layout` into `v` gives.
    spec fn loaded(v: Self::V, layout: Seq<Seq<usize>>) -> Self::V;

    /// A legal move keeps the blank anchored and can be taken back: the
    /// reverse move is legal afterwards and restores the state exactly.
    proof fn lemma_round_trip(v: Self::V, m: Self::M)
        requires
            Self::wf(v),
            Self::anchored(v),
            Self::legal(v, m),
        ensures
            Self::wf(Self::step(v, m)),
            Self::anchored(Self::step(v, m)),
            Self::legal(Self::step(v, m), Self::back(m)),
            Self::step(Self::step(v, m), Self::back(m)) == v,
    ;

    /// A layout that loads gives a consistent, anchored state that shows
    /// exactly that layout.
    proof fn lemma_loaded(v: Self::V, layout: Seq<Seq<usize>>)
        requires
            loadable(layout),
            Self::load_error(layout) is None,
        ensures
            Self::wf(Self::loaded(v, layout)),
            Self::anchored(Self::loaded(v, layout)),
            Self::tiles(Self::loaded(v, layout)) == layout,
    ;

    /// Every move that is legal from the current state, each once.
    fn possible_moves(&self) -> (r: Vec<Self::M>)
        requires
            Self::wf(self@),
        ensures
            forall|m: Self::M| r@.contains(m) <==> Self::legal(self@, m),
            r@.no_duplicates(),
    ;

    /// Plays `dir` if it is legal; fails without touching the state if not.
    fn do_move(&mut self, dir: &Self::M) -> (r: Result<(), ErrorKind>)
        requires
            Self::wf(old(self)@),
        ensures
            Self::wf(final(self)@),
            Self::legal(old(self)@, *dir) ==> r is Ok && final(self)@ == Self::step(
                old(self)@,
                *dir,
            ),
            !Self::legal(old(self)@, *dir) ==> r == Err::<(), ErrorKind>(ErrorKind::InvalidMove)
                && final(self)@ == old(self)@,
    ;

    /// Takes `dir` back: plays the reverse of `dir` if that is legal.
    fn undo_move(&mut self, dir: &Self::M) -> (r: Result<(), ErrorKind>)
        requires
            Self::wf(old(self)@),
        ensures
            Self::wf(final(self)@),
            Self::legal(old(self)@, Self::back(*dir)) ==> r is Ok && final(self)@ == Self::step(
                old(self)@,
                Self::back(*dir),
            ),
            !Self::legal(old(self)@, Self::back(*dir)) ==> r == Err::<(), ErrorKind>(
                ErrorKind::InvalidMove,
            ) && final(self)@ == old(self)@,
    ;

    /// Overwrites one cell; fails without touching the state when `position`
    /// is outside the board.
    fn set_value(&mut self, position: Self::P, value: usize) -> (r: Result<(), ErrorKind>)
        requires
            Self::wf(old(self)@),
        ensures
            Self::wf(final(self)@),
            Self::cell(old(self)@, position) is Some ==> r is Ok && final(self)@ == Self::put(
                old(self)@,
                position,
                value,
            ),
            Self::cell(old(self)@, position) is None ==> r == Err::<(), ErrorKind>(
                ErrorKind::OutOfBounds,
            ) && final(self)@ == old(self)@,
    ;

    /// Reads one cell; fails when `position` is outside the board.
    fn get_value(&self, position: Self::P) -> (r: Result<usize, ErrorKind>)
        requires
            Self::wf(self@),
        ensures
            r == match Self::cell(self@, position) {
                Some(value) => Ok::<usize, ErrorKind>(value),
                None => Err::<usize, ErrorKind>(ErrorKind::OutOfBounds),
            },
    ;

    /// (width, height).
    fn dim(&self) -> (r: (usize, usize))
        ensures
            r == Self::extent(self@),
    ;

    /// Replaces the whole state by `data`, or fails and leaves the state as it
    /// was.
    fn from_2dvec(&mut self, data: Vec<Vec<usize>>) -> (r: Result<(), ErrorKind>)
        requires
            loadable(rows_of(data)),
        ensures
            match Self::load_error(rows_of(data)) {
                None => r is Ok && final(self)@ == Self::loaded(old(self)@, rows_of(data)),
                Some(e) => r == Err::<(), ErrorKind>(e) && final(self)@ == old(self)@,
            },
    ;

    /// A copy of the current layout.
    fn to_2dvec(&self) -> (r: Vec<Vec<usize>>)
        ensures
            rows_of(r) == Self::tiles(self@),
    ;

    /// An independent copy of the state.
    fn duplicate(&self) -> (r: Self)
        ensures
            r@ == self@,
    ;
}

} // verus!
