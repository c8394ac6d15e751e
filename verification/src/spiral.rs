//! The inward spiral: which place each cell has on it, and why the sweep
//! that walks it visits every cell exactly once.

use crate::layout::is_cell;
use vstd::prelude::*;

verus! {

pub open spec fn min2(a: int, b: int) -> int {
    if a <= b {
        a
    } else {
        b
    }
}

/// The ring of the cell `(r, c)`: its distance to the nearest edge.
pub open spec fn ring(w: int, h: int, r: int, c: int) -> int {
    min2(min2(r, c), min2(h - 1 - r, w - 1 - c))
}

/// The number of cells that lie on the rings outside ring `k`.
pub open spec fn covered(w: int, h: int, k: int) -> int {
    w * h - (w - 2 * k) * (h - 2 * k)
}

/// The place of the cell `(r, c)` on the spiral, counted from 0. The spiral
/// runs ring by ring from the outside in. On a ring it runs along the top
/// row to the right, down the right column, along the bottom row to the left
/// and up the left column.
pub open spec fn spiral_index(w: int, h: int, r: int, c: int) -> int {
    let k = ring(w, h, r, c);
    let ww = w - 2 * k;
    let hh = h - 2 * k;
    let start = covered(w, h, k);
    if r == k {
        start + (c - k)
    } else if c == w - 1 - k {
        start + (ww - 1) + (r - k)
    } else if r == h - 1 - k {
        start + (ww - 1) + (hh - 1) + (w - 1 - k - c)
    } else {
        start + 2 * (ww - 1) + (hh - 1) + (h - 1 - k - r)
    }
}

/// The tile on the place `index` of a sweep over `cells` cells: the tiles
/// count up from 1 and the blank takes the last place.
pub open spec fn sweep_value(cells: int, index: int) -> int {
    if index < cells - 1 {
        index + 1
    } else {
        0
    }
}

/// The tile that the spiral layout puts on the cell `(r, c)`.
pub open spec fn snail_value(w: int, h: int, r: int, c: int) -> int {
    sweep_value(w * h, spiral_index(w, h, r, c))
}

/// A moment of the sweep: the ring it is on, its heading (0 right, 1 down,
/// 2 left, 3 up), the box that is still to be swept, the cell it stands on
/// and the number of cells that it has left behind.
pub struct Sweep {
    pub k: int,
    pub di: int,
    pub left: int,
    pub top: int,
    pub right: int,
    pub bottom: int,
    pub col: int,
    pub row: int,
    pub count: int,
}

impl Sweep {
    /// The cell `(r, c)` lies in the box that is still to be swept.
    pub open spec fn boxed(self, r: int, c: int) -> bool {
        self.left <= c <= self.right && self.top <= r <= self.bottom
    }

    /// The sweep has left the cell `(r, c)` behind.
    pub open spec fn visited(self, r: int, c: int) -> bool {
        ||| !self.boxed(r, c)
        ||| self.di == 0 && r == self.row && c < self.col
        ||| self.di == 1 && c == self.col && r < self.row
        ||| self.di == 2 && r == self.row && c > self.col
        ||| self.di == 3 && c == self.col && r > self.row
    }

    /// Nothing is left in the box.
    pub open spec fn done(self) -> bool {
        self.right < self.left || self.bottom < self.top
    }

    /// The sweep stands on a cell of ring `k` that it has not visited, and
    /// has left behind exactly the cells that come before it on the spiral.
    pub open spec fn on_track(self, w: int, h: int) -> bool {
        let k = self.k;
        let ww = w - 2 * k;
        let hh = h - 2 * k;
        let start = covered(w, h, k);
        &&& 0 <= k
        &&& 1 <= ww
        &&& 1 <= hh
        &&& self.left == k
        &&& self.right == (if self.di <= 1 {
            w - 1 - k
        } else {
            w - 2 - k
        })
        &&& self.top == (if self.di == 0 {
            k
        } else {
            k + 1
        })
        &&& self.bottom == (if self.di <= 2 {
            h - 1 - k
        } else {
            h - 2 - k
        })
        &&& if self.di == 0 {
            self.row == k && k <= self.col <= self.right && self.count == start + (self.col - k)
        } else if self.di == 1 {
            self.col == self.right && k + 1 <= self.row <= self.bottom && self.count == start + (ww
                - 1) + (self.row - k)
        } else if self.di == 2 {
            self.row == self.bottom && k <= self.col <= self.right && 2 <= hh && self.count
                == start + (ww - 1) + (hh - 1) + (w - 1 - k - self.col)
        } else if self.di == 3 {
            self.col == k && k + 1 <= self.row <= self.bottom && 2 <= ww && self.count == start + 2
                * (ww - 1) + (hh - 1) + (h - 1 - k - self.row)
        } else {
            false
        }
    }

    /// The column step of the heading.
    pub open spec fn dc(di: int) -> int {
        if di == 0 {
            1
        } else if di == 2 {
            -1
        } else {
            0
        }
    }

    /// The row step of the heading.
    pub open spec fn dr(di: int) -> int {
        if di == 1 {
            1
        } else if di == 3 {
            -1
        } else {
            0
        }
    }

    /// The next cell straight ahead lies in the box.
    pub open spec fn free_ahead(self) -> bool {
        self.boxed(self.row + Sweep::dr(self.di), self.col + Sweep::dc(self.di))
    }

    /// The sweep after one step straight ahead.
    pub open spec fn ahead(self) -> Sweep {
        Sweep {
            col: self.col + Sweep::dc(self.di),
            row: self.row + Sweep::dr(self.di),
            count: self.count + 1,
            ..self
        }
    }

    /// The sweep after a turn: the line just swept leaves the box, and the
    /// sweep takes one step on its new heading. A turn to the right starts
    /// the next ring.
    pub open spec fn turned(self) -> Sweep {
        let di = (self.di + 1) % 4;
        Sweep {
            k: if di == 0 {
                self.k + 1
            } else {
                self.k
            },
            di,
            left: if di == 0 {
                self.left + 1
            } else {
                self.left
            },
            top: if di == 1 {
                self.top + 1
            } else {
                self.top
            },
            right: if di == 2 {
                self.right - 1
            } else {
                self.right
            },
            bottom: if di == 3 {
                self.bottom - 1
            } else {
                self.bottom
            },
            col: self.col + Sweep::dc(di),
            row: self.row + Sweep::dr(di),
            count: self.count + 1,
        }
    }

    /// The next moment of the sweep.
    pub open spec fn next(self) -> Sweep {
        if self.free_ahead() {
            self.ahead()
        } else {
            self.turned()
        }
    }

    /// The sweep at its start: in the top-left corner, heading right.
    pub open spec fn start(w: int, h: int) -> Sweep {
        Sweep {
            k: 0,
            di: 0,
            left: 0,
            top: 0,
            right: w - 1,
            bottom: h - 1,
            col: 0,
            row: 0,
            count: 0,
        }
    }
}

/// The sweep starts on track.
pub proof fn lemma_sweep_start(w: int, h: int)
    requires
        1 <= w,
        1 <= h,
    ensures
        Sweep::start(w, h).on_track(w, h),
        forall|r: int, c: int| is_cell(r, c, w, h) ==> !Sweep::start(w, h).visited(r, c),
{
    assert(covered(w, h, 0) == 0);
}

/// A sweep on track stands on an unvisited cell whose place on the spiral is
/// the number of cells left behind.
pub proof fn lemma_sweep_cell(s: Sweep, w: int, h: int)
    requires
        s.on_track(w, h),
    ensures
        is_cell(s.row, s.col, w, h),
        !s.visited(s.row, s.col),
        spiral_index(w, h, s.row, s.col) == s.count,
        0 <= s.count < w * h,
{
    let k = s.k;
    let ww = w - 2 * k;
    let hh = h - 2 * k;
    assert(ring(w, h, s.row, s.col) == k);
    lemma_ring_size(ww, hh);
    lemma_covered_bound(w, h, k);
}

/// The rings outside ring `k` hold no more cells than the board.
pub proof fn lemma_covered_bound(w: int, h: int, k: int)
    requires
        0 <= k,
        1 <= w - 2 * k,
        1 <= h - 2 * k,
    ensures
        0 <= covered(w, h, k) < w * h,
{
    let ww = w - 2 * k;
    let hh = h - 2 * k;
    assert((ww + 2 * k) * (hh + 2 * k) >= ww * hh && ww * hh >= 1) by (nonlinear_arith)
        requires
            0 <= k,
            1 <= ww,
            1 <= hh,
    ;
    assert(w * h == (ww + 2 * k) * (hh + 2 * k));
}

/// Products that bound the length of a ring of `ww` by `hh` cells.
pub proof fn lemma_ring_size(ww: int, hh: int)
    requires
        1 <= ww,
        1 <= hh,
    ensures
        ww * hh >= ww,
        ww * hh >= hh,
        ww * hh - ww - hh + 1 >= 0,
        (ww - 2) * (hh - 2) == ww * hh - 2 * ww - 2 * hh + 4,
        hh >= 2 ==> ww * hh >= 2 * ww,
        hh >= 2 && ww >= 2 ==> ww * hh >= 2 * ww + hh - 2,
        hh >= 3 && ww >= 2 ==> ww * hh >= 2 * ww + 2 * hh - 4,
        hh == 1 ==> ww * hh == ww,
        ww == 1 ==> ww * hh == hh,
        hh == 2 ==> ww * hh == 2 * ww,
        ww == 2 ==> ww * hh == 2 * hh,
        ww * hh == ww ==> hh == 1,
        ww * hh == ww + hh - 1 ==> ww == 1 || hh == 1,
        ww >= 2 && ww * hh == 2 * ww + hh - 2 ==> hh <= 2,
        hh >= 3 && ww * hh == 2 * ww + 2 * hh - 4 ==> ww <= 2,
{
    assert(ww * hh >= ww && ww * hh >= hh) by (nonlinear_arith)
        requires
            1 <= ww,
            1 <= hh,
    ;
    assert(ww * hh - ww - hh + 1 == (ww - 1) * (hh - 1) && (ww - 1) * (hh - 1) >= 0)
        by (nonlinear_arith)
        requires
            1 <= ww,
            1 <= hh,
    ;
    assert((ww - 2) * (hh - 2) == ww * hh - 2 * ww - 2 * hh + 4) by (nonlinear_arith);
    assert(hh == 1 ==> ww * hh == ww) by (nonlinear_arith);
    assert(ww == 1 ==> ww * hh == hh) by (nonlinear_arith);
    assert(hh == 2 ==> ww * hh == 2 * ww) by (nonlinear_arith);
    assert(ww == 2 ==> ww * hh == 2 * hh) by (nonlinear_arith);
    assert(hh >= 2 ==> ww * hh >= 2 * ww) by (nonlinear_arith)
        requires
            1 <= ww,
    ;
    assert(ww * hh - 2 * ww - hh + 2 == (ww - 1) * (hh - 2)) by (nonlinear_arith);
    assert(hh >= 2 && ww >= 2 ==> (ww - 1) * (hh - 2) >= 0) by (nonlinear_arith);
    assert(hh >= 3 && ww >= 2 ==> (ww - 2) * (hh - 2) >= 0) by (nonlinear_arith);
    assert(ww * hh == ww ==> hh == 1) by (nonlinear_arith)
        requires
            1 <= ww,
            1 <= hh,
    ;
    assert((ww - 1) * (hh - 1) == 0 ==> ww == 1 || hh == 1) by (nonlinear_arith);
    assert(ww >= 2 && (ww - 1) * (hh - 2) == 0 ==> hh == 2) by (nonlinear_arith);
    assert(hh >= 3 && (ww - 2) * (hh - 2) == 0 ==> ww == 2) by (nonlinear_arith);
}

/// One step of a sweep on track: the cell it stood on is now visited, and
/// nothing else has changed. Either cells are left and the sweep is on track
/// again, or the sweep has visited every cell and the box is empty.
pub proof fn lemma_sweep_next(s: Sweep, w: int, h: int)
    requires
        s.on_track(w, h),
    ensures
        forall|r: int, c: int|
            is_cell(r, c, w, h) ==> (#[trigger] s.next().visited(r, c) <==> (s.visited(r, c) || (r
                == s.row && c == s.col))),
        s.next().count == s.count + 1,
        s.count + 1 < w * h ==> s.next().on_track(w, h),
        s.count + 1 >= w * h ==> s.next().done() && s.count + 1 == w * h,
{
    let k = s.k;
    let ww = w - 2 * k;
    let hh = h - 2 * k;
    lemma_ring_size(ww, hh);
    let t = s.next();
    assert(covered(w, h, k + 1) == covered(w, h, k) + 2 * ww + 2 * hh - 4) by {
        assert(w - 2 * (k + 1) == ww - 2);
        assert(h - 2 * (k + 1) == hh - 2);
    }
    assert(w * h - covered(w, h, k) == ww * hh);
    if s.free_ahead() {
        assert(t == s.ahead());
    } else {
        assert(t == s.turned());
    }
}

/// `order` lists the cells of the board in the order of the spiral: its
/// entry `j` is the cell whose place on the spiral is `j`, and every cell is
/// the entry of its place.
pub open spec fn is_spiral_order(w: int, h: int, order: Seq<(int, int)>) -> bool {
    &&& order.len() == w * h
    &&& forall|j: int|
        0 <= j < order.len() ==> is_cell((#[trigger] order[j]).0, order[j].1, w, h) && spiral_index(
            w,
            h,
            order[j].0,
            order[j].1,
        ) == j
    &&& forall|r: int, c: int|
        is_cell(r, c, w, h) ==> 0 <= #[trigger] spiral_index(w, h, r, c) < w * h && order[spiral_index(
            w,
            h,
            r,
            c,
        )] == (r, c)
}

/// What a sweep has listed so far: the cells it has left behind, each at
/// its place.
pub open spec fn listed(s: Sweep, w: int, h: int, order: Seq<(int, int)>) -> bool {
    &&& order.len() == s.count
    &&& 0 <= s.count <= w * h
    &&& s.count < w * h ==> s.on_track(w, h)
    &&& s.count == w * h ==> s.done()
    &&& forall|j: int|
        0 <= j < order.len() ==> is_cell((#[trigger] order[j]).0, order[j].1, w, h) && spiral_index(
            w,
            h,
            order[j].0,
            order[j].1,
        ) == j
    &&& forall|r: int, c: int|
        is_cell(r, c, w, h) && #[trigger] s.visited(r, c) ==> 0 <= spiral_index(w, h, r, c)
            < s.count && order[spiral_index(w, h, r, c)] == (r, c)
}

/// A sweep that goes on to its end lists every cell at its place.
proof fn lemma_sweep_lists(s: Sweep, w: int, h: int, order: Seq<(int, int)>)
    requires
        listed(s, w, h, order),
    ensures
        exists|full: Seq<(int, int)>| is_spiral_order(w, h, full),
    decreases w * h - s.count,
{
    if s.count == w * h {
        assert forall|r: int, c: int| is_cell(r, c, w, h) implies 0 <= #[trigger] spiral_index(
            w,
            h,
            r,
            c,
        ) < w * h && order[spiral_index(w, h, r, c)] == (r, c) by {
            assert(s.visited(r, c));
        }
        assert(is_spiral_order(w, h, order));
    } else {
        lemma_sweep_cell(s, w, h);
        lemma_sweep_next(s, w, h);
        let t = s.next();
        let grown = order.push((s.row, s.col));
        assert forall|r: int, c: int| is_cell(r, c, w, h) && #[trigger] t.visited(r, c) implies 0
            <= spiral_index(w, h, r, c) < t.count && grown[spiral_index(w, h, r, c)] == (r, c) by {
            if r == s.row && c == s.col {
            } else {
                assert(s.visited(r, c));
            }
        }
        assert(listed(t, w, h, grown));
        lemma_sweep_lists(t, w, h, grown);
    }
}

/// The spiral passes through every cell of a board exactly once.
pub proof fn lemma_spiral_order(w: int, h: int)
    requires
        1 <= w,
        1 <= h,
    ensures
        exists|order: Seq<(int, int)>| is_spiral_order(w, h, order),
{
    lemma_sweep_start(w, h);
    let s = Sweep::start(w, h);
    assert(0 < w * h) by (nonlinear_arith)
        requires
            1 <= w,
            1 <= h,
    ;
    assert(listed(s, w, h, Seq::<(int, int)>::empty()));
    lemma_sweep_lists(s, w, h, Seq::<(int, int)>::empty());
}

} // verus!
