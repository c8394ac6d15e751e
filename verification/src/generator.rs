//! Goal layouts and the scramble generator.

use crate::grid2d::Grid2D;
use crate::grid2d::GridView;
use crate::grid2d::lemma_step_keeps_valid;
use crate::grid_traits::Grid;
use crate::grid_traits::rows_of;
use crate::layout::is_cell;
use crate::layout::is_tiling;
use crate::layout::lemma_row_major_bound;
use crate::layout::lemma_row_major_cell;
use crate::layout::lemma_row_major_unique;
use crate::layout::occurs;
use crate::layout::rectangular;
use crate::layout::row_major;
use crate::layout::same_layout;
use crate::random::shuffle_moves;
use crate::spiral::Sweep;
use crate::spiral::is_spiral_order;
use crate::spiral::lemma_spiral_order;
use crate::spiral::lemma_sweep_cell;
use crate::spiral::lemma_sweep_next;
use crate::spiral::lemma_sweep_start;
use crate::spiral::snail_value;
use crate::spiral::spiral_index;
use crate::status::ErrorKind;
use crate::utils::is_in_bounds;
use rand::thread_rng;
use vstd::prelude::*;

verus! {

/// The fill order of a goal layout.
#[derive(Debug, Clone, Copy, PartialEq, Eq, Structural)]
pub enum PuzzleType {
    /// A spiral that runs inward from the top-left cell, blank where it ends.
    Snail,
    /// Row by row from 0: the blank comes first.
    Lines00,
    /// Row by row from 1: the blank comes last.
    LinesNN,
}

/// The tile that the row-by-row layouts put on the cell `(r, c)`: its number
/// plus `first`, starting over at 0 after the last tile.
pub open spec fn lines_value(width: int, height: int, first: int, r: int, c: int) -> int {
    (row_major(width, r, c) + first) % (width * height)
}

/// A rectangle filled row by row, from 0 or from 1 with the blank last, is a
/// proper tiling.
pub proof fn lemma_lines_tiling(rows: Seq<Seq<usize>>, width: int, height: int, first: int)
    requires
        0 <= width,
        0 <= height,
        first == 0 || first == 1,
        rectangular(rows, width, height),
        forall|r: int, c: int|
            is_cell(r, c, width, height) ==> #[trigger] rows[r][c] == lines_value(
                width,
                height,
                first,
                r,
                c,
            ),
    ensures
        is_tiling(rows, width, height),
{
    let n = width * height;
    assert forall|r: int, c: int|
        0 <= r < rows.len() && 0 <= c < rows[r].len() implies #[trigger] rows[r][c] < n by {
        assert(is_cell(r, c, width, height));
        lemma_row_major_bound(width, height, r, c);
        vstd::arithmetic::div_mod::lemma_mod_bound(row_major(width, r, c) + first, n);
    }
    assert forall|r1: int, c1: int, r2: int, c2: int|
        0 <= r1 < rows.len() && 0 <= c1 < rows[r1].len() && 0 <= r2 < rows.len() && 0 <= c2
            < rows[r2].len() && #[trigger] rows[r1][c1] == #[trigger] rows[r2][c2] implies r1 == r2
        && c1 == c2 by {
        assert(is_cell(r1, c1, width, height));
        assert(is_cell(r2, c2, width, height));
        lemma_row_major_bound(width, height, r1, c1);
        lemma_row_major_bound(width, height, r2, c2);
        lemma_shifted(row_major(width, r1, c1), first, n);
        lemma_shifted(row_major(width, r2, c2), first, n);
        lemma_row_major_unique(width, r1, c1, r2, c2);
    }
    assert forall|value: int| 0 <= value < n implies #[trigger] occurs(rows, value) by {
        assert(0 < width) by (nonlinear_arith)
            requires
                0 <= width,
                0 < width * height,
        ;
        let index = if first == 0 {
            value
        } else if value == 0 {
            n - 1
        } else {
            value - 1
        };
        lemma_row_major_cell(width, height, index);
        lemma_shifted(index, first, n);
        let r = index / width;
        let c = index % width;
        assert(is_cell(r, c, width, height));
        assert(rows[r][c] == value);
    }
}

/// What adding 0 or 1 and starting over at `n` does to a number below `n`.
proof fn lemma_shifted(index: int, first: int, n: int)
    requires
        0 <= index < n,
        first == 0 || first == 1,
    ensures
        (index + first) % n == (if index + first == n {
            0
        } else {
            index + first
        }),
{
    if index + first == n {
        vstd::arithmetic::div_mod::lemma_mod_self_0(n);
    } else {
        vstd::arithmetic::div_mod::lemma_small_mod((index + first) as nat, n as nat);
    }
}

/// The layout filled row by row with `first` on the first cell.
fn lines_template(width: usize, height: usize, first: usize) -> (grid: Vec<Vec<usize>>)
    requires
        width * height <= usize::MAX,
        first == 0 || first == 1,
    ensures
        rectangular(rows_of(grid), width as int, height as int),
        forall|r: int, c: int|
            is_cell(r, c, width as int, height as int) ==> #[trigger] rows_of(grid)[r][c]
                == lines_value(width as int, height as int, first as int, r, c),
        is_tiling(rows_of(grid), width as int, height as int),
{
    let mut grid: Vec<Vec<usize>> = Vec::with_capacity(height);
    let mut r: usize = 0;
    while r < height
        invariant
            r <= height,
            width * height <= usize::MAX,
            first == 0 || first == 1,
            grid@.len() == r,
            forall|i: int| 0 <= i < r ==> (#[trigger] grid@[i])@.len() == width,
            forall|i: int, j: int|
                0 <= i < r && 0 <= j < width ==> #[trigger] grid@[i]@[j] == lines_value(
                    width as int,
                    height as int,
                    first as int,
                    i,
                    j,
                ),
        decreases height - r,
    {
        let mut row: Vec<usize> = Vec::new();
        let mut c: usize = 0;
        while c < width
            invariant
                r < height,
                c <= width,
                width * height <= usize::MAX,
                first == 0 || first == 1,
                row@.len() == c,
                forall|j: int|
                    0 <= j < c ==> #[trigger] row@[j] == lines_value(
                        width as int,
                        height as int,
                        first as int,
                        r as int,
                        j,
                    ),
            decreases width - c,
        {
            proof {
                lemma_row_major_bound(width as int, height as int, r as int, c as int);
            }
            let index = r * width + c;
            let cells = width * height;
            let value = if first == 1 && index + 1 == cells {
                0
            } else {
                index + first
            };
            proof {
                lemma_shifted(index as int, first as int, cells as int);
            }
            row.push(value);
            c += 1;
        }
        grid.push(row);
        r += 1;
    }
    proof {
        lemma_lines_tiling(rows_of(grid), width as int, height as int, first as int);
    }
    grid
}

/// The goal layout with the blank on the first cell and the tiles after it,
/// row by row.
pub fn lines00_template(width: usize, height: usize) -> (grid: Vec<Vec<usize>>)
    requires
        width * height <= usize::MAX,
    ensures
        rectangular(rows_of(grid), width as int, height as int),
        forall|r: int, c: int|
            is_cell(r, c, width as int, height as int) ==> #[trigger] rows_of(grid)[r][c]
                == lines_value(width as int, height as int, 0, r, c),
        is_tiling(rows_of(grid), width as int, height as int),
{
    lines_template(width, height, 0)
}

/// The goal layout with the tiles row by row from 1 and the blank on the
/// last cell.
pub fn linesnn_template(width: usize, height: usize) -> (grid: Vec<Vec<usize>>)
    requires
        width * height <= usize::MAX,
    ensures
        rectangular(rows_of(grid), width as int, height as int),
        forall|r: int, c: int|
            is_cell(r, c, width as int, height as int) ==> #[trigger] rows_of(grid)[r][c]
                == lines_value(width as int, height as int, 1, r, c),
        is_tiling(rows_of(grid), width as int, height as int),
{
    lines_template(width, height, 1)
}

/// A rectangle filled along the spiral is a proper tiling.
pub proof fn lemma_snail_tiling(rows: Seq<Seq<usize>>, width: int, height: int)
    requires
        0 <= width,
        0 <= height,
        rectangular(rows, width, height),
        forall|r: int, c: int|
            is_cell(r, c, width, height) ==> #[trigger] rows[r][c] == snail_value(
                width,
                height,
                r,
                c,
            ),
    ensures
        is_tiling(rows, width, height),
{
    let n = width * height;
    if width == 0 || height == 0 {
        assert(n == 0) by (nonlinear_arith)
            requires
                n == width * height,
                width == 0 || height == 0,
        ;
        assert forall|r: int, c: int|
            0 <= r < rows.len() && 0 <= c < rows[r].len() implies #[trigger] rows[r][c] < n by {
            assert(rows[r].len() == width);
        }
        assert forall|r1: int, c1: int, r2: int, c2: int|
            0 <= r1 < rows.len() && 0 <= c1 < rows[r1].len() && 0 <= r2 < rows.len() && 0 <= c2
                < rows[r2].len() && #[trigger] rows[r1][c1] == #[trigger] rows[r2][c2] implies r1
            == r2 && c1 == c2 by {
            assert(rows[r1].len() == width);
        }
    } else {
        lemma_spiral_order(width, height);
        let order = choose|order: Seq<(int, int)>| is_spiral_order(width, height, order);
        assert forall|r: int, c: int|
            0 <= r < rows.len() && 0 <= c < rows[r].len() implies #[trigger] rows[r][c] < n by {
            assert(is_cell(r, c, width, height));
            assert(0 <= spiral_index(width, height, r, c) < n);
        }
        assert forall|r1: int, c1: int, r2: int, c2: int|
            0 <= r1 < rows.len() && 0 <= c1 < rows[r1].len() && 0 <= r2 < rows.len() && 0 <= c2
                < rows[r2].len() && #[trigger] rows[r1][c1] == #[trigger] rows[r2][c2] implies r1
            == r2 && c1 == c2 by {
            assert(is_cell(r1, c1, width, height));
            assert(is_cell(r2, c2, width, height));
            let i1 = spiral_index(width, height, r1, c1);
            let i2 = spiral_index(width, height, r2, c2);
            assert(0 <= i1 < n && order[i1] == (r1, c1));
            assert(0 <= i2 < n && order[i2] == (r2, c2));
            assert(i1 == i2);
        }
        assert forall|value: int| 0 <= value < n implies #[trigger] occurs(rows, value) by {
            let j = if value == 0 {
                n - 1
            } else {
                value - 1
            };
            let cell = order[j];
            assert(is_cell(cell.0, cell.1, width, height));
            assert(rows[cell.0][cell.1] == value);
        }
    }
}

/// `height` rows of `width` blanks.
fn blank_rows(width: usize, height: usize) -> (grid: Vec<Vec<usize>>)
    ensures
        rectangular(rows_of(grid), width as int, height as int),
        forall|r: int, c: int|
            is_cell(r, c, width as int, height as int) ==> #[trigger] rows_of(grid)[r][c] == 0,
{
    let mut grid: Vec<Vec<usize>> = Vec::with_capacity(height);
    let mut r: usize = 0;
    while r < height
        invariant
            r <= height,
            grid@.len() == r,
            forall|i: int| 0 <= i < r ==> (#[trigger] grid@[i])@.len() == width,
            forall|i: int, j: int| 0 <= i < r && 0 <= j < width ==> #[trigger] grid@[i]@[j] == 0,
        decreases height - r,
    {
        let mut row: Vec<usize> = Vec::with_capacity(width);
        let mut c: usize = 0;
        while c < width
            invariant
                c <= width,
                row@.len() == c,
                forall|j: int| 0 <= j < c ==> #[trigger] row@[j] == 0,
            decreases width - c,
        {
            row.push(0);
            c += 1;
        }
        grid.push(row);
        r += 1;
    }
    grid
}

/// The goal layout that runs in a spiral from the top-left cell inward,
/// with the tiles counting up from 1 and the blank where the spiral ends.
pub fn snail_template(width: usize, height: usize) -> (grid: Vec<Vec<usize>>)
    requires
        width <= i32::MAX,
        height <= i32::MAX,
        width * height <= usize::MAX,
    ensures
        rectangular(rows_of(grid), width as int, height as int),
        forall|r: int, c: int|
            is_cell(r, c, width as int, height as int) ==> #[trigger] rows_of(grid)[r][c]
                == snail_value(width as int, height as int, r, c),
        is_tiling(rows_of(grid), width as int, height as int),
{
    let mut grid = blank_rows(width, height);
    if width == 0 || height == 0 {
        assert(width * height == 0) by (nonlinear_arith)
            requires
                width == 0 || height == 0,
        ;
        return grid;
    }
    let ghost w = width as int;
    let ghost h = height as int;
    let cells: usize = width * height;
    // Boundaries
    let mut left_top: (i32, i32) = (0, 0);
    let mut right_bot: (i32, i32) = ((width - 1) as i32, (height - 1) as i32);
    // Direction handlers
    let dir_col: [i32; 4] = [1, 0, -1, 0];
    let dir_row: [i32; 4] = [0, 1, 0, -1];
    let mut di: usize = 0;

    let mut col: i32 = left_top.0;
    let mut row: i32 = left_top.1;

    let ghost mut s = Sweep::start(w, h);
    proof {
        lemma_sweep_start(w, h);
        assert(cells >= 1) by (nonlinear_arith)
            requires
                cells == width * height,
                width >= 1,
                height >= 1,
        ;
    }
    let mut i: usize = 0;
    while i < cells
        invariant
            w == width,
            h == height,
            1 <= width <= i32::MAX,
            1 <= height <= i32::MAX,
            cells == width * height,
            i <= cells,
            dir_col@ == seq![1i32, 0i32, -1i32, 0i32],
            dir_row@ == seq![0i32, 1i32, 0i32, -1i32],
            s.count == i,
            s.di == di,
            s.left == left_top.0,
            s.top == left_top.1,
            s.right == right_bot.0,
            s.bottom == right_bot.1,
            s.col == col,
            s.row == row,
            i < cells ==> s.on_track(w, h),
            i == cells ==> s.done(),
            rectangular(rows_of(grid), w, h),
            forall|r: int, c: int|
                is_cell(r, c, w, h) && #[trigger] s.visited(r, c) ==> rows_of(grid)[r][c]
                    == snail_value(w, h, r, c),
        decreases cells - i,
    {
        proof {
            lemma_sweep_cell(s, w, h);
            lemma_sweep_next(s, w, h);
        }
        let ghost before = rows_of(grid);
        let val = if i < cells - 1 {
            i + 1
        } else {
            0
        };
        assert(before[row as int].len() == width);
        grid[row as usize][col as usize] = val;
        assert(rows_of(grid) =~= crate::layout::with_cell(before, row as int, col as int, val));
        let candidate_col = col + dir_col[di];
        let candidate_row = row + dir_row[di];
        assert(candidate_col == s.col + Sweep::dc(s.di));
        assert(candidate_row == s.row + Sweep::dr(s.di));
        if is_in_bounds(candidate_col, candidate_row, left_top, right_bot) {
            assert(s.free_ahead());
            col = candidate_col;
            row = candidate_row;
        } else {
            assert(!s.free_ahead());
            di = (di + 1) % 4;
            if dir_col[di] + dir_row[di] > 0 {
                left_top.0 += dir_col[di];
                left_top.1 += dir_row[di];
            } else {
                right_bot.0 += dir_col[di];
                right_bot.1 += dir_row[di];
            }
            col += dir_col[di];
            row += dir_row[di];
        }
        proof {
            let t = s.next();
            assert forall|r: int, c: int| is_cell(r, c, w, h) && #[trigger] t.visited(
                r,
                c,
            ) implies rows_of(grid)[r][c] == snail_value(w, h, r, c) by {
                if r == s.row && c == s.col {
                } else {
                    assert(s.visited(r, c));
                }
            }
            s = t;
        }
        i += 1;
    }
    proof {
        let rows = rows_of(grid);
        assert forall|r: int, c: int| is_cell(r, c, w, h) implies #[trigger] rows[r][c]
            == snail_value(w, h, r, c) by {
            assert(s.visited(r, c));
        }
        lemma_snail_tiling(rows, w, h);
    }
    grid
}

impl PuzzleType {
    /// The tile that the goal layout of this kind puts on the cell `(r, c)`
    /// of a `width` by `height` board.
    pub open spec fn value(self, width: int, height: int, r: int, c: int) -> int {
        match self {
            PuzzleType::Snail => snail_value(width, height, r, c),
            PuzzleType::Lines00 => lines_value(width, height, 0, r, c),
            PuzzleType::LinesNN => lines_value(width, height, 1, r, c),
        }
    }

    /// The goal layout of this kind for a `width` by `height` board.
    pub open spec fn layout(self, width: int, height: int) -> Seq<Seq<usize>> {
        Seq::new(
            height as nat,
            |r: int| Seq::new(width as nat, |c: int| self.value(width, height, r, c) as usize),
        )
    }

    /// The goal layout of this kind for a `width` by `height` board.
    pub fn get_template(&self, width: usize, height: usize) -> (grid: Vec<Vec<usize>>)
        requires
            width * height <= usize::MAX,
            *self == PuzzleType::Snail ==> width <= i32::MAX && height <= i32::MAX,
        ensures
            rectangular(rows_of(grid), width as int, height as int),
            forall|r: int, c: int|
                is_cell(r, c, width as int, height as int) ==> #[trigger] rows_of(grid)[r][c]
                    == self.value(width as int, height as int, r, c),
            is_tiling(rows_of(grid), width as int, height as int),
            rows_of(grid) == self.layout(width as int, height as int),
    {
        let grid = match self {
            PuzzleType::Snail => snail_template(width, height),
            PuzzleType::Lines00 => lines00_template(width, height),
            PuzzleType::LinesNN => linesnn_template(width, height),
        };
        assert(rows_of(grid) =~~= self.layout(width as int, height as int));
        grid
    }
}

/// The layouts held by a vector of layout snapshots.
pub open spec fn layouts_of(visited: Vec<Vec<Vec<usize>>>) -> Seq<Seq<Seq<usize>>> {
    Seq::new(visited@.len(), |a: int| rows_of(visited@[a]))
}

/// `layout` is one of `visited`.
pub open spec fn seen(visited: Seq<Seq<Seq<usize>>>, layout: Seq<Seq<usize>>) -> bool {
    exists|a: int| 0 <= a < visited.len() && #[trigger] visited[a] == layout
}

/// `next` is reached from `prev` by one legal move.
pub open spec fn follows<G: Grid>(prev: G::V, next: G::V) -> bool {
    exists|m: G::M| G::legal(prev, m) && next == #[trigger] G::step(prev, m)
}

/// `path` is a walk from `start`: each state is reached from the one before
/// it by a legal move.
pub open spec fn is_walk<G: Grid>(start: G::V, path: Seq<G::V>) -> bool {
    forall|j: int| 0 <= j < path.len() ==> #[trigger] linked::<G>(start, path, j)
}

/// The state `path[j]` of a walk from `start` is reached by one legal move.
pub open spec fn linked<G: Grid>(start: G::V, path: Seq<G::V>, j: int) -> bool {
    follows::<G>(before::<G>(start, path, j), path[j])
}

/// The state from which the walk reaches `path[j]`.
pub open spec fn before<G: Grid>(start: G::V, path: Seq<G::V>, j: int) -> G::V {
    if j == 0 {
        start
    } else {
        path[j - 1]
    }
}

/// The state in which a walk from `start` ends.
pub open spec fn walk_end<G: Grid>(start: G::V, path: Seq<G::V>) -> G::V {
    before::<G>(start, path, path.len() as int)
}

/// The layouts of the states of a walk, in order.
pub open spec fn trail<G: Grid>(path: Seq<G::V>) -> Seq<Seq<Seq<usize>>> {
    Seq::new(path.len(), |a: int| G::tiles(path[a]))
}

/// No move can extend the walk: every legal move from `v` leads to a layout
/// that the walk has shown before.
pub open spec fn stuck<G: Grid>(v: G::V, visited: Seq<Seq<Seq<usize>>>) -> bool {
    forall|m: G::M| G::legal(v, m) ==> seen(visited, G::tiles(#[trigger] G::step(v, m)))
}

/// Every state of a walk over a dense board that starts from a valid board
/// is valid: its layout is a proper tiling and its blank is anchored.
pub proof fn lemma_walk_keeps_valid(start: GridView, path: Seq<GridView>, j: int)
    requires
        start.valid(),
        is_walk::<Grid2D>(start, path),
        0 <= j <= path.len(),
    ensures
        before::<Grid2D>(start, path, j).valid(),
    decreases j,
{
    if j > 0 {
        lemma_walk_keeps_valid(start, path, j - 1);
        assert(linked::<Grid2D>(start, path, j - 1));
        let prev = before::<Grid2D>(start, path, j - 1);
        let m = choose|m: crate::grid2d::Direction|
            Grid2D::legal(prev, m) && path[j - 1] == #[trigger] Grid2D::step(prev, m);
        lemma_step_keeps_valid(prev, m);
    }
}

/// Whether `layout` is among the snapshots in `visited`.
pub fn contains_layout(visited: &Vec<Vec<Vec<usize>>>, layout: &Vec<Vec<usize>>) -> (r: bool)
    ensures
        r == seen(layouts_of(*visited), rows_of(*layout)),
{
    let mut a: usize = 0;
    while a < visited.len()
        invariant
            a <= visited.len(),
            forall|k: int| 0 <= k < a ==> #[trigger] layouts_of(*visited)[k] != rows_of(*layout),
        decreases visited.len() - a,
    {
        if same_layout(&visited[a], layout) {
            assert(layouts_of(*visited)[a as int] == rows_of(*layout));
            return true;
        }
        a += 1;
    }
    false
}

/// One step of a scramble with the order of the candidates given: plays the
/// first candidate whose layout is not among `visited` and returns its index,
/// or plays nothing and returns `None` when every candidate leads to a layout
/// that was seen before.
pub fn advance<G: Grid>(
    grid: &mut G,
    candidates: &Vec<G::M>,
    visited: &Vec<Vec<Vec<usize>>>,
) -> (r: Option<usize>)
    requires
        G::wf(old(grid)@),
        G::anchored(old(grid)@),
        forall|j: int| 0 <= j < candidates@.len() ==> G::legal(old(grid)@, #[trigger] candidates@[j]),
    ensures
        G::wf(final(grid)@),
        G::anchored(final(grid)@),
        match r {
            Some(k) => {
                &&& k < candidates@.len()
                &&& final(grid)@ == G::step(old(grid)@, candidates@[k as int])
                &&& !seen(layouts_of(*visited), G::tiles(final(grid)@))
                &&& forall|j: int|
                    0 <= j < k ==> seen(
                        layouts_of(*visited),
                        G::tiles(#[trigger] G::step(old(grid)@, candidates@[j])),
                    )
            },
            None => {
                &&& final(grid)@ == old(grid)@
                &&& forall|j: int|
                    0 <= j < candidates@.len() ==> seen(
                        layouts_of(*visited),
                        G::tiles(#[trigger] G::step(old(grid)@, candidates@[j])),
                    )
            },
        },
{
    let mut j: usize = 0;
    while j < candidates.len()
        invariant
            j <= candidates@.len(),
            grid@ == old(grid)@,
            G::wf(grid@),
            G::anchored(grid@),
            forall|a: int|
                0 <= a < candidates@.len() ==> G::legal(old(grid)@, #[trigger] candidates@[a]),
            forall|a: int|
                0 <= a < j ==> seen(
                    layouts_of(*visited),
                    G::tiles(#[trigger] G::step(old(grid)@, candidates@[a])),
                ),
        decreases candidates.len() - j,
    {
        let current_move = &candidates[j];
        proof {
            G::lemma_round_trip(grid@, *current_move);
        }
        let _ = grid.do_move(current_move);
        let snapshot = grid.to_2dvec();
        if !contains_layout(visited, &snapshot) {
            return Some(j);
        }
        let _ = grid.undo_move(current_move);
        j += 1;
    }
    None
}

/// Builds a goal layout on a board and scrambles it.
pub struct Generator<G: Grid> {
    grid: G,
    puzzletype: PuzzleType,
}

/// Every goal layout is a proper tiling: it holds exactly one blank and, on
/// its other cells, a permutation of the tiles `1 .. width * height`.
pub proof fn lemma_template_tiling(kind: PuzzleType, width: int, height: int)
    requires
        0 <= width,
        0 <= height,
        width * height <= usize::MAX,
    ensures
        is_tiling(kind.layout(width, height), width, height),
{
    let rows = kind.layout(width, height);
    let n = width * height;
    assert(rectangular(rows, width, height));
    assert forall|r: int, c: int| is_cell(r, c, width, height) implies #[trigger] rows[r][c]
        == kind.value(width, height, r, c) by {
        lemma_row_major_bound(width, height, r, c);
        match kind {
            PuzzleType::Snail => {
                lemma_spiral_order(width, height);
                let order = choose|order: Seq<(int, int)>| is_spiral_order(width, height, order);
                assert(0 <= spiral_index(width, height, r, c) < n);
            },
            PuzzleType::Lines00 => {
                vstd::arithmetic::div_mod::lemma_mod_bound(row_major(width, r, c), n);
            },
            PuzzleType::LinesNN => {
                vstd::arithmetic::div_mod::lemma_mod_bound(row_major(width, r, c) + 1, n);
            },
        }
    }
    match kind {
        PuzzleType::Snail => lemma_snail_tiling(rows, width, height),
        PuzzleType::Lines00 => lemma_lines_tiling(rows, width, height, 0),
        PuzzleType::LinesNN => lemma_lines_tiling(rows, width, height, 1),
    }
}

impl<G: Grid> Generator<G> {
    /// The board as it stands.
    pub closed spec fn board(&self) -> G::V {
        self.grid@
    }

    /// The kind of goal layout that the generator builds.
    pub closed spec fn kind(&self) -> PuzzleType {
        self.puzzletype
    }

    pub fn new(grid: G, puzzletype: PuzzleType) -> (g: Generator<G>)
        ensures
            g.board() == grid@,
            g.kind() == puzzletype,
    {
        Generator { grid, puzzletype }
    }

    /// Loads the goal layout of the generator's kind, for the board's own
    /// sides, into the board.
    pub fn generate_solution(&mut self) -> (r: Result<(), ErrorKind>)
        requires
            G::extent(old(self).board()).0 <= i32::MAX,
            G::extent(old(self).board()).1 <= i32::MAX,
            G::extent(old(self).board()).0 * G::extent(old(self).board()).1 <= usize::MAX,
        ensures
            final(self).kind() == old(self).kind(),
            ({
                let (w, h) = G::extent(old(self).board());
                let goal = old(self).kind().layout(w as int, h as int);
                match G::load_error(goal) {
                    None => r is Ok && final(self).board() == G::loaded(old(self).board(), goal)
                        && G::wf(final(self).board()) && G::anchored(final(self).board())
                        && G::tiles(final(self).board()) == goal,
                    Some(e) => r == Err::<(), ErrorKind>(e) && final(self).board() == old(
                        self,
                    ).board(),
                }
            }),
    {
        let (width, height) = self.grid.dim();
        let grid_2d = self.puzzletype.get_template(width, height);
        proof {
            let goal = self.puzzletype.layout(width as int, height as int);
            assert(rows_of(grid_2d) =~~= goal);
            if G::load_error(goal) is None {
                G::lemma_loaded(self.grid@, goal);
            }
        }
        self.grid.from_2dvec(grid_2d)
    }

    /// Scrambles the board by a random walk of at most `iterations` legal
    /// moves, none of which leads to a layout that the walk has shown
    /// before, and returns the number of moves made. The walk stops early
    /// only when it is stuck: when every legal move leads to such a layout.
    pub fn shuffle(&mut self, iterations: usize) -> (steps: usize)
        requires
            G::wf(old(self).board()),
            G::anchored(old(self).board()),
        ensures
            final(self).kind() == old(self).kind(),
            G::wf(final(self).board()),
            G::anchored(final(self).board()),
            steps <= iterations,
            iterations == 0 ==> final(self).board() == old(self).board(),
            exists|path: Seq<G::V>|
                {
                    &&& path.len() == steps
                    &&& is_walk::<G>(old(self).board(), path)
                    &&& #[trigger] trail::<G>(path).no_duplicates()
                    &&& final(self).board() == walk_end::<G>(old(self).board(), path)
                    &&& steps < iterations ==> stuck::<G>(final(self).board(), trail::<G>(path))
                },
    {
        let ghost start = self.grid@;
        let ghost mut path: Seq<G::V> = Seq::empty();
        let mut visited_states: Vec<Vec<Vec<usize>>> = Vec::new();
        let mut i: usize = 0;
        let mut halted = false;
        proof {
            assert(layouts_of(visited_states) =~= trail::<G>(path));
        }
        while i < iterations && !halted
            invariant
                i <= iterations,
                self.kind() == old(self).kind(),
                start == old(self).board(),
                G::wf(self.grid@),
                G::anchored(self.grid@),
                path.len() == i,
                is_walk::<G>(start, path),
                trail::<G>(path).no_duplicates(),
                self.grid@ == walk_end::<G>(start, path),
                layouts_of(visited_states) == trail::<G>(path),
                halted ==> i < iterations && stuck::<G>(self.grid@, trail::<G>(path)),
            decreases iterations - i, (if halted { 0int } else { 1int }),
        {
            let ghost here = self.grid@;
            let mut possible_moves = self.grid.possible_moves();
            let ghost listed = possible_moves@;
            shuffle_moves(&mut possible_moves, &mut thread_rng());
            proof {
                assert forall|j: int| 0 <= j < possible_moves@.len() implies G::legal(
                    here,
                    #[trigger] possible_moves@[j],
                ) by {
                    assert(possible_moves@.contains(possible_moves@[j]));
                    vstd::seq_lib::to_multiset_contains(possible_moves@, possible_moves@[j]);
                    vstd::seq_lib::to_multiset_contains(listed, possible_moves@[j]);
                    assert(listed.contains(possible_moves@[j]));
                }
            }
            match advance(&mut self.grid, &possible_moves, &visited_states) {
                Some(k) => {
                    let snapshot = self.grid.to_2dvec();
                    let ghost earlier = layouts_of(visited_states);
                    visited_states.push(snapshot);
                    proof {
                        let grown = path.push(self.grid@);
                        assert(before::<G>(start, grown, i as int) == here);
                        assert forall|j: int| 0 <= j < grown.len() implies #[trigger] linked::<G>(
                            start,
                            grown,
                            j,
                        ) by {
                            if j < i {
                                assert(linked::<G>(start, path, j));
                                assert(before::<G>(start, grown, j) == before::<G>(start, path, j));
                            } else {
                                let m = possible_moves@[k as int];
                                assert(grown[j] == G::step(before::<G>(start, grown, j), m));
                            }
                        }
                        assert(is_walk::<G>(start, grown));
                        assert(trail::<G>(grown) =~= trail::<G>(path).push(G::tiles(self.grid@)));
                        assert(layouts_of(visited_states) =~= earlier.push(rows_of(snapshot)));
                        assert(!seen(trail::<G>(path), G::tiles(self.grid@)));
                        assert(trail::<G>(grown).no_duplicates()) by {
                            let t = trail::<G>(grown);
                            assert forall|a: int, b: int|
                                0 <= a < t.len() && 0 <= b < t.len() && a != b implies t[a]
                                != t[b] by {
                                if a < i && b < i {
                                    assert(trail::<G>(path)[a] != trail::<G>(path)[b]);
                                } else if a < i {
                                    assert(trail::<G>(path)[a] == t[a]);
                                } else {
                                    assert(trail::<G>(path)[b] == t[b]);
                                }
                            }
                        }
                        path = grown;
                    }
                    i += 1;
                },
                None => {
                    proof {
                        assert forall|m: G::M| G::legal(here, m) implies seen(
                            trail::<G>(path),
                            G::tiles(#[trigger] G::step(here, m)),
                        ) by {
                            assert(listed.contains(m));
                            vstd::seq_lib::to_multiset_contains(possible_moves@, m);
                            vstd::seq_lib::to_multiset_contains(listed, m);
                            assert(possible_moves@.contains(m));
                            let j = choose|j: int|
                                0 <= j < possible_moves@.len() && possible_moves@[j] == m;
                            assert(G::step(here, possible_moves@[j]) == G::step(here, m));
                        }
                    }
                    halted = true;
                },
            }
        }
        i
    }

    /// Loads the goal layout and scrambles it by at most `iterations` moves.
    /// Returns the number of moves made, or the error that kept the goal
    /// layout from loading; the board is then as it was.
    pub fn generate_random(&mut self, iterations: usize) -> (r: Result<usize, ErrorKind>)
        requires
            G::extent(old(self).board()).0 <= i32::MAX,
            G::extent(old(self).board()).1 <= i32::MAX,
            G::extent(old(self).board()).0 * G::extent(old(self).board()).1 <= usize::MAX,
        ensures
            final(self).kind() == old(self).kind(),
            ({
                let (w, h) = G::extent(old(self).board());
                let goal = old(self).kind().layout(w as int, h as int);
                let solved = G::loaded(old(self).board(), goal);
                match G::load_error(goal) {
                    None => {
                        &&& r is Ok
                        &&& r->Ok_0 <= iterations
                        &&& G::wf(final(self).board())
                        &&& G::anchored(final(self).board())
                        &&& exists|path: Seq<G::V>|
                            {
                                &&& path.len() == r->Ok_0
                                &&& is_walk::<G>(solved, path)
                                &&& #[trigger] trail::<G>(path).no_duplicates()
                                &&& final(self).board() == walk_end::<G>(solved, path)
                                &&& r->Ok_0 < iterations ==> stuck::<G>(
                                    final(self).board(),
                                    trail::<G>(path),
                                )
                            }
                    },
                    Some(e) => r == Err::<usize, ErrorKind>(e) && final(self).board() == old(
                        self,
                    ).board(),
                }
            }),
    {
        match self.generate_solution() {
            Ok(()) => Ok(self.shuffle(iterations)),
            Err(e) => Err(e),
        }
    }

    /// An independent copy of the board as it stands.
    pub fn get_grid(&self) -> (g: G)
        ensures
            g@ == self.board(),
    {
        self.grid.duplicate()
    }
}

} // verus!
