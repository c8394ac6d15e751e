//! A board kept as one flat run of cells, with the goal layout it is played
//! towards, its text form and the moves of a game on the command line.

use crate::generator::snail_template;
use crate::grid_traits::rows_of;
use crate::layout::copy_row;
use crate::layout::is_cell;
use crate::layout::is_tiling;
use crate::layout::lemma_all_occur;
use crate::layout::lemma_row_major_bound;
use crate::layout::lemma_row_major_cell;
use crate::layout::lemma_row_major_unique;
use crate::layout::occurs;
use crate::layout::rectangular;
use crate::layout::row_major;
use crate::parse::Number;
use crate::parse::Reading;
use crate::parse::bytes_of;
use crate::parse::clean_line;
use crate::parse::lemma_lines_error_sticks;
use crate::parse::lemma_read_lines_tidy;
use crate::parse::lines;
use crate::parse::parse_number;
use crate::parse::parse_row;
use crate::parse::read_line;
use crate::parse::read_lines;
use crate::parse::split_lines;
use crate::parse::split_words;
use crate::random::shuffle_moves;
use crate::spiral::snail_value;
use crate::status::ErrorKind;
use crate::text::count_digits;
use crate::text::decimal;
use crate::text::digit_count;
use crate::text::flat_text;
use crate::text::push_decimal;
use crate::text::push_flat;
use crate::text::same_text;
use rand::thread_rng;
use vstd::prelude::*;
use vstd::string::StringExecFns;
use vstd::string::StringSliceAdditionalSpecFns;

verus! {

/// The cells hold the numbers `0 .. cells.len()`, each exactly once.
pub open spec fn is_permutation(cells: Seq<usize>) -> bool {
    &&& forall|i: int| 0 <= i < cells.len() ==> #[trigger] cells[i] < cells.len()
    &&& forall|i: int, j: int|
        0 <= i < cells.len() && 0 <= j < cells.len() && #[trigger] cells[i] == #[trigger] cells[j]
            ==> i == j
    &&& forall|value: int| 0 <= value < cells.len() ==> #[trigger] holds(cells, value)
}

/// Some cell holds `value`.
pub open spec fn holds(cells: Seq<usize>, value: int) -> bool {
    exists|i: int| 0 <= i < cells.len() && #[trigger] cells[i] == value
}

/// The spiral goal layout of a `width` by `height` board, row after row.
pub open spec fn spiral_cells(width: int, height: int) -> Seq<usize> {
    Seq::new(
        (width * height) as nat,
        |i: int| snail_value(width, height, i / width, i % width) as usize,
    )
}

/// The board of `width` by `height` cells that shows its goal, the spiral.
pub open spec fn spiral_board(width: usize, height: usize) -> BoardView {
    BoardView {
        width,
        height,
        cells: spiral_cells(width as int, height as int),
        solution: spiral_cells(width as int, height as int),
        blank: blank_index(spiral_cells(width as int, height as int)),
    }
}

/// The abstract state of a flat board.
#[verifier::ext_equal]
pub struct BoardView {
    pub width: usize,
    pub height: usize,
    /// The tile of every cell, row after row.
    pub cells: Seq<usize>,
    /// The layout that the board is played towards.
    pub solution: Seq<usize>,
    /// The cached index of the blank.
    pub blank: usize,
}

impl BoardView {
    /// The board has at least one cell, its sides fit a coordinate and the
    /// number of its cells fits an index, both layouts have one entry for
    /// each cell, and the cached blank index names a cell.
    pub open spec fn wf(self) -> bool {
        &&& 1 <= self.width <= i32::MAX
        &&& 1 <= self.height <= i32::MAX
        &&& self.width * self.height <= usize::MAX
        &&& self.cells.len() == self.width * self.height
        &&& self.solution.len() == self.width * self.height
        &&& self.blank < self.cells.len()
    }

    /// The cell at the cached blank index holds the blank.
    pub open spec fn anchored(self) -> bool {
        self.cells[self.blank as int] == 0
    }

    /// `(x, y)` = (column, row) names a cell.
    pub open spec fn xy_in_bounds(self, x: int, y: int) -> bool {
        0 <= x < self.width && 0 <= y < self.height
    }

    /// The indices of the cells next to the blank: above, below, left and
    /// right of it, in that order, as far as they exist.
    pub open spec fn neighbours(self) -> Seq<usize> {
        let up = if self.blank >= self.width {
            seq![(self.blank - self.width) as usize]
        } else {
            seq![]
        };
        let down = if self.blank < self.width * (self.height - 1) {
            seq![(self.blank + self.width) as usize]
        } else {
            seq![]
        };
        let left = if self.blank % self.width > 0 {
            seq![(self.blank - 1) as usize]
        } else {
            seq![]
        };
        let right = if self.blank % self.width < self.width - 1 {
            seq![(self.blank + 1) as usize]
        } else {
            seq![]
        };
        up + down + left + right
    }

    /// The state after the tile at `target` and the blank changed places.
    pub open spec fn slid(self, target: usize) -> BoardView {
        BoardView {
            cells: self.cells.update(self.blank as int, self.cells[target as int]).update(
                target as int,
                self.cells[self.blank as int],
            ),
            blank: target,
            ..self
        }
    }

    /// The cells show the goal layout.
    pub open spec fn solved(self) -> bool {
        self.cells == self.solution
    }

    /// The cell that the blank changes places with when the player types
    /// `key`: `up` or `u`, `down` or `d`, `left` or `l`, `right` or `r` name
    /// the cell above, below, left or right of the blank. Nothing when the
    /// key is not one of these or the board ends in that direction.
    pub open spec fn keyed(self, key: Seq<char>) -> Option<usize> {
        if key == "up"@ || key == "u"@ {
            if self.blank >= self.width {
                Some((self.blank - self.width) as usize)
            } else {
                None
            }
        } else if key == "down"@ || key == "d"@ {
            if self.blank < self.width * (self.height - 1) {
                Some((self.blank + self.width) as usize)
            } else {
                None
            }
        } else if key == "left"@ || key == "l"@ {
            if self.blank % self.width > 0 {
                Some((self.blank - 1) as usize)
            } else {
                None
            }
        } else if key == "right"@ || key == "r"@ {
            if self.blank % self.width < self.width - 1 {
                Some((self.blank + 1) as usize)
            } else {
                None
            }
        } else {
            None
        }
    }

    /// What the game does with a line that the player typed.
    pub open spec fn reaction(self, input: Seq<char>) -> PlayAction {
        if input == "exit"@ {
            PlayAction::Exit
        } else if input == "help"@ {
            PlayAction::Help
        } else if input == "solution"@ {
            PlayAction::Solution
        } else if self.keyed(input) is Some {
            PlayAction::Moved
        } else {
            PlayAction::Ignored
        }
    }

    /// The state after the game has dealt with a line that the player typed:
    /// only a move changes the board.
    pub open spec fn played(self, input: Seq<char>) -> BoardView {
        if self.reaction(input) == PlayAction::Moved {
            self.slid(self.keyed(input)->Some_0)
        } else {
            self
        }
    }

    /// The width of the field in which a cell is written: the number of
    /// digits of the largest tile.
    pub open spec fn field(self) -> nat {
        digit_count((self.width * self.height - 1) as nat)
    }

    /// The cells written out in lines.
    pub open spec fn text(self) -> Seq<char> {
        flat_text(self.cells, self.width as int, self.field())
    }

    /// The goal layout written out under its heading.
    pub open spec fn solution_text(self) -> Seq<char> {
        "Expected Solution:\n"@ + flat_text(self.solution, self.width as int, self.field())
    }

    /// The board as a file: a comment line, the width, and the cells.
    pub open spec fn file_text(self) -> Seq<char> {
        "# N-puzzle board\n"@ + decimal(self.width as nat) + seq!['\n'] + self.text()
    }
}

/// What the game does in answer to a line that the player typed.
#[derive(Debug, Clone, Copy, PartialEq, Eq, Structural)]
pub enum PlayAction {
    /// Leave the game.
    Exit,
    /// Show the keys, then the board.
    Help,
    /// Show the goal layout.
    Solution,
    /// A tile has moved: show the board.
    Moved,
    /// Nothing to do.
    Ignored,
}

/// `i` is the first index at which `cells` holds the blank.
pub open spec fn is_blank_index(cells: Seq<usize>, i: int) -> bool {
    &&& 0 <= i < cells.len()
    &&& cells[i] == 0
    &&& forall|j: int| 0 <= j < i ==> #[trigger] cells[j] != 0
}

/// The first index at which `cells` holds the blank.
pub open spec fn blank_index(cells: Seq<usize>) -> usize {
    (choose|i: int| is_blank_index(cells, i)) as usize
}

/// The blank has at most one first index.
pub proof fn lemma_blank_index(cells: Seq<usize>, i: int)
    requires
        is_blank_index(cells, i),
        i <= usize::MAX,
    ensures
        blank_index(cells) == i,
{
    let c = choose|k: int| is_blank_index(cells, k);
    assert(is_blank_index(cells, c));
    if c < i {
        assert(cells[c] != 0);
    }
    if i < c {
        assert(cells[i] != 0);
    }
}

/// The board that a text describes, or why it describes none.
///
/// A `#` starts a comment that runs to the end of its line. The first line
/// that holds anything holds one number, the side of the board. The lines
/// after it hold the rows: as many numbers as the side is long, each below
/// the number of cells and none twice. The goal of the board is the spiral.
pub open spec fn parsed(text: Seq<u8>) -> Result<BoardView, ErrorKind> {
    match read_lines(lines(text)) {
        Err(e) => Err(e),
        Ok(st) => if !st.data.contains(0) {
            Err(ErrorKind::InvalidNoZero)
        } else if st.width > i32::MAX || st.width * st.width > usize::MAX || st.data.len()
            != st.width * st.width {
            Err(ErrorKind::InvalidInput)
        } else {
            Ok(
                BoardView {
                    width: st.width,
                    height: st.width,
                    cells: st.data,
                    solution: spiral_cells(st.width as int, st.width as int),
                    blank: blank_index(st.data),
                },
            )
        },
    }
}

/// On an anchored board whose cells are a permutation, the cached index of
/// the blank is the first index that holds it.
pub proof fn lemma_anchored_blank(v: BoardView)
    requires
        v.wf(),
        v.anchored(),
        is_permutation(v.cells),
    ensures
        v.blank == blank_index(v.cells),
{
    assert(is_blank_index(v.cells, v.blank as int)) by {
        assert forall|j: int| 0 <= j < v.blank implies #[trigger] v.cells[j] != 0 by {
            if v.cells[j] == 0 {
                assert(v.cells[j] == v.cells[v.blank as int]);
            }
        }
    }
    lemma_blank_index(v.cells, v.blank as int);
}

/// A text that describes a board describes a well-formed, anchored board
/// whose cells are a permutation and whose goal is the spiral of its side.
pub proof fn lemma_parsed_board(text: Seq<u8>)
    requires
        parsed(text) is Ok,
    ensures
        parsed(text)->Ok_0.wf(),
        parsed(text)->Ok_0.anchored(),
        is_permutation(parsed(text)->Ok_0.cells),
        parsed(text)->Ok_0.height == parsed(text)->Ok_0.width,
        parsed(text)->Ok_0.solution == spiral_cells(
            parsed(text)->Ok_0.width as int,
            parsed(text)->Ok_0.width as int,
        ),
{
    let st = read_lines(lines(text))->Ok_0;
    let v = parsed(text)->Ok_0;
    lemma_read_lines_tidy(lines(text));
    let z = choose|i: int| 0 <= i < st.data.len() && st.data[i] == 0;
    lemma_blank_index_exists(st.data, z);
    let b = choose|i: int| is_blank_index(st.data, i);
    assert(is_blank_index(st.data, b));
    assert(st.width >= 1) by {
        if st.width == 0 {
            assert(st.data.len() == 0);
        }
    }
    assert forall|value: int| 0 <= value < v.cells.len() implies #[trigger] holds(
        v.cells,
        value,
    ) by {
        lemma_all_occur(st.data, value);
    }
}

/// Cells that hold the blank hold it at a first index.
pub proof fn lemma_blank_index_exists(cells: Seq<usize>, i: int)
    requires
        0 <= i < cells.len(),
        cells[i] == 0,
    ensures
        exists|k: int| is_blank_index(cells, k),
    decreases i,
{
    if exists|j: int| 0 <= j < i && cells[j] == 0 {
        let j = choose|j: int| 0 <= j < i && cells[j] == 0;
        lemma_blank_index_exists(cells, j);
    } else {
        assert(is_blank_index(cells, i));
    }
}

/// The layouts held by a vector of flat snapshots.
pub open spec fn cells_of(visited: Vec<Vec<usize>>) -> Seq<Seq<usize>> {
    Seq::new(visited@.len(), |a: int| visited@[a]@)
}

/// `next` is reached from `prev` by sliding one tile into the blank.
pub open spec fn slides_to(prev: BoardView, next: BoardView) -> bool {
    exists|t: usize| prev.neighbours().contains(t) && next == #[trigger] prev.slid(t)
}

/// The state from which a walk reaches `path[j]`.
pub open spec fn prior(start: BoardView, path: Seq<BoardView>, j: int) -> BoardView {
    if j == 0 {
        start
    } else {
        path[j - 1]
    }
}

/// `path` is a walk from `start`: each state is reached from the one before
/// it by sliding one tile.
pub open spec fn is_slide_walk(start: BoardView, path: Seq<BoardView>) -> bool {
    forall|j: int| 0 <= j < path.len() ==> #[trigger] slide_at(start, path, j)
}

/// The state `path[j]` of a walk from `start` is reached by sliding one tile.
pub open spec fn slide_at(start: BoardView, path: Seq<BoardView>, j: int) -> bool {
    slides_to(prior(start, path, j), path[j])
}

/// The layouts of the states of a walk, in order.
pub open spec fn shown(path: Seq<BoardView>) -> Seq<Seq<usize>> {
    Seq::new(path.len(), |a: int| path[a].cells)
}

/// No slide can extend the walk: each leads to a layout in `visited`.
pub open spec fn cornered(v: BoardView, visited: Seq<Seq<usize>>) -> bool {
    forall|t: usize| v.neighbours().contains(t) ==> visited.contains(#[trigger] v.slid(t).cells)
}

/// A walk that slides on to a layout it has not shown is a walk that shows
/// no layout twice.
pub proof fn lemma_walk_grows(start: BoardView, path: Seq<BoardView>, next: BoardView, t: usize)
    requires
        is_slide_walk(start, path),
        shown(path).no_duplicates(),
        prior(start, path, path.len() as int).neighbours().contains(t),
        next == prior(start, path, path.len() as int).slid(t),
        !shown(path).contains(next.cells),
    ensures
        is_slide_walk(start, path.push(next)),
        shown(path.push(next)) == shown(path).push(next.cells),
        shown(path.push(next)).no_duplicates(),
        prior(start, path.push(next), path.len() as int + 1) == next,
{
    let grown = path.push(next);
    let here = prior(start, path, path.len() as int);
    let i = path.len() as int;
    assert forall|j: int| 0 <= j < grown.len() implies #[trigger] slide_at(start, grown, j) by {
        if j < i {
            assert(slide_at(start, path, j));
            assert(prior(start, grown, j) == prior(start, path, j));
        } else {
            assert(prior(start, grown, j) == here);
            assert(grown[j] == here.slid(t));
        }
    }
    assert(shown(grown) =~= shown(path).push(next.cells));
    let s = shown(grown);
    assert forall|a: int, b: int| 0 <= a < s.len() && 0 <= b < s.len() && a != b implies s[a]
        != s[b] by {
        if a < i && b < i {
            assert(shown(path)[a] != shown(path)[b]);
        } else if a < i {
            assert(shown(path)[a] == s[a]);
        } else {
            assert(shown(path)[b] == s[b]);
        }
    }
}

/// Sliding a tile into the blank keeps a permutation a permutation and the
/// blank anchored.
pub proof fn lemma_slide_keeps_permutation(v: BoardView, t: usize)
    requires
        v.wf(),
        v.anchored(),
        is_permutation(v.cells),
        t < v.cells.len(),
    ensures
        v.slid(t).wf(),
        v.slid(t).anchored(),
        is_permutation(v.slid(t).cells),
        v.slid(t).slid(v.blank) == v,
{
    let after = v.slid(t).cells;
    let b = v.blank as int;
    let source = |i: int| -> int
        {
            if i == b {
                t as int
            } else if i == t {
                b
            } else {
                i
            }
        };
    assert forall|i: int| 0 <= i < after.len() implies #[trigger] after[i] == v.cells[source(i)] by {}
    assert forall|i: int| 0 <= i < after.len() implies #[trigger] after[i] < after.len() by {
        assert(v.cells[source(i)] < v.cells.len());
    }
    assert forall|i: int, j: int|
        0 <= i < after.len() && 0 <= j < after.len() && #[trigger] after[i]
            == #[trigger] after[j] implies i == j by {
        assert(v.cells[source(i)] == v.cells[source(j)]);
    }
    assert forall|value: int| 0 <= value < after.len() implies #[trigger] holds(after, value) by {
        assert(holds(v.cells, value));
        let i = choose|i: int| 0 <= i < v.cells.len() && #[trigger] v.cells[i] == value;
        assert(after[source(i)] == value);
    }
    assert(v.slid(t).slid(v.blank) =~~= v);
}

/// A walk changes neither the sides nor the goal of a board.
pub proof fn lemma_walk_keeps_goal(start: BoardView, path: Seq<BoardView>, j: int)
    requires
        is_slide_walk(start, path),
        0 <= j <= path.len(),
    ensures
        prior(start, path, j).width == start.width,
        prior(start, path, j).height == start.height,
        prior(start, path, j).solution == start.solution,
    decreases j,
{
    if j > 0 {
        lemma_walk_keeps_goal(start, path, j - 1);
        assert(slide_at(start, path, j - 1));
    }
}

/// Every state of a walk that starts from a well-formed, anchored
/// permutation is one.
pub proof fn lemma_walk_keeps_permutation(start: BoardView, path: Seq<BoardView>, j: int)
    requires
        start.wf(),
        start.anchored(),
        is_permutation(start.cells),
        is_slide_walk(start, path),
        0 <= j <= path.len(),
    ensures
        prior(start, path, j).wf(),
        prior(start, path, j).anchored(),
        is_permutation(prior(start, path, j).cells),
    decreases j,
{
    if j > 0 {
        lemma_walk_keeps_permutation(start, path, j - 1);
        assert(slide_at(start, path, j - 1));
        let prev = prior(start, path, j - 1);
        let t = choose|t: usize| prev.neighbours().contains(t) && path[j - 1] == #[trigger] prev.slid(t);
        lemma_neighbours(prev);
        lemma_slide_keeps_permutation(prev, t);
    }
}

/// Whether `cells` is among the snapshots in `visited`.
pub fn contains_cells(visited: &Vec<Vec<usize>>, cells: &Vec<usize>) -> (r: bool)
    ensures
        r == cells_of(*visited).contains(cells@),
{
    let mut a: usize = 0;
    while a < visited.len()
        invariant
            a <= visited.len(),
            forall|k: int| 0 <= k < a ==> #[trigger] cells_of(*visited)[k] != cells@,
        decreases visited.len() - a,
    {
        if same_cells(&visited[a], cells) {
            assert(cells_of(*visited)[a as int] == cells@);
            return true;
        }
        a += 1;
    }
    false
}

/// Whether two flat layouts hold the same tiles in the same order.
pub fn same_cells(a: &Vec<usize>, b: &Vec<usize>) -> (r: bool)
    ensures
        r == (a@ == b@),
{
    if a.len() != b.len() {
        return false;
    }
    let mut i: usize = 0;
    while i < a.len()
        invariant
            a.len() == b.len(),
            i <= a.len(),
            forall|k: int| 0 <= k < i ==> #[trigger] a@[k] == b@[k],
        decreases a.len() - i,
    {
        if a[i] != b[i] {
            return false;
        }
        i += 1;
    }
    assert(a@ =~= b@);
    true
}

/// A flat board, its goal layout and the cached index of its blank.
#[derive(Debug, Hash)]
pub struct Board {
    width: usize,
    height: usize,
    data: Vec<usize>,
    solution: Vec<usize>,
    zero_position: usize,
}

impl View for Board {
    type V = BoardView;

    closed spec fn view(&self) -> BoardView {
        BoardView {
            width: self.width,
            height: self.height,
            cells: self.data@,
            solution: self.solution@,
            blank: self.zero_position,
        }
    }
}

/// The spiral layout, read row after row, is a permutation.
pub proof fn lemma_spiral_cells(width: int, height: int, rows: Seq<Seq<usize>>)
    requires
        1 <= width,
        1 <= height,
        is_tiling(rows, width, height),
        forall|r: int, c: int|
            is_cell(r, c, width, height) ==> #[trigger] rows[r][c] == snail_value(
                width,
                height,
                r,
                c,
            ),
    ensures
        is_permutation(spiral_cells(width, height)),
        forall|r: int, c: int|
            is_cell(r, c, width, height) ==> #[trigger] spiral_cells(width, height)[row_major(
                width,
                r,
                c,
            )] == rows[r][c],
{
    let cells = spiral_cells(width, height);
    let n = width * height;
    assert forall|i: int| 0 <= i < n implies is_cell(i / width, i % width, width, height)
        && #[trigger] cells[i] == rows[i / width][i % width] by {
        lemma_row_major_cell(width, height, i);
    }
    assert forall|r: int, c: int| is_cell(r, c, width, height) implies #[trigger] cells[row_major(
        width,
        r,
        c,
    )] == rows[r][c] by {
        lemma_row_major_bound(width, height, r, c);
        let i = row_major(width, r, c);
        lemma_row_major_cell(width, height, i);
        lemma_row_major_unique(width, r, c, i / width, i % width);
    }
    assert forall|i: int| 0 <= i < cells.len() implies #[trigger] cells[i] < cells.len() by {
        lemma_row_major_cell(width, height, i);
        assert(rows[i / width][i % width] < n);
    }
    assert forall|i: int, j: int|
        0 <= i < cells.len() && 0 <= j < cells.len() && #[trigger] cells[i]
            == #[trigger] cells[j] implies i == j by {
        lemma_row_major_cell(width, height, i);
        lemma_row_major_cell(width, height, j);
        assert(rows[i / width][i % width] == rows[j / width][j % width]);
    }
    assert forall|value: int| 0 <= value < cells.len() implies #[trigger] holds(cells, value) by {
        assert(occurs(rows, value));
        let (r, c) = choose|r: int, c: int|
            0 <= r < rows.len() && 0 <= c < rows[r].len() && #[trigger] rows[r][c] == value;
        assert(is_cell(r, c, width, height));
        lemma_row_major_bound(width, height, r, c);
        assert(cells[row_major(width, r, c)] == value);
    }
}

/// The cells next to the blank are cells of the board, all different, and
/// none is the blank's own.
pub proof fn lemma_neighbours(v: BoardView)
    requires
        v.wf(),
    ensures
        v.width * (v.height - 1) + v.width == v.width * v.height,
        0 <= v.width * (v.height - 1),
        v.blank % v.width > 0 ==> v.blank >= 1,
        v.blank % v.width < v.width - 1 ==> v.blank + 1 < v.cells.len(),
        forall|j: int|
            0 <= j < v.neighbours().len() ==> #[trigger] v.neighbours()[j] < v.cells.len()
                && v.neighbours()[j] != v.blank,
        v.neighbours().no_duplicates(),
{
    let w = v.width as int;
    let h = v.height as int;
    let b = v.blank as int;
    assert(w * (h - 1) + w == w * h && 0 <= w * (h - 1)) by (nonlinear_arith)
        requires
            1 <= w,
            1 <= h,
    ;
    vstd::arithmetic::div_mod::lemma_fundamental_div_mod(b, w);
    vstd::arithmetic::div_mod::lemma_mod_bound(b, w);
    let q = b / w;
    assert(q < h && 0 <= q) by (nonlinear_arith)
        requires
            b == w * q + b % w,
            0 <= b % w < w,
            0 <= b < w * h,
            1 <= w,
    ;
    assert(w * (q + 1) <= w * h) by (nonlinear_arith)
        requires
            q + 1 <= h,
            1 <= w,
    ;
    assert(w * (q + 1) == w * q + w) by (nonlinear_arith);
    if b == 0 {
        vstd::arithmetic::div_mod::lemma_small_mod(0, w as nat);
    }
    let up: Seq<usize> = if v.blank >= v.width {
        seq![(v.blank - v.width) as usize]
    } else {
        seq![]
    };
    let down: Seq<usize> = if v.blank < v.width * (v.height - 1) {
        seq![(v.blank + v.width) as usize]
    } else {
        seq![]
    };
    let left: Seq<usize> = if v.blank % v.width > 0 {
        seq![(v.blank - 1) as usize]
    } else {
        seq![]
    };
    let right: Seq<usize> = if v.blank % v.width < v.width - 1 {
        seq![(v.blank + 1) as usize]
    } else {
        seq![]
    };
    let all = up + down + left + right;
    assert(all == v.neighbours());
    if v.blank % v.width > 0 || v.blank % v.width < v.width - 1 {
        assert(w > 1);
    }
    assert forall|j: int| 0 <= j < all.len() implies #[trigger] all[j] < v.cells.len() && all[j]
        != v.blank by {
        if j < up.len() {
            assert(all[j] == up[j]);
        } else if j < up.len() + down.len() {
            assert(all[j] == down[j - up.len()]);
        } else if j < up.len() + down.len() + left.len() {
            assert(all[j] == left[j - up.len() - down.len()]);
        } else {
            assert(all[j] == right[j - up.len() - down.len() - left.len()]);
        }
    }
    assert forall|i: int, j: int| 0 <= i < all.len() && 0 <= j < all.len() && i != j implies all[i]
        != all[j] by {
        let at = |j: int| -> int
            {
                if j < up.len() {
                    b - w
                } else if j < up.len() + down.len() {
                    b + w
                } else if j < up.len() + down.len() + left.len() {
                    b - 1
                } else {
                    b + 1
                }
            };
        assert(all[i] == at(i)) by {
            if i < up.len() {
                assert(all[i] == up[i]);
            } else if i < up.len() + down.len() {
                assert(all[i] == down[i - up.len()]);
            } else if i < up.len() + down.len() + left.len() {
                assert(all[i] == left[i - up.len() - down.len()]);
            } else {
                assert(all[i] == right[i - up.len() - down.len() - left.len()]);
            }
        }
        assert(all[j] == at(j)) by {
            if j < up.len() {
                assert(all[j] == up[j]);
            } else if j < up.len() + down.len() {
                assert(all[j] == down[j - up.len()]);
            } else if j < up.len() + down.len() + left.len() {
                assert(all[j] == left[j - up.len() - down.len()]);
            } else {
                assert(all[j] == right[j - up.len() - down.len() - left.len()]);
            }
        }
    }
}

/// A key moves the blank only to a cell next to it.
pub proof fn lemma_keyed(v: BoardView, key: Seq<char>)
    requires
        v.wf(),
    ensures
        v.keyed(key) is Some ==> v.neighbours().contains(v.keyed(key)->Some_0),
{
    if v.keyed(key) is Some {
        let t = v.keyed(key)->Some_0;
        let up: Seq<usize> = if v.blank >= v.width {
            seq![(v.blank - v.width) as usize]
        } else {
            seq![]
        };
        let down: Seq<usize> = if v.blank < v.width * (v.height - 1) {
            seq![(v.blank + v.width) as usize]
        } else {
            seq![]
        };
        let left: Seq<usize> = if v.blank % v.width > 0 {
            seq![(v.blank - 1) as usize]
        } else {
            seq![]
        };
        let right: Seq<usize> = if v.blank % v.width < v.width - 1 {
            seq![(v.blank + 1) as usize]
        } else {
            seq![]
        };
        let all = up + down + left + right;
        assert(all == v.neighbours());
        if key == "up"@ || key == "u"@ {
            assert(all[0] == t);
        } else if key == "down"@ || key == "d"@ {
            assert(all[up.len() as int] == t);
        } else if key == "left"@ || key == "l"@ {
            assert(all[(up.len() + down.len()) as int] == t);
        } else {
            assert(all[(up.len() + down.len() + left.len()) as int] == t);
        }
    }
}

impl Board {
    /// The board of `width` by `height` cells in its goal layout, the
    /// spiral.
    pub fn new(width: usize, height: usize) -> (b: Board)
        requires
            1 <= width <= i32::MAX,
            1 <= height <= i32::MAX,
            width * height <= usize::MAX,
        ensures
            b@ == spiral_board(width, height),
            b@.wf(),
            b@.anchored(),
            is_permutation(b@.cells),
    {
        let mut new_board = Board {
            width: width,
            height: height,
            data: vec![0; width * height],
            solution: vec![0; width * height],
            zero_position: 0,
        };
        assert(0 < width * height) by (nonlinear_arith)
            requires
                1 <= width,
                1 <= height,
        ;
        new_board.fill_board();
        new_board.solution = copy_row(&new_board.data);
        proof {
            lemma_anchored_blank(new_board@);
        }
        new_board
    }

    /// Lays the spiral out on the board and caches where its blank is.
    fn fill_board(&mut self)
        requires
            old(self)@.wf(),
        ensures
            final(self)@.wf(),
            final(self)@.anchored(),
            is_permutation(final(self)@.cells),
            final(self)@ == (BoardView {
                cells: spiral_cells(old(self)@.width as int, old(self)@.height as int),
                blank: final(self)@.blank,
                ..old(self)@
            }),
    {
        let template = snail_template(self.width, self.height);
        let ghost w = self.width as int;
        let ghost h = self.height as int;
        let ghost goal = spiral_cells(w, h);
        proof {
            lemma_spiral_cells(w, h, rows_of(template));
        }
        let mut row: usize = 0;
        while row < self.height
            invariant
                self@.wf(),
                w == self@.width,
                h == self@.height,
                goal == spiral_cells(w, h),
                is_permutation(goal),
                row <= self@.height,
                rectangular(rows_of(template), w, h),
                forall|r: int, c: int|
                    is_cell(r, c, w, h) ==> #[trigger] goal[row_major(w, r, c)] == rows_of(
                        template,
                    )[r][c],
                self@ == (BoardView { cells: self@.cells, blank: self@.blank, ..old(self)@ }),
                forall|i: int| 0 <= i < row * w ==> #[trigger] self@.cells[i] == goal[i],
                forall|i: int| 0 <= i < row * w && #[trigger] goal[i] == 0 ==> self@.blank == i,
            decreases self@.height - row,
        {
            let mut col: usize = 0;
            while col < self.width
                invariant
                    self@.wf(),
                    w == self@.width,
                    h == self@.height,
                    goal == spiral_cells(w, h),
                    is_permutation(goal),
                    row < self@.height,
                    col <= self@.width,
                    rectangular(rows_of(template), w, h),
                    forall|r: int, c: int|
                        is_cell(r, c, w, h) ==> #[trigger] goal[row_major(w, r, c)] == rows_of(
                            template,
                        )[r][c],
                    self@ == (BoardView { cells: self@.cells, blank: self@.blank, ..old(self)@ }),
                    forall|i: int| 0 <= i < row * w + col ==> #[trigger] self@.cells[i] == goal[i],
                    forall|i: int|
                        0 <= i < row * w + col && #[trigger] goal[i] == 0 ==> self@.blank == i,
                decreases self@.width - col,
            {
                proof {
                    lemma_row_major_bound(w, h, row as int, col as int);
                    assert(is_cell(row as int, col as int, w, h));
                    assert(rows_of(template)[row as int].len() == w);
                }
                let val = template[row][col];
                let ghost k = row_major(w, row as int, col as int);
                assert(goal[k] == val);
                self.set_coords(col as i32, row as i32, val);
                col += 1;
            }
            proof {
                assert((row + 1) * w == row * w + w) by (nonlinear_arith);
            }
            row += 1;
        }
        proof {
            assert(h * w == w * h) by (nonlinear_arith);
            assert(self@.cells =~= goal);
            assert(0 < w * h) by (nonlinear_arith)
                requires
                    1 <= w,
                    1 <= h,
            ;
            assert(holds(goal, 0));
            let z = choose|i: int| 0 <= i < goal.len() && #[trigger] goal[i] == 0;
            assert(self@.blank == z);
        }
    }

    /// The indices of the cells that the blank can change places with:
    /// above, below, left and right of it, in that order.
    pub fn possible_directions(&self) -> (res: Vec<usize>)
        requires
            self@.wf(),
        ensures
            res@ == self@.neighbours(),
    {
        let mut res: Vec<usize> = Vec::new();
        proof {
            lemma_neighbours(self@);
        }
        // Up
        if self.zero_position >= self.width {
            res.push(self.zero_position - self.width)
        }
        // Down
        if self.zero_position < self.width * (self.height - 1) {
            res.push(self.zero_position + self.width)
        }
        // Left
        if self.zero_position % self.width > 0 {
            res.push(self.zero_position - 1)
        }
        // Right
        if self.zero_position % self.width < (self.width - 1) {
            res.push(self.zero_position + 1)
        }
        assert(res@ =~= self@.neighbours());
        res
    }

    /// Exchanges the blank and the tile at `target`, and caches `target` as
    /// the blank's index.
    fn slide(&mut self, target: usize)
        requires
            old(self)@.wf(),
            target < old(self)@.cells.len(),
        ensures
            final(self)@ == old(self)@.slid(target),
            final(self)@.wf(),
    {
        let blank = self.zero_position;
        let tile = self.data[target];
        let hole = self.data[blank];
        self.data[blank] = tile;
        self.data[target] = hole;
        self.zero_position = target;
    }

    /// One step of a scramble with the order of the candidates given: slides
    /// the first candidate whose layout is not among `visited` and returns
    /// its place among the candidates, or slides nothing and returns `None`
    /// when every candidate leads to a layout that was seen before.
    pub fn try_moves(&mut self, candidates: &Vec<usize>, visited: &Vec<Vec<usize>>) -> (r: Option<
        usize,
    >)
        requires
            old(self)@.wf(),
            forall|j: int|
                0 <= j < candidates@.len() ==> #[trigger] candidates@[j] < old(self)@.cells.len(),
        ensures
            final(self)@.wf(),
            match r {
                Some(k) => {
                    &&& k < candidates@.len()
                    &&& final(self)@ == old(self)@.slid(candidates@[k as int])
                    &&& !cells_of(*visited).contains(final(self)@.cells)
                    &&& forall|j: int|
                        0 <= j < k ==> cells_of(*visited).contains(
                            #[trigger] old(self)@.slid(candidates@[j]).cells,
                        )
                },
                None => {
                    &&& final(self)@ == old(self)@
                    &&& forall|j: int|
                        0 <= j < candidates@.len() ==> cells_of(*visited).contains(
                            #[trigger] old(self)@.slid(candidates@[j]).cells,
                        )
                },
            },
    {
        let mut j: usize = 0;
        while j < candidates.len()
            invariant
                j <= candidates@.len(),
                self@ == old(self)@,
                self@.wf(),
                forall|a: int|
                    0 <= a < candidates@.len() ==> #[trigger] candidates@[a] < old(
                        self,
                    )@.cells.len(),
                forall|a: int|
                    0 <= a < j ==> cells_of(*visited).contains(
                        #[trigger] old(self)@.slid(candidates@[a]).cells,
                    ),
            decreases candidates.len() - j,
        {
            let current_move = candidates[j];
            let blank = self.zero_position;
            self.slide(current_move);
            if !contains_cells(visited, &self.data) {
                return Some(j);
            }
            self.slide(blank);
            assert(self@ =~~= old(self)@);
            j += 1;
        }
        None
    }

    /// Scrambles the board by a random walk of at most `steps` slides, none
    /// of which leads to a layout that the walk has shown before, and
    /// returns the number of slides made. The walk stops early only when it
    /// is cornered: when every slide leads to such a layout.
    pub fn shuffle(&mut self, steps: usize) -> (taken: usize)
        requires
            old(self)@.wf(),
        ensures
            final(self)@.wf(),
            taken <= steps,
            steps == 0 ==> final(self)@ == old(self)@,
            old(self)@.anchored() && is_permutation(old(self)@.cells) ==> final(self)@.anchored()
                && is_permutation(final(self)@.cells),
            final(self)@.width == old(self)@.width,
            final(self)@.height == old(self)@.height,
            final(self)@.solution == old(self)@.solution,
            exists|path: Seq<BoardView>|
                {
                    &&& path.len() == taken
                    &&& is_slide_walk(old(self)@, path)
                    &&& #[trigger] shown(path).no_duplicates()
                    &&& final(self)@ == prior(old(self)@, path, taken as int)
                    &&& taken < steps ==> cornered(final(self)@, shown(path))
                },
    {
        let ghost start = self@;
        let ghost mut path: Seq<BoardView> = Seq::empty();
        let mut visited_states: Vec<Vec<usize>> = Vec::new();
        let mut i: usize = 0;
        let mut halted = false;
        proof {
            assert(cells_of(visited_states) =~= shown(path));
        }
        while i < steps && !halted
            invariant
                i <= steps,
                start == old(self)@,
                self@.wf(),
                path.len() == i,
                is_slide_walk(start, path),
                shown(path).no_duplicates(),
                self@ == prior(start, path, i as int),
                cells_of(visited_states) == shown(path),
                halted ==> i < steps && cornered(self@, shown(path)),
            decreases steps - i, (if halted { 0int } else { 1int }),
        {
            let ghost here = self@;
            let mut possible_moves = self.possible_directions();
            let ghost listed = possible_moves@;
            shuffle_moves(&mut possible_moves, &mut thread_rng());
            proof {
                lemma_neighbours(here);
                assert forall|j: int| 0 <= j < possible_moves@.len() implies #[trigger] possible_moves@[j]
                    < here.cells.len() by {
                    assert(possible_moves@.contains(possible_moves@[j]));
                    vstd::seq_lib::to_multiset_contains(possible_moves@, possible_moves@[j]);
                    vstd::seq_lib::to_multiset_contains(listed, possible_moves@[j]);
                    assert(listed.contains(possible_moves@[j]));
                }
            }
            match self.try_moves(&possible_moves, &visited_states) {
                Some(k) => {
                    let snapshot = copy_row(&self.data);
                    let ghost earlier = cells_of(visited_states);
                    visited_states.push(snapshot);
                    proof {
                        let t = possible_moves@[k as int];
                        assert(possible_moves@.contains(t));
                        vstd::seq_lib::to_multiset_contains(possible_moves@, t);
                        vstd::seq_lib::to_multiset_contains(listed, t);
                        assert(cells_of(visited_states) =~= earlier.push(snapshot@));
                        lemma_walk_grows(start, path, self@, t);
                        path = path.push(self@);
                    }
                    i += 1;
                },
                None => {
                    proof {
                        assert forall|t: usize| listed.contains(t) implies shown(path).contains(
                            #[trigger] here.slid(t).cells,
                        ) by {
                            vstd::seq_lib::to_multiset_contains(possible_moves@, t);
                            vstd::seq_lib::to_multiset_contains(listed, t);
                            assert(possible_moves@.contains(t));
                            let j = choose|j: int|
                                0 <= j < possible_moves@.len() && possible_moves@[j] == t;
                            assert(here.slid(possible_moves@[j]) == here.slid(t));
                        }
                    }
                    halted = true;
                },
            }
        }
        proof {
            lemma_walk_keeps_goal(start, path, i as int);
            if start.anchored() && is_permutation(start.cells) {
                lemma_walk_keeps_permutation(start, path, i as int);
            }
        }
        i
    }

    /// The cell that the blank changes places with when the player types
    /// `key`, if there is one.
    pub fn get_move(&mut self, key: &str) -> (r: Option<usize>)
        requires
            old(self)@.wf(),
        ensures
            final(self)@ == old(self)@,
            r == old(self)@.keyed(key@),
            r is Some ==> old(self)@.neighbours().contains(r->Some_0),
    {
        proof {
            lemma_neighbours(self@);
            lemma_keyed(self@, key@);
        }
        if same_text(key, "up") || same_text(key, "u") {
            if self.zero_position >= self.width {
                Some(self.zero_position - self.width)
            } else {
                None
            }
        } else if same_text(key, "down") || same_text(key, "d") {
            if self.zero_position < self.width * (self.height - 1) {
                Some(self.zero_position + self.width)
            } else {
                None
            }
        } else if same_text(key, "left") || same_text(key, "l") {
            if self.zero_position % self.width > 0 {
                Some(self.zero_position - 1)
            } else {
                None
            }
        } else if same_text(key, "right") || same_text(key, "r") {
            if self.zero_position % self.width < (self.width - 1) {
                Some(self.zero_position + 1)
            } else {
                None
            }
        } else {
            None
        }
    }

    /// Deals with one line that the player typed: moves the blank when the
    /// line names a move that the board allows, and says what is to be
    /// shown.
    pub fn play_step(&mut self, input: &str) -> (r: PlayAction)
        requires
            old(self)@.wf(),
        ensures
            r == old(self)@.reaction(input@),
            final(self)@ == old(self)@.played(input@),
            final(self)@.wf(),
    {
        if same_text(input, "exit") {
            PlayAction::Exit
        } else if same_text(input, "help") {
            PlayAction::Help
        } else if same_text(input, "solution") {
            PlayAction::Solution
        } else {
            match self.get_move(input) {
                Some(move_to) => {
                    proof {
                        lemma_neighbours(self@);
                    }
                    self.slide(move_to);
                    PlayAction::Moved
                },
                None => PlayAction::Ignored,
            }
        }
    }

    /// The cells written out in lines of `width` cells.
    pub fn to_text(&self) -> (s: String)
        requires
            self@.wf(),
        ensures
            s@ == self@.text(),
    {
        let longest = self.longest();
        let mut res = String::new();
        push_flat(&mut res, &self.data, self.width, longest);
        assert(res@ =~= self@.text());
        res
    }

    /// The number of digits of the largest tile.
    fn longest(&self) -> (r: usize)
        requires
            self@.wf(),
        ensures
            r == self@.field(),
    {
        assert(1 <= self.width * self.height) by (nonlinear_arith)
            requires
                1 <= self.width,
                1 <= self.height,
        ;
        count_digits((self.width * self.height - 1) as u64)
    }

    /// The goal layout written out under its heading.
    pub fn show_solution(&self) -> (s: String)
        requires
            self@.wf(),
        ensures
            s@ == self@.solution_text(),
    {
        let longest = self.longest();
        let mut res = String::new();
        res.append("Expected Solution:\n");
        push_flat(&mut res, &self.solution, self.width, longest);
        res
    }

    /// The board as the text of a file that `from_str` reads back: a
    /// comment line, the width, and the cells.
    pub fn as_output_string(&self) -> (s: String)
        requires
            self@.wf(),
        ensures
            s@ == self@.file_text(),
    {
        let longest = self.longest();
        let mut res = String::new();
        res.append("# N-puzzle board\n");
        push_decimal(&mut res, self.width);
        proof {
            reveal_strlit("\n");
        }
        res.append("\n");
        push_flat(&mut res, &self.data, self.width, longest);
        assert("\n"@ =~= seq!['\n']);
        assert(res@ =~= self@.file_text());
        res
    }

    /// Reads a board from its text.
    pub fn from_str(input: &str) -> (r: Result<Board, ErrorKind>)
        ensures
            match parsed(input.spec_bytes()) {
                Ok(v) => r is Ok && r->Ok_0@ == v && v.wf() && v.anchored() && is_permutation(
                    v.cells,
                ),
                Err(e) => r is Err && r->Err_0 == e,
            },
    {
        proof {
            if parsed(input.spec_bytes()) is Ok {
                lemma_parsed_board(input.spec_bytes());
            }
        }
        let mut width: usize = 0;
        let mut data: Vec<usize> = Vec::new();
        let text = input.as_bytes();
        let all_lines = split_lines(text);
        let ghost ls = bytes_of(all_lines);
        let mut i: usize = 0;
        assert(ls.take(0) =~= Seq::<Seq<u8>>::empty());
        while i < all_lines.len()
            invariant
                i <= all_lines.len(),
                ls == bytes_of(all_lines),
                ls == lines(input.spec_bytes()),
                read_lines(ls.take(i as int)) == Ok::<Reading, ErrorKind>(
                    Reading { width, data: data@ },
                ),
            decreases all_lines.len() - i,
        {
            let line = clean_line(&all_lines[i]);
            let row = split_words(&line);
            let ghost st = Reading { width, data: data@ };
            proof {
                let next = ls.take(i + 1);
                assert(next.drop_last() =~= ls.take(i as int));
                assert(next.last() == all_lines@[i as int]@);
                assert(read_lines(next) == read_line(st, bytes_of(row)));
            }
            let failure: Option<ErrorKind> = if row.len() == 0 {
                None
            } else if row.len() == 1 && width == 0 {
                assert(bytes_of(row)[0] == row@[0]@);
                match parse_number(&row[0]) {
                    Number::Malformed => Some(ErrorKind::InvalidChar),
                    Number::TooLarge => Some(ErrorKind::InvalidValue),
                    Number::Value(n) => {
                        width = n;
                        None
                    },
                }
            } else if width != 0 && row.len() == width {
                match parse_row(&mut data, &row, width) {
                    Ok(()) => None,
                    Err(e) => Some(e),
                }
            } else {
                Some(ErrorKind::InvalidNoSize)
            };
            match failure {
                Some(e) => {
                    proof {
                        lemma_lines_error_sticks(ls, i + 1, e);
                    }
                    return Err(e);
                },
                None => {},
            }
            i += 1;
        }
        assert(ls.take(all_lines.len() as int) =~= ls);
        let mut zero_pos: usize = 0;
        let mut found = false;
        while zero_pos < data.len() && !found
            invariant
                zero_pos <= data.len(),
                forall|j: int| 0 <= j < zero_pos ==> #[trigger] data@[j] != 0 || (found && j
                    == zero_pos - 1),
                found ==> zero_pos >= 1 && is_blank_index(data@, zero_pos - 1),
            decreases data.len() - zero_pos, (if found { 0int } else { 1int }),
        {
            if data[zero_pos] == 0 {
                found = true;
            }
            zero_pos += 1;
        }
        if !found {
            assert(!data@.contains(0));
            return Err(ErrorKind::InvalidNoZero);
        }
        let zero_position = zero_pos - 1;
        proof {
            lemma_blank_index(data@, zero_position as int);
            assert(data@[zero_position as int] == 0);
            assert(data@.contains(0));
        }
        let complete = match width.checked_mul(width) {
            Some(cells) => data.len() == cells,
            None => false,
        };
        if width > i32::MAX as usize || !complete {
            return Err(ErrorKind::InvalidInput);
        }
        let solution_board = Board::new(width, width);
        let board = Board {
            width,
            height: width,
            data,
            solution: solution_board.solution,
            zero_position,
        };
        Ok(board)
    }

    /// Whether the cells show the goal layout.
    pub fn is_solved(&self) -> (r: bool)
        ensures
            r == self@.solved(),
    {
        same_cells(&self.data, &self.solution)
    }

    /// The index of the cell in column `col` of row `row`.
    pub fn get_index(&self, col: usize, row: usize) -> (i: usize)
        requires
            self@.wf(),
            col < self@.width,
            row < self@.height,
        ensures
            i == row_major(self@.width as int, row as int, col as int),
            i < self@.cells.len(),
    {
        proof {
            lemma_row_major_bound(self.width as int, self.height as int, row as int, col as int);
        }
        col + row * self.width
    }

    /// Whether `(x, y)` = (column, row) names a cell.
    pub fn is_xy_in_bounds(&self, x: i32, y: i32) -> (r: bool)
        requires
            self@.wf(),
        ensures
            r == self@.xy_in_bounds(x as int, y as int),
    {
        x >= 0 && x < self.width as i32 && y >= 0 && y < self.height as i32
    }

    /// Writes `val` into the cell `(x, y)` = (column, row), and caches the
    /// cell as the blank's when `val` is 0. Does nothing outside the board.
    pub fn set_coords(&mut self, x: i32, y: i32, val: usize)
        requires
            old(self)@.wf(),
        ensures
            final(self)@ == (if old(self)@.xy_in_bounds(x as int, y as int) {
                let i = row_major(old(self)@.width as int, y as int, x as int);
                BoardView {
                    cells: old(self)@.cells.update(i, val),
                    blank: if val == 0 {
                        i as usize
                    } else {
                        old(self)@.blank
                    },
                    ..old(self)@
                }
            } else {
                old(self)@
            }),
            final(self)@.wf(),
    {
        if self.is_xy_in_bounds(x, y) {
            let i = self.get_index(x as usize, y as usize);
            self.data[i] = val;
            if val == 0 {
                self.set_zero_index(i);
            }
        }
    }

    /// Caches the cell `(x, y)` = (column, row) as the blank's. Does nothing
    /// outside the board.
    pub fn set_zero_xy(&mut self, x: i32, y: i32)
        requires
            old(self)@.wf(),
        ensures
            final(self)@ == (if old(self)@.xy_in_bounds(x as int, y as int) {
                BoardView {
                    blank: row_major(old(self)@.width as int, y as int, x as int) as usize,
                    ..old(self)@
                }
            } else {
                old(self)@
            }),
            final(self)@.wf(),
    {
        if self.is_xy_in_bounds(x, y) {
            self.zero_position = self.get_index(x as usize, y as usize);
        }
    }

    /// Caches the cell of index `i` as the blank's. Does nothing when no
    /// cell has that index.
    pub fn set_zero_index(&mut self, i: usize)
        requires
            old(self)@.width * old(self)@.height <= usize::MAX,
        ensures
            final(self)@ == (if i < old(self)@.width * old(self)@.height {
                BoardView { blank: i, ..old(self)@ }
            } else {
                old(self)@
            }),
    {
        if i < self.width * self.height {
            self.zero_position = i;
        }
    }
}

} // verus!
