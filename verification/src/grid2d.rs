//! A dense rectangular board and the moves of its blank.

use crate::grid_traits::Grid;
use crate::grid_traits::rows_of;
use crate::layout::copy_layout;
use crate::layout::is_cell;
use crate::layout::below;
use crate::layout::distinct;
use crate::layout::is_tiling;
use crate::layout::lemma_distinct_is_tiling;
use crate::layout::lemma_exchange_keeps_tiling;
use crate::layout::rectangular;
use crate::layout::same_layout;
use crate::layout::with_cell;
use crate::status::ErrorKind;
use crate::text::count_digits;
use crate::text::digit_count;
use crate::text::push_rows;
use crate::text::rows_text;
use vstd::prelude::*;
use vstd::std_specs::cmp::PartialEqSpecImpl;
use vstd::string::StringExecFns;

verus! {

/// The four orthogonal moves of the blank.
#[derive(Debug, Clone, Copy, PartialEq, Eq, Structural, Hash)]
pub enum Direction {
    Up,
    Down,
    Right,
    Left,
}

/// A board position, or a displacement between two positions, as
/// (row, column).
#[derive(Debug, Clone, Copy, Hash, PartialEq, Eq, Structural)]
pub struct Coords(pub i32, pub i32);

impl Direction {
    /// The unit displacement of the blank for each direction: rows grow
    /// downwards, columns grow to the right.
    pub open spec fn offset(self) -> Coords {
        match self {
            Direction::Up => Coords(-1i32, 0i32),
            Direction::Down => Coords(1i32, 0i32),
            Direction::Right => Coords(0i32, 1i32),
            Direction::Left => Coords(0i32, -1i32),
        }
    }

    /// The direction that cancels `self`.
    pub open spec fn reversed(self) -> Direction {
        match self {
            Direction::Up => Direction::Down,
            Direction::Down => Direction::Up,
            Direction::Right => Direction::Left,
            Direction::Left => Direction::Right,
        }
    }

    /// The four directions in the order in which moves are enumerated.
    pub open spec fn all() -> Seq<Direction> {
        seq![Direction::Up, Direction::Down, Direction::Right, Direction::Left]
    }

    /// The direction whose displacement is `coords`; an error when `coords`
    /// is not one step along a row or a column.
    pub fn try_from(coords: Coords) -> (r: Result<Direction, ErrorKind>)
        ensures
            match r {
                Ok(d) => d.offset() == coords,
                Err(e) => e == ErrorKind::InvalidPoint && forall|d: Direction|
                    d.offset() != coords,
            },
    {
        if coords.0 == -1 && coords.1 == 0 {
            Ok(Direction::Up)
        } else if coords.0 == 1 && coords.1 == 0 {
            Ok(Direction::Down)
        } else if coords.0 == 0 && coords.1 == 1 {
            Ok(Direction::Right)
        } else if coords.0 == 0 && coords.1 == -1 {
            Ok(Direction::Left)
        } else {
            Err(ErrorKind::InvalidPoint)
        }
    }

    /// All four directions, in enumeration order.
    pub fn iterator() -> (r: Vec<Direction>)
        ensures
            r@ == Direction::all(),
    {
        let mut r: Vec<Direction> = Vec::new();
        r.push(Direction::Up);
        r.push(Direction::Down);
        r.push(Direction::Right);
        r.push(Direction::Left);
        assert(r@ =~= Direction::all());
        r
    }

    pub fn opposite(self) -> (r: Direction)
        ensures
            r == self.reversed(),
    {
        match self {
            Direction::Up => Direction::Down,
            Direction::Down => Direction::Up,
            Direction::Right => Direction::Left,
            Direction::Left => Direction::Right,
        }
    }
}

impl Coords {
    /// Component-wise sum, as mathematical integers.
    pub open spec fn plus(self, other: Coords) -> (int, int) {
        (self.0 + other.0, self.1 + other.1)
    }

    /// Component-wise difference, as mathematical integers.
    pub open spec fn minus(self, other: Coords) -> (int, int) {
        (self.0 - other.0, self.1 - other.1)
    }

    /// Whether both components of a pair of integers fit a coordinate.
    pub open spec fn fits(p: (int, int)) -> bool {
        i32::MIN <= p.0 <= i32::MAX && i32::MIN <= p.1 <= i32::MAX
    }
}

impl core::ops::Add for Coords {
    type Output = Coords;

    fn add(self, other: Coords) -> (r: Coords)
        ensures
            (r.0 as int, r.1 as int) == self.plus(other),
    {
        Coords(self.0 + other.0, self.1 + other.1)
    }
}

impl vstd::std_specs::ops::AddSpecImpl for Coords {
    open spec fn obeys_add_spec() -> bool {
        true
    }

    open spec fn add_req(self, other: Coords) -> bool {
        Coords::fits(self.plus(other))
    }

    open spec fn add_spec(self, other: Coords) -> Coords {
        Coords((self.0 + other.0) as i32, (self.1 + other.1) as i32)
    }
}

impl core::ops::Sub for Coords {
    type Output = Coords;

    fn sub(self, other: Coords) -> (r: Coords)
        ensures
            (r.0 as int, r.1 as int) == self.minus(other),
    {
        Coords(self.0 - other.0, self.1 - other.1)
    }
}

impl vstd::std_specs::ops::SubSpecImpl for Coords {
    open spec fn obeys_sub_spec() -> bool {
        true
    }

    open spec fn sub_req(self, other: Coords) -> bool {
        Coords::fits(self.minus(other))
    }

    open spec fn sub_spec(self, other: Coords) -> Coords {
        Coords((self.0 - other.0) as i32, (self.1 - other.1) as i32)
    }
}

impl From<Direction> for Coords {
    fn from(dir: Direction) -> (r: Coords)
        ensures
            r == dir.offset(),
    {
        match dir {
            Direction::Up => Coords(-1, 0),
            Direction::Down => Coords(1, 0),
            Direction::Right => Coords(0, 1),
            Direction::Left => Coords(0, -1),
        }
    }
}

impl vstd::std_specs::convert::FromSpecImpl<Direction> for Coords {
    open spec fn obeys_from_spec() -> bool {
        true
    }

    open spec fn from_spec(dir: Direction) -> Coords {
        dir.offset()
    }
}

/// The abstract state of a dense board.
#[verifier::ext_equal]
pub struct GridView {
    pub width: usize,
    pub height: usize,
    /// The tile value of every cell, row by row.
    pub rows: Seq<Seq<usize>>,
    /// The cached position of the blank.
    pub blank: Coords,
}

impl GridView {
    /// `p` names a cell of the board.
    pub open spec fn in_bounds(self, p: Coords) -> bool {
        is_cell(p.0 as int, p.1 as int, self.width as int, self.height as int)
    }

    /// The rows form a `width` by `height` rectangle whose sides fit a
    /// coordinate, and the cached blank position names a cell, or is the
    /// origin when the board has no cell.
    pub open spec fn wf(self) -> bool {
        &&& self.width <= i32::MAX
        &&& self.height <= i32::MAX
        &&& rectangular(self.rows, self.width as int, self.height as int)
        &&& (self.in_bounds(self.blank) || self.blank == Coords(0i32, 0i32))
    }

    /// The cell at the cached blank position holds the blank.
    pub open spec fn anchored(self) -> bool {
        self.in_bounds(self.blank) ==> self.rows[self.blank.0 as int][self.blank.1 as int] == 0
    }

    /// The board is anchored and its layout is a proper tiling.
    pub open spec fn valid(self) -> bool {
        &&& self.wf()
        &&& self.anchored()
        &&& is_tiling(self.rows, self.width as int, self.height as int)
    }

    /// The largest tile of a proper tiling of the board.
    pub open spec fn last_tile(self) -> nat {
        if self.width * self.height == 0 {
            0
        } else {
            (self.width * self.height - 1) as nat
        }
    }

    /// The board written out.
    pub open spec fn text(self) -> Seq<char> {
        if self.rows.len() == 0 {
            "Empty"@
        } else {
            rows_text(self.rows, 1 + digit_count(self.last_tile()))
        }
    }

    /// The position next to the blank in direction `d`.
    pub open spec fn target(self, d: Direction) -> Coords {
        Coords((self.blank.0 + d.offset().0) as i32, (self.blank.1 + d.offset().1) as i32)
    }

    /// The blank has a neighbour in direction `d`.
    pub open spec fn legal(self, d: Direction) -> bool {
        self.in_bounds(self.target(d))
    }

    /// The legal moves among the first `n` directions, in enumeration order.
    pub open spec fn moves_among(self, n: nat) -> Seq<Direction>
        decreases n,
    {
        if n == 0 || n > Direction::all().len() {
            Seq::empty()
        } else {
            let before = self.moves_among((n - 1) as nat);
            let d = Direction::all()[n - 1];
            if self.legal(d) {
                before.push(d)
            } else {
                before
            }
        }
    }

    /// The legal moves, in enumeration order.
    pub open spec fn moves(self) -> Seq<Direction> {
        self.moves_among(4)
    }

    /// The tile value at `p`, or nothing when `p` is outside the board.
    pub open spec fn cell(self, p: Coords) -> Option<usize> {
        if self.in_bounds(p) {
            Some(self.rows[p.0 as int][p.1 as int])
        } else {
            None
        }
    }

    /// The state with the cell at `p` overwritten by `value`.
    pub open spec fn put(self, p: Coords, value: usize) -> GridView {
        GridView { rows: with_cell(self.rows, p.0 as int, p.1 as int, value), ..self }
    }

    /// The state after the tile next to the blank in direction `d` has slid
    /// into the blank's cell and the blank has taken the tile's place.
    pub open spec fn step(self, d: Direction) -> GridView {
        let t = self.target(d);
        GridView {
            rows: self.put(self.blank, self.rows[t.0 as int][t.1 as int]).put(t, 0).rows,
            blank: t,
            ..self
        }
    }
}

/// `(r, c)` is the first cell of `layout`, read row by row, that holds 0.
pub open spec fn is_first_zero(layout: Seq<Seq<usize>>, r: int, c: int) -> bool {
    &&& 0 <= r < layout.len()
    &&& 0 <= c < layout[r].len()
    &&& layout[r][c] == 0
    &&& forall|i: int, j: int|
        0 <= i < layout.len() && 0 <= j < layout[i].len() && (i < r || (i == r && j < c))
            ==> #[trigger] layout[i][j] != 0
}

/// Some cell of `layout` holds 0.
pub open spec fn has_zero(layout: Seq<Seq<usize>>) -> bool {
    exists|r: int, c: int|
        0 <= r < layout.len() && 0 <= c < layout[r].len() && #[trigger] layout[r][c] == 0
}

/// Some row of `layout` differs in length from the first row.
pub open spec fn ragged(layout: Seq<Seq<usize>>) -> bool {
    exists|r: int| 0 <= r < layout.len() && (#[trigger] layout[r]).len() != layout[0].len()
}

/// The position of the first zero of `layout`, read row by row.
pub open spec fn first_zero(layout: Seq<Seq<usize>>) -> Coords {
    let p = choose|p: (int, int)| is_first_zero(layout, p.0, p.1);
    Coords(p.0 as i32, p.1 as i32)
}

/// Why a layout is refused: no rows, rows of differing lengths, or no blank;
/// in that order.
pub open spec fn load_error(layout: Seq<Seq<usize>>) -> Option<ErrorKind> {
    if layout.len() == 0 {
        Some(ErrorKind::EmptyInput)
    } else if ragged(layout) {
        Some(ErrorKind::InvalidInput)
    } else if !has_zero(layout) {
        Some(ErrorKind::InvalidNoZero)
    } else {
        None
    }
}

/// The state that shows `layout`, with the blank cached at its first zero.
pub open spec fn loaded(layout: Seq<Seq<usize>>) -> GridView {
    GridView {
        width: layout[0].len() as usize,
        height: layout.len() as usize,
        rows: layout,
        blank: first_zero(layout),
    }
}

/// At most one cell is the first zero of a layout.
pub proof fn lemma_first_zero_unique(layout: Seq<Seq<usize>>, r: int, c: int)
    requires
        is_first_zero(layout, r, c),
    ensures
        first_zero(layout) == Coords(r as i32, c as i32),
        (choose|p: (int, int)| is_first_zero(layout, p.0, p.1)) == (r, c),
{
    let w = (r, c);
    assert(is_first_zero(layout, w.0, w.1));
    let p = choose|p: (int, int)| is_first_zero(layout, p.0, p.1);
    assert(is_first_zero(layout, p.0, p.1));
    if p.0 < r || (p.0 == r && p.1 < c) {
        assert(layout[p.0][p.1] != 0);
    }
    if r < p.0 || (r == p.0 && c < p.1) {
        assert(layout[r][c] != 0);
    }
    assert(p.0 == r && p.1 == c);
}

/// A dense rectangular board: every cell is stored, and the position of the
/// blank is cached beside the cells.
#[derive(Clone, Debug, Hash)]
pub struct Grid2D {
    height: usize,
    width: usize,
    data: Vec<Vec<usize>>,
    zero_position: Coords,
}

impl View for Grid2D {
    type V = GridView;

    closed spec fn view(&self) -> GridView {
        GridView {
            width: self.width,
            height: self.height,
            rows: rows_of(self.data),
            blank: self.zero_position,
        }
    }
}

impl Grid2D {
    /// A board with no cell.
    pub fn new() -> (g: Grid2D)
        ensures
            g@.wf(),
            g@.anchored(),
            g@.width == 0,
            g@.height == 0,
            g@.rows == Seq::<Seq<usize>>::empty(),
            g@.blank == Coords(0i32, 0i32),
    {
        let g = Grid2D { width: 0, height: 0, data: Vec::new(), zero_position: Coords(0, 0) };
        assert(g@.rows =~= Seq::<Seq<usize>>::empty());
        g
    }

    /// A board of `height` rows and `width` columns that waits for a layout:
    /// every cell holds 0 and the blank is cached at the origin.
    pub fn with_capacity(height: usize, width: usize) -> (g: Grid2D)
        requires
            height <= i32::MAX,
            width <= i32::MAX,
        ensures
            g@.wf(),
            g@.anchored(),
            g@.width == width,
            g@.height == height,
            g@.blank == Coords(0i32, 0i32),
            forall|r: int, c: int|
                is_cell(r, c, width as int, height as int) ==> #[trigger] g@.rows[r][c] == 0,
    {
        let mut data: Vec<Vec<usize>> = Vec::with_capacity(height);
        let mut r: usize = 0;
        while r < height
            invariant
                r <= height,
                data@.len() == r,
                forall|i: int| 0 <= i < r ==> (#[trigger] data@[i])@.len() == width,
                forall|i: int, j: int|
                    0 <= i < r && 0 <= j < width ==> #[trigger] data@[i]@[j] == 0,
            decreases height - r,
        {
            let mut row: Vec<usize> = Vec::with_capacity(width);
            let mut c: usize = 0;
            while c < width
                invariant
                    c <= width,
                    row@.len() == c,
                    forall|j: int| 0 <= j < c ==> #[trigger] row@[j] == 0,
                decreases width - c,
            {
                row.push(0);
                c += 1;
            }
            data.push(row);
            r += 1;
        }
        Grid2D { width, height, data, zero_position: Coords(0, 0) }
    }

    /// Whether `coords` names a cell of the board.
    pub fn in_bounds(&self, coords: Coords) -> (r: bool)
        ensures
            r == self@.in_bounds(coords),
    {
        coords.0 >= 0 && self.height > coords.0 as usize && coords.1 >= 0 && self.width
            > coords.1 as usize
    }

    /// The board as text: `Empty` for a board without rows, else one line
    /// for each row, with every cell right-aligned in a field one wider than
    /// the largest tile is long.
    pub fn to_text(&self) -> (s: String)
        requires
            self@.wf(),
        ensures
            s@ == self@.text(),
    {
        let mut out = String::new();
        if self.data.len() == 0 {
            out.append("Empty");
            assert(out@ =~= "Empty"@);
            return out;
        }
        assert(self.width * self.height <= u64::MAX) by (nonlinear_arith)
            requires
                self.width <= i32::MAX,
                self.height <= i32::MAX,
        ;
        let cells: u64 = (self.width as u64) * (self.height as u64);
        let last: u64 = if cells == 0 {
            0
        } else {
            cells - 1
        };
        let longest = 1 + count_digits(last);
        push_rows(&mut out, &self.data, longest);
        assert(out@ =~= self@.text());
        out
    }

    /// Whether the board is valid: its layout is a proper tiling and the
    /// cached position of the blank is where the blank is.
    pub fn is_valid(&self) -> (r: bool)
        requires
            self@.wf(),
            self@.width * self@.height <= usize::MAX,
        ensures
            r == self@.valid(),
    {
        let ghost rows = self@.rows;
        let ghost w = self.width as int;
        let ghost h = self.height as int;
        let cells: usize = self.width * self.height;
        let mut seen: Vec<Option<(usize, usize)>> = Vec::with_capacity(cells);
        let mut k: usize = 0;
        while k < cells
            invariant
                k <= cells,
                seen@.len() == k,
                forall|v: int| 0 <= v < k ==> (#[trigger] seen@[v]) is None,
            decreases cells - k,
        {
            seen.push(None);
            k += 1;
        }
        let mut row: usize = 0;
        while row < self.height
            invariant
                self@.wf(),
                rows == self@.rows,
                w == self.width,
                h == self.height,
                cells == w * h,
                row <= h,
                seen@.len() == cells,
                forall|r: int, c: int|
                    0 <= r < row && 0 <= c < w ==> #[trigger] rows[r][c] < cells && seen@[rows[r][c] as int]
                        == Some((r as usize, c as usize)),
                forall|v: int|
                    0 <= v < cells ==> (#[trigger] seen@[v] matches Some(p) ==> p.0 < row && p.1 < w
                        && rows[p.0 as int][p.1 as int] == v),
            decreases h - row,
        {
            let mut col: usize = 0;
            while col < self.width
                invariant
                    self@.wf(),
                    rows == self@.rows,
                    w == self.width,
                    h == self.height,
                    cells == w * h,
                    row < h,
                    col <= w,
                    seen@.len() == cells,
                    forall|r: int, c: int|
                        (0 <= r < row && 0 <= c < w) || (r == row && 0 <= c < col)
                            ==> #[trigger] rows[r][c] < cells && seen@[rows[r][c] as int] == Some(
                            (r as usize, c as usize),
                        ),
                    forall|v: int|
                        0 <= v < cells ==> (#[trigger] seen@[v] matches Some(p) ==> (p.0 < row
                            && p.1 < w || p.0 == row && p.1 < col) && rows[p.0 as int][p.1 as int]
                            == v),
                decreases w - col,
            {
                assert(rows[row as int].len() == w);
                let v = self.data[row][col];
                if v >= cells {
                    assert(!below(rows, w * h));
                    return false;
                }
                match seen[v] {
                    Some(p) => {
                        assert(rows[p.0 as int][p.1 as int] == rows[row as int][col as int]);
                        assert(!distinct(rows));
                        return false;
                    },
                    None => {},
                }
                seen[v] = Some((row, col));
                col += 1;
            }
            row += 1;
        }
        proof {
            assert(below(rows, w * h)) by {
                assert forall|r: int, c: int|
                    0 <= r < rows.len() && 0 <= c < rows[r].len() implies #[trigger] rows[r][c] < w
                    * h by {
                    assert(rows[r].len() == w);
                }
            }
            assert(distinct(rows)) by {
                assert forall|r1: int, c1: int, r2: int, c2: int|
                    0 <= r1 < rows.len() && 0 <= c1 < rows[r1].len() && 0 <= r2 < rows.len() && 0
                        <= c2 < rows[r2].len() && #[trigger] rows[r1][c1]
                        == #[trigger] rows[r2][c2] implies r1 == r2 && c1 == c2 by {
                    assert(rows[r1].len() == w);
                    assert(rows[r2].len() == w);
                    assert(seen@[rows[r1][c1] as int] == Some((r1 as usize, c1 as usize)));
                    assert(seen@[rows[r2][c2] as int] == Some((r2 as usize, c2 as usize)));
                }
            }
            lemma_distinct_is_tiling(rows, w, h);
        }
        if self.in_bounds(self.zero_position) {
            let r: usize = self.zero_position.0 as usize;
            let c: usize = self.zero_position.1 as usize;
            assert(rows[r as int].len() == w);
            self.data[r][c] == 0
        } else {
            true
        }
    }

    /// The cached position of the blank.
    pub fn get_zero(&self) -> (r: Coords)
        ensures
            r == self@.blank,
    {
        self.zero_position
    }
}

impl Grid for Grid2D {
    type M = Direction;

    type P = Coords;

    open spec fn wf(v: GridView) -> bool {
        v.wf()
    }

    open spec fn anchored(v: GridView) -> bool {
        v.anchored()
    }

    open spec fn tiles(v: GridView) -> Seq<Seq<usize>> {
        v.rows
    }

    open spec fn extent(v: GridView) -> (usize, usize) {
        (v.width, v.height)
    }

    open spec fn legal(v: GridView, m: Direction) -> bool {
        v.legal(m)
    }

    open spec fn step(v: GridView, m: Direction) -> GridView {
        v.step(m)
    }

    open spec fn back(m: Direction) -> Direction {
        m.reversed()
    }

    open spec fn cell(v: GridView, p: Coords) -> Option<usize> {
        v.cell(p)
    }

    open spec fn put(v: GridView, p: Coords, value: usize) -> GridView {
        v.put(p, value)
    }

    open spec fn load_error(layout: Seq<Seq<usize>>) -> Option<ErrorKind> {
        load_error(layout)
    }

    open spec fn loaded(v: GridView, layout: Seq<Seq<usize>>) -> GridView {
        loaded(layout)
    }

    proof fn lemma_round_trip(v: GridView, m: Direction) {
        let w = v.step(m);
        assert(w.target(m.reversed()) == v.blank);
        assert(w.step(m.reversed()) =~~= v);
    }

    proof fn lemma_loaded(v: GridView, layout: Seq<Seq<usize>>) {
        let (r, c) = choose|r: int, c: int|
            0 <= r < layout.len() && 0 <= c < layout[r].len() && #[trigger] layout[r][c] == 0;
        lemma_first_zero_exists(layout, r, c);
        let p = choose|p: (int, int)| is_first_zero(layout, p.0, p.1);
        assert(is_first_zero(layout, p.0, p.1));
        assert(layout[p.0].len() == layout[0].len());
    }

    fn possible_moves(&self) -> (r: Vec<Direction>)
        ensures
            r@ == self@.moves(),
    {
        let mut res: Vec<Direction> = Vec::new();
        let dirs = Direction::iterator();
        let mut i: usize = 0;
        while i < dirs.len()
            invariant
                self@.wf(),
                dirs@ == Direction::all(),
                i <= dirs@.len(),
                res@ == self@.moves_among(i as nat),
                res@.no_duplicates(),
                forall|m: Direction|
                    res@.contains(m) <==> (self@.legal(m) && exists|k: int|
                        0 <= k < i && Direction::all()[k] == m),
            decreases dirs.len() - i,
        {
            let dir = dirs[i];
            let ghost before = res@;
            if self.in_bounds(self.zero_position + Coords::from(dir)) {
                assert(!before.contains(dir)) by {
                    if before.contains(dir) {
                        let k = choose|k: int| 0 <= k < i && Direction::all()[k] == dir;
                        assert(Direction::all()[k] != Direction::all()[i as int]);
                    }
                }
                res.push(dir);
                assert(res@.last() == dir);
                assert forall|a: int, b: int|
                    0 <= a < res@.len() && 0 <= b < res@.len() && a != b implies res@[a]
                    != res@[b] by {
                    if a < before.len() {
                        assert(before.contains(res@[a]));
                    }
                    if b < before.len() {
                        assert(before.contains(res@[b]));
                    }
                }
                assert(forall|k: int| 0 <= k < before.len() ==> res@[k] == before[k]);
                assert forall|m: Direction| res@.contains(m) implies (self@.legal(m) && exists|
                    k: int,
                | 0 <= k < i + 1 && Direction::all()[k] == m) by {
                    if m == dir {
                        assert(Direction::all()[i as int] == m);
                    } else {
                        assert(before.contains(m));
                    }
                }
                assert forall|m: Direction|
                    (self@.legal(m) && exists|k: int|
                        0 <= k < i + 1 && Direction::all()[k] == m) implies res@.contains(m) by {
                    if m == dir {
                        assert(res@[before.len() as int] == m);
                    } else {
                        assert(before.contains(m));
                        let k = choose|k: int| 0 <= k < before.len() && before[k] == m;
                        assert(res@[k] == m);
                    }
                }
            }
            i += 1;
        }
        assert forall|m: Direction| self@.legal(m) implies res@.contains(m) by {
            let k: int = match m {
                Direction::Up => 0,
                Direction::Down => 1,
                Direction::Right => 2,
                Direction::Left => 3,
            };
            assert(Direction::all()[k] == m);
        }
        res
    }

    fn do_move(&mut self, dir: &Direction) -> (r: Result<(), ErrorKind>) {
        let position = self.zero_position + Coords::from(*dir);
        match self.get_value(position) {
            Ok(val) => {
                let blank = self.zero_position;
                let _ = self.set_value(blank, val);
                let _ = self.set_value(position, 0);
                self.zero_position = position;
                assert(self@ =~~= old(self)@.step(*dir));
                Ok(())
            },
            Err(_) => Err(ErrorKind::InvalidMove),
        }
    }

    fn undo_move(&mut self, dir: &Direction) -> (r: Result<(), ErrorKind>) {
        let rev_dir = dir.opposite();
        let position = self.zero_position + Coords::from(rev_dir);
        match self.get_value(position) {
            Ok(val) => {
                let blank = self.zero_position;
                let _ = self.set_value(blank, val);
                let _ = self.set_value(position, 0);
                self.zero_position = position;
                assert(self@ =~~= old(self)@.step(dir.reversed()));
                Ok(())
            },
            Err(_) => Err(ErrorKind::InvalidMove),
        }
    }

    fn set_value(&mut self, position: Coords, value: usize) -> (r: Result<(), ErrorKind>) {
        if self.in_bounds(position) {
            let row: usize = position.0 as usize;
            let col: usize = position.1 as usize;
            assert(rows_of(self.data)[row as int].len() == self.width);
            self.data[row][col] = value;
            assert(self@ =~~= old(self)@.put(position, value));
            Ok(())
        } else {
            Err(ErrorKind::OutOfBounds)
        }
    }

    fn get_value(&self, position: Coords) -> (r: Result<usize, ErrorKind>) {
        if self.in_bounds(position) {
            let row: usize = position.0 as usize;
            let col: usize = position.1 as usize;
            assert(rows_of(self.data)[row as int].len() == self.width);
            Ok(self.data[row][col])
        } else {
            Err(ErrorKind::OutOfBounds)
        }
    }

    fn dim(&self) -> (r: (usize, usize)) {
        (self.width, self.height)
    }

    fn from_2dvec(&mut self, data: Vec<Vec<usize>>) -> (r: Result<(), ErrorKind>) {
        let ghost layout = rows_of(data);
        let height = data.len();
        if height == 0 {
            return Err(ErrorKind::EmptyInput);
        }
        let width = data[0].len();
        assert(layout[0].len() == width);
        let mut r: usize = 0;
        while r < height
            invariant
                r <= height,
                height == data@.len(),
                layout == rows_of(data),
                width == layout[0].len(),
                forall|i: int| 0 <= i < r ==> (#[trigger] layout[i]).len() == width,
            decreases height - r,
        {
            if data[r].len() != width {
                assert(layout[r as int].len() != layout[0].len());
                return Err(ErrorKind::InvalidInput);
            }
            r += 1;
        }
        assert(!ragged(layout));
        let mut r: usize = 0;
        while r < height
            invariant
                r <= height,
                height == data@.len(),
                height <= i32::MAX,
                width <= i32::MAX,
                layout == rows_of(data),
                !ragged(layout),
                layout.len() > 0,
                self@ == old(self)@,
                forall|i: int| 0 <= i < height ==> (#[trigger] layout[i]).len() == width,
                forall|i: int, j: int| 0 <= i < r && 0 <= j < width ==> #[trigger] layout[i][j] != 0,
            decreases height - r,
        {
            let mut c: usize = 0;
            while c < width
                invariant
                    r < height,
                    c <= width,
                    height == data@.len(),
                    height <= i32::MAX,
                    width <= i32::MAX,
                    layout == rows_of(data),
                    !ragged(layout),
                    layout.len() > 0,
                    self@ == old(self)@,
                    forall|i: int| 0 <= i < height ==> (#[trigger] layout[i]).len() == width,
                    forall|i: int, j: int|
                        0 <= i < r && 0 <= j < width ==> #[trigger] layout[i][j] != 0,
                    forall|j: int| 0 <= j < c ==> #[trigger] layout[r as int][j] != 0,
                decreases width - c,
            {
                assert(layout[r as int].len() == width);
                if data[r][c] == 0 {
                    proof {
                        assert(layout[r as int][c as int] == 0);
                        assert(is_first_zero(layout, r as int, c as int));
                        lemma_first_zero_unique(layout, r as int, c as int);
                    }
                    self.zero_position = Coords(r as i32, c as i32);
                    self.height = height;
                    self.width = width;
                    self.data = data;
                    assert(self@ =~~= loaded(layout));
                    return Ok(());
                }
                c += 1;
            }
            r += 1;
        }
        assert(!has_zero(layout));
        Err(ErrorKind::InvalidNoZero)
    }

    fn to_2dvec(&self) -> (r: Vec<Vec<usize>>) {
        copy_layout(&self.data)
    }

    fn duplicate(&self) -> (r: Grid2D) {
        let data = copy_layout(&self.data);
        let r = Grid2D {
            height: self.height,
            width: self.width,
            data,
            zero_position: self.zero_position,
        };
        assert(r@ =~~= self@);
        r
    }
}

/// Two boards are equal when they show the same layout.
impl PartialEq for Grid2D {
    fn eq(&self, other: &Grid2D) -> (r: bool) {
        same_layout(&self.data, &other.data)
    }
}

impl PartialEqSpecImpl for Grid2D {
    open spec fn obeys_eq_spec() -> bool {
        true
    }

    open spec fn eq_spec(&self, other: &Grid2D) -> bool {
        self@.rows == other@.rows
    }
}

impl Eq for Grid2D {

}

/// A legal move on a valid board gives a valid board: the layout stays a
/// proper tiling and the blank stays anchored.
pub proof fn lemma_step_keeps_valid(v: GridView, d: Direction)
    requires
        v.valid(),
        v.legal(d),
    ensures
        v.step(d).valid(),
        v.step(d).legal(d.reversed()),
        v.step(d).step(d.reversed()) == v,
{
    let t = v.target(d);
    let w = v.step(d);
    assert(v.in_bounds(v.blank));
    lemma_exchange_keeps_tiling(
        v.rows,
        v.width as int,
        v.height as int,
        v.blank.0 as int,
        v.blank.1 as int,
        t.0 as int,
        t.1 as int,
    );
    assert(w.rows =~~= crate::layout::exchanged(
        v.rows,
        v.blank.0 as int,
        v.blank.1 as int,
        t.0 as int,
        t.1 as int,
    ));
    assert(w.target(d.reversed()) == v.blank);
    assert(w.step(d.reversed()) =~~= v);
}

/// A proper tiling of a board with at least one cell loads, and the board
/// that it gives is valid.
pub proof fn lemma_tiling_loads(layout: Seq<Seq<usize>>, width: int, height: int)
    requires
        1 <= width <= i32::MAX,
        1 <= height <= i32::MAX,
        is_tiling(layout, width, height),
    ensures
        load_error(layout) is None,
        loaded(layout).valid(),
        loaded(layout).width == width,
        loaded(layout).height == height,
{
    assert(0 < width * height) by (nonlinear_arith)
        requires
            1 <= width,
            1 <= height,
    ;
    assert(crate::layout::occurs(layout, 0));
    let (r, c) = choose|r: int, c: int|
        0 <= r < layout.len() && 0 <= c < layout[r].len() && #[trigger] layout[r][c] == 0;
    assert(has_zero(layout));
    assert(layout[0].len() == width);
    assert(!ragged(layout));
    lemma_first_zero_exists(layout, r, c);
    let p = choose|p: (int, int)| is_first_zero(layout, p.0, p.1);
    assert(is_first_zero(layout, p.0, p.1));
    assert(layout[p.0].len() == width);
}

/// A layout with a zero has a first zero.
pub proof fn lemma_first_zero_exists(layout: Seq<Seq<usize>>, r: int, c: int)
    requires
        0 <= r < layout.len(),
        0 <= c < layout[r].len(),
        layout[r][c] == 0,
    ensures
        exists|p: (int, int)| is_first_zero(layout, p.0, p.1),
    decreases r, c,
{
    if exists|i: int, j: int|
        0 <= i < layout.len() && 0 <= j < layout[i].len() && (i < r || (i == r && j < c))
            && #[trigger] layout[i][j] == 0 {
        let (i, j) = choose|i: int, j: int|
            0 <= i < layout.len() && 0 <= j < layout[i].len() && (i < r || (i == r && j < c))
                && #[trigger] layout[i][j] == 0;
        lemma_first_zero_exists(layout, i, j);
    } else {
        let p = (r, c);
        assert(is_first_zero(layout, p.0, p.1));
    }
}

} // verus!
