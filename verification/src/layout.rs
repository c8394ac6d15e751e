//! Layouts: the tile value of every cell of a rectangular board, and what it
//! means for a layout to be a proper tiling.

use crate::grid_traits::rows_of;
use vstd::prelude::*;

verus! {

/// `rows` has `height` rows of `width` cells each.
pub open spec fn rectangular(rows: Seq<Seq<usize>>, width: int, height: int) -> bool {
    &&& rows.len() == height
    &&& forall|r: int| 0 <= r < rows.len() ==> (#[trigger] rows[r]).len() == width
}

/// `(r, c)` names a cell of a `width` by `height` board.
pub open spec fn is_cell(r: int, c: int, width: int, height: int) -> bool {
    0 <= r < height && 0 <= c < width
}

/// Some cell of `rows` holds `value`.
pub open spec fn occurs(rows: Seq<Seq<usize>>, value: int) -> bool {
    exists|r: int, c: int|
        0 <= r < rows.len() && 0 <= c < rows[r].len() && #[trigger] rows[r][c] == value
}

/// No tile value is held by two different cells.
pub open spec fn distinct(rows: Seq<Seq<usize>>) -> bool {
    forall|r1: int, c1: int, r2: int, c2: int|
        0 <= r1 < rows.len() && 0 <= c1 < rows[r1].len() && 0 <= r2 < rows.len() && 0 <= c2
            < rows[r2].len() && #[trigger] rows[r1][c1] == #[trigger] rows[r2][c2] ==> r1 == r2
            && c1 == c2
}

/// Every cell holds a value below `bound`.
pub open spec fn below(rows: Seq<Seq<usize>>, bound: int) -> bool {
    forall|r: int, c: int|
        0 <= r < rows.len() && 0 <= c < rows[r].len() ==> #[trigger] rows[r][c] < bound
}

/// A proper tiling of a `width` by `height` board: the cells hold the
/// numbers `0 .. width * height`, each exactly once. So there is exactly one
/// blank, and the other cells hold a permutation of `1 .. width * height`.
pub open spec fn is_tiling(rows: Seq<Seq<usize>>, width: int, height: int) -> bool {
    &&& rectangular(rows, width, height)
    &&& below(rows, width * height)
    &&& distinct(rows)
    &&& forall|value: int| 0 <= value < width * height ==> #[trigger] occurs(rows, value)
}

/// The number of the cell `(r, c)` when the cells are counted row by row.
pub open spec fn row_major(width: int, r: int, c: int) -> int {
    r * width + c
}

/// Cell numbers stay below the number of cells.
pub proof fn lemma_row_major_bound(width: int, height: int, r: int, c: int)
    requires
        is_cell(r, c, width, height),
    ensures
        0 <= r * width <= row_major(width, r, c) < width * height,
        r * width + width <= width * height,
{
    assert(0 <= r * width && r * width + width <= width * height) by (nonlinear_arith)
        requires
            0 <= r < height,
            0 < width,
    ;
}

/// Different cells have different numbers.
pub proof fn lemma_row_major_unique(width: int, r1: int, c1: int, r2: int, c2: int)
    requires
        0 <= c1 < width,
        0 <= c2 < width,
        row_major(width, r1, c1) == row_major(width, r2, c2),
    ensures
        r1 == r2,
        c1 == c2,
{
    assert(r1 == r2) by (nonlinear_arith)
        requires
            0 <= c1 < width,
            0 <= c2 < width,
            r1 * width + c1 == r2 * width + c2,
    ;
}

/// Every number below the number of cells is the number of a cell.
pub proof fn lemma_row_major_cell(width: int, height: int, index: int)
    requires
        0 <= index < width * height,
        0 < width,
    ensures
        is_cell(index / width, index % width, width, height),
        row_major(width, index / width, index % width) == index,
{
    vstd::arithmetic::div_mod::lemma_fundamental_div_mod(index, width);
    vstd::arithmetic::div_mod::lemma_div_pos_is_pos(index, width);
    vstd::arithmetic::div_mod::lemma_mod_bound(index, width);
    let q = index / width;
    assert(q < height) by (nonlinear_arith)
        requires
            index == width * q + index % width,
            0 <= index % width,
            index < width * height,
            0 < width,
    ;
    assert(width * q == q * width) by (nonlinear_arith);
}

/// As many different numbers below `n` as there are numbers below `n` are
/// all the numbers below `n`.
pub proof fn lemma_all_occur(data: Seq<usize>, value: int)
    requires
        data.no_duplicates(),
        forall|i: int| 0 <= i < data.len() ==> #[trigger] data[i] < data.len(),
        0 <= value < data.len(),
    ensures
        exists|i: int| 0 <= i < data.len() && #[trigger] data[i] == value,
{
    let n = data.len() as int;
    let ints = Seq::new(data.len(), |i: int| data[i] as int);
    assert forall|i: int, j: int| 0 <= i < ints.len() && 0 <= j < ints.len() && i != j implies ints[i]
        != ints[j] by {
        assert(data[i] != data[j]);
    }
    ints.unique_seq_to_set();
    let range = vstd::set_lib::set_int_range(0, n);
    vstd::set_lib::lemma_int_range(0, n);
    assert forall|v: int| ints.to_set().contains(v) implies range.contains(v) by {
        let i = choose|i: int| 0 <= i < ints.len() && ints[i] == v;
        assert(data[i] < data.len());
    }
    vstd::set_lib::lemma_len_subset(ints.to_set(), range);
    vstd::set_lib::lemma_subset_equality(ints.to_set(), range);
    assert(range.contains(value));
    assert(ints.to_set().contains(value));
    let i = choose|i: int| 0 <= i < ints.len() && ints[i] == value;
    assert(data[i] == value);
}

/// The cells of a rectangle of `width` columns, row after row.
pub open spec fn flattened(rows: Seq<Seq<usize>>, width: int) -> Seq<usize> {
    Seq::new((rows.len() * width) as nat, |i: int| rows[i / width][i % width])
}

/// A rectangle whose cells hold different numbers, all below the number of
/// cells, is a proper tiling: no number is left out.
pub proof fn lemma_distinct_is_tiling(rows: Seq<Seq<usize>>, width: int, height: int)
    requires
        0 <= width,
        0 <= height,
        rectangular(rows, width, height),
        below(rows, width * height),
        distinct(rows),
    ensures
        is_tiling(rows, width, height),
{
    let n = width * height;
    assert(height * width == n) by (nonlinear_arith)
        requires
            n == width * height,
    ;
    if n > 0 {
        assert(0 < width) by (nonlinear_arith)
            requires
                0 <= width,
                0 < width * height,
        ;
        let flat = flattened(rows, width);
        assert forall|i: int| 0 <= i < flat.len() implies is_cell(i / width, i % width, width, height)
            && #[trigger] flat[i] == rows[i / width][i % width] by {
            lemma_row_major_cell(width, height, i);
        }
        assert forall|i: int| 0 <= i < flat.len() implies #[trigger] flat[i] < flat.len() by {
            lemma_row_major_cell(width, height, i);
            assert(rows[i / width][i % width] < n);
        }
        assert forall|i: int, j: int| 0 <= i < flat.len() && 0 <= j < flat.len() && i != j implies flat[i]
            != flat[j] by {
            lemma_row_major_cell(width, height, i);
            lemma_row_major_cell(width, height, j);
            if flat[i] == flat[j] {
                assert(rows[i / width][i % width] == rows[j / width][j % width]);
            }
        }
        assert forall|value: int| 0 <= value < n implies #[trigger] occurs(rows, value) by {
            lemma_all_occur(flat, value);
            let i = choose|i: int| 0 <= i < flat.len() && #[trigger] flat[i] == value;
            lemma_row_major_cell(width, height, i);
            assert(rows[i / width][i % width] == value);
        }
    }
}

/// `rows` with the cell `(r, c)` overwritten by `value`.
pub open spec fn with_cell(rows: Seq<Seq<usize>>, r: int, c: int, value: usize) -> Seq<
    Seq<usize>,
> {
    rows.update(r, rows[r].update(c, value))
}

/// `rows` with the contents of two cells exchanged.
pub open spec fn exchanged(rows: Seq<Seq<usize>>, r1: int, c1: int, r2: int, c2: int) -> Seq<
    Seq<usize>,
> {
    with_cell(with_cell(rows, r1, c1, rows[r2][c2]), r2, c2, rows[r1][c1])
}

/// Exchanging two cells of a tiling gives a tiling.
pub proof fn lemma_exchange_keeps_tiling(
    rows: Seq<Seq<usize>>,
    width: int,
    height: int,
    r1: int,
    c1: int,
    r2: int,
    c2: int,
)
    requires
        is_tiling(rows, width, height),
        is_cell(r1, c1, width, height),
        is_cell(r2, c2, width, height),
    ensures
        is_tiling(exchanged(rows, r1, c1, r2, c2), width, height),
{
    let after = exchanged(rows, r1, c1, r2, c2);
    // Where each cell of `after` takes its value from.
    assert forall|r: int, c: int| is_cell(r, c, width, height) implies #[trigger] after[r][c] == (
    if r == r2 && c == c2 {
        rows[r1][c1]
    } else if r == r1 && c == c1 {
        rows[r2][c2]
    } else {
        rows[r][c]
    }) by {}
    assert(rectangular(after, width, height));
    assert(below(after, width * height)) by {
        assert forall|r: int, c: int|
            0 <= r < after.len() && 0 <= c < after[r].len() implies #[trigger] after[r][c] < width
            * height by {
            assert(is_cell(r, c, width, height));
            assert(rows[r1][c1] < width * height);
            assert(rows[r2][c2] < width * height);
            assert(rows[r][c] < width * height);
        }
    }
    assert(distinct(after)) by {
        assert forall|ra: int, ca: int, rb: int, cb: int|
            0 <= ra < after.len() && 0 <= ca < after[ra].len() && 0 <= rb < after.len() && 0 <= cb
                < after[rb].len() && #[trigger] after[ra][ca] == #[trigger] after[rb][cb] implies ra
            == rb && ca == cb by {
            assert(is_cell(ra, ca, width, height));
            assert(is_cell(rb, cb, width, height));
            // Source cells of the two values in `rows`.
            let (sra, sca) = if ra == r2 && ca == c2 {
                (r1, c1)
            } else if ra == r1 && ca == c1 {
                (r2, c2)
            } else {
                (ra, ca)
            };
            let (srb, scb) = if rb == r2 && cb == c2 {
                (r1, c1)
            } else if rb == r1 && cb == c1 {
                (r2, c2)
            } else {
                (rb, cb)
            };
            assert(after[ra][ca] == rows[sra][sca]);
            assert(after[rb][cb] == rows[srb][scb]);
            assert(sra == srb && sca == scb);
        }
    }
    assert forall|value: int| 0 <= value < width * height implies #[trigger] occurs(
        after,
        value,
    ) by {
        assert(occurs(rows, value));
        let (r, c) = choose|r: int, c: int|
            0 <= r < rows.len() && 0 <= c < rows[r].len() && #[trigger] rows[r][c] == value;
        let (tr, tc) = if r == r1 && c == c1 {
            (r2, c2)
        } else if r == r2 && c == c2 {
            (r1, c1)
        } else {
            (r, c)
        };
        assert(is_cell(tr, tc, width, height));
        assert(after[tr][tc] == value);
    }
}

/// A copy of `row`.
pub fn copy_row(row: &Vec<usize>) -> (r: Vec<usize>)
    ensures
        r@ == row@,
{
    let mut r: Vec<usize> = Vec::with_capacity(row.len());
    let mut c: usize = 0;
    while c < row.len()
        invariant
            c <= row.len(),
            r@ == row@.take(c as int),
        decreases row.len() - c,
    {
        r.push(row[c]);
        assert(r@ =~= row@.take(c + 1));
        c += 1;
    }
    assert(row@.take(row.len() as int) =~= row@);
    r
}

/// A copy of `data`, row by row.
pub fn copy_layout(data: &Vec<Vec<usize>>) -> (r: Vec<Vec<usize>>)
    ensures
        rows_of(r) == rows_of(*data),
{
    let mut r: Vec<Vec<usize>> = Vec::with_capacity(data.len());
    let mut i: usize = 0;
    while i < data.len()
        invariant
            i <= data.len(),
            r@.len() == i,
            forall|k: int| 0 <= k < i ==> (#[trigger] r@[k])@ == data@[k]@,
        decreases data.len() - i,
    {
        let row = copy_row(&data[i]);
        r.push(row);
        i += 1;
    }
    assert(rows_of(r) =~= rows_of(*data));
    r
}

/// Whether two vectors of rows hold the same layout.
pub fn same_layout(a: &Vec<Vec<usize>>, b: &Vec<Vec<usize>>) -> (r: bool)
    ensures
        r == (rows_of(*a) == rows_of(*b)),
{
    if a.len() != b.len() {
        assert(rows_of(*a).len() != rows_of(*b).len());
        return false;
    }
    let mut i: usize = 0;
    while i < a.len()
        invariant
            a.len() == b.len(),
            i <= a.len(),
            forall|k: int| 0 <= k < i ==> (#[trigger] a@[k])@ == b@[k]@,
        decreases a.len() - i,
    {
        if a[i].len() != b[i].len() {
            assert(rows_of(*a)[i as int].len() != rows_of(*b)[i as int].len());
            return false;
        }
        let mut j: usize = 0;
        while j < a[i].len()
            invariant
                i < a.len(),
                a.len() == b.len(),
                a@[i as int]@.len() == b@[i as int]@.len(),
                j <= a@[i as int]@.len(),
                forall|k: int| 0 <= k < j ==> (#[trigger] a@[i as int]@[k]) == b@[i as int]@[k],
            decreases a@[i as int]@.len() - j,
        {
            if a[i][j] != b[i][j] {
                assert(rows_of(*a)[i as int][j as int] != rows_of(*b)[i as int][j as int]);
                return false;
            }
            j += 1;
        }
        assert(a@[i as int]@ =~= b@[i as int]@);
        i += 1;
    }
    assert(rows_of(*a) =~= rows_of(*b));
    true
}

} // verus!
