//! Decimal numbers as text: how boards are written out and read in.

use vstd::prelude::*;
use vstd::string::StrSliceExecFns;
use vstd::string::StringExecFns;

verus! {

/// The character of the decimal digit `d`.
pub open spec fn digit_char(d: int) -> char {
    if d == 0 {
        '0'
    } else if d == 1 {
        '1'
    } else if d == 2 {
        '2'
    } else if d == 3 {
        '3'
    } else if d == 4 {
        '4'
    } else if d == 5 {
        '5'
    } else if d == 6 {
        '6'
    } else if d == 7 {
        '7'
    } else if d == 8 {
        '8'
    } else {
        '9'
    }
}

/// `n` written in decimal, without leading zeros.
pub open spec fn decimal(n: nat) -> Seq<char>
    decreases n,
{
    if n < 10 {
        seq![digit_char(n as int)]
    } else {
        decimal(n / 10).push(digit_char((n % 10) as int))
    }
}

/// The number of decimal digits of `n`, where 0 has none.
pub open spec fn digit_count(n: nat) -> nat
    decreases n,
{
    if n == 0 {
        0
    } else {
        1 + digit_count(n / 10)
    }
}

/// `k` spaces.
pub open spec fn spaces(k: int) -> Seq<char> {
    Seq::new(
        if k > 0 {
            k as nat
        } else {
            0
        },
        |i: int| ' ',
    )
}

/// `n` in decimal, with spaces in front of it where it has fewer than
/// `width` digits.
pub open spec fn padded(n: nat, width: nat) -> Seq<char> {
    spaces(width - decimal(n).len()) + decimal(n)
}

/// A written number has as many characters as the number has digits, and
/// one where the number is 0.
pub proof fn lemma_decimal_len(n: nat)
    ensures
        decimal(n).len() == (if n == 0 {
            1
        } else {
            digit_count(n)
        }),
    decreases n,
{
    if n >= 10 {
        lemma_decimal_len(n / 10);
    } else if n > 0 {
        assert(digit_count(n / 10) == 0);
    }
}

/// The text of one decimal digit.
fn digit_str(d: usize) -> (s: &'static str)
    requires
        d < 10,
    ensures
        s@ == seq![digit_char(d as int)],
{
    proof {
        reveal_strlit("0");
        reveal_strlit("1");
        reveal_strlit("2");
        reveal_strlit("3");
        reveal_strlit("4");
        reveal_strlit("5");
        reveal_strlit("6");
        reveal_strlit("7");
        reveal_strlit("8");
        reveal_strlit("9");
    }
    let s = if d == 0 {
        "0"
    } else if d == 1 {
        "1"
    } else if d == 2 {
        "2"
    } else if d == 3 {
        "3"
    } else if d == 4 {
        "4"
    } else if d == 5 {
        "5"
    } else if d == 6 {
        "6"
    } else if d == 7 {
        "7"
    } else if d == 8 {
        "8"
    } else {
        "9"
    };
    assert(s@ =~= seq![digit_char(d as int)]);
    s
}

/// The largest number that is left of a 64-bit number after `k` of its
/// digits have been cut off.
pub open spec fn remainder_cap(k: nat) -> nat
    decreases k,
{
    if k == 0 {
        u64::MAX as nat
    } else {
        remainder_cap((k - 1) as nat) / 10
    }
}

/// A 64-bit number has at most 20 digits.
proof fn lemma_remainder_cap()
    ensures
        remainder_cap(20) == 0,
{
    reveal_with_fuel(remainder_cap, 21);
}

/// The number of decimal digits of `n`, where 0 has none.
pub fn count_digits(n: u64) -> (r: usize)
    ensures
        r == digit_count(n as nat),
        r <= 20,
{
    let mut longest: usize = 0;
    let mut rest = n;
    while rest != 0
        invariant
            longest + digit_count(rest as nat) == digit_count(n as nat),
            longest <= 20,
            rest <= remainder_cap(longest as nat),
        decreases rest,
    {
        proof {
            lemma_remainder_cap();
        }
        longest += 1;
        rest /= 10;
    }
    longest
}

/// Appends `n` in decimal to `out`.
pub fn push_decimal(out: &mut String, n: usize)
    ensures
        final(out)@ == old(out)@ + decimal(n as nat),
    decreases n,
{
    if n >= 10 {
        push_decimal(out, n / 10);
    }
    out.append(digit_str(n % 10));
    assert(out@ =~= old(out)@ + decimal(n as nat));
}

/// Appends `k` spaces to `out`.
pub fn push_spaces(out: &mut String, k: usize)
    ensures
        final(out)@ == old(out)@ + spaces(k as int),
{
    let mut i: usize = 0;
    assert(out@ =~= old(out)@ + spaces(0));
    while i < k
        invariant
            i <= k,
            out@ == old(out)@ + spaces(i as int),
        decreases k - i,
    {
        proof {
            reveal_strlit(" ");
        }
        out.append(" ");
        i += 1;
        assert(out@ =~= old(out)@ + spaces(i as int));
    }
}

/// Appends `n` in decimal to `out`, right-aligned in a field of `width`
/// characters.
pub fn push_padded(out: &mut String, n: usize, width: usize)
    ensures
        final(out)@ == old(out)@ + padded(n as nat, width as nat),
{
    proof {
        lemma_decimal_len(n as nat);
    }
    let digits = count_digits(n as u64);
    let len = if n == 0 {
        1
    } else {
        digits
    };
    if width > len {
        push_spaces(out, width - len);
    } else {
        assert(spaces(width - len) =~= Seq::<char>::empty());
        assert(out@ =~= old(out)@ + spaces(width - len));
    }
    push_decimal(out, n);
    assert(out@ =~= old(out)@ + padded(n as nat, width as nat));
}

/// The cells of `row` one after the other, each right-aligned in a field of
/// `field` characters.
pub open spec fn cells_text(row: Seq<usize>, field: nat) -> Seq<char>
    decreases row.len(),
{
    if row.len() == 0 {
        Seq::empty()
    } else {
        cells_text(row.drop_last(), field) + padded(row.last() as nat, field)
    }
}

/// The lines of `rows`: the cells of each row, then a line feed.
pub open spec fn rows_text(rows: Seq<Seq<usize>>, field: nat) -> Seq<char>
    decreases rows.len(),
{
    if rows.len() == 0 {
        Seq::empty()
    } else {
        rows_text(rows.drop_last(), field) + cells_text(rows.last(), field) + seq!['\n']
    }
}

/// Appends the cells of `row` to `out`, each right-aligned in a field of
/// `field` characters.
pub fn push_cells(out: &mut String, row: &Vec<usize>, field: usize)
    ensures
        final(out)@ == old(out)@ + cells_text(row@, field as nat),
{
    let mut c: usize = 0;
    assert(row@.take(0) =~= Seq::<usize>::empty());
    assert(out@ =~= old(out)@ + cells_text(row@.take(0), field as nat));
    while c < row.len()
        invariant
            c <= row.len(),
            out@ == old(out)@ + cells_text(row@.take(c as int), field as nat),
        decreases row.len() - c,
    {
        let ghost sofar = out@;
        push_padded(out, row[c], field);
        proof {
            let next = row@.take(c + 1);
            assert(next.drop_last() =~= row@.take(c as int));
            assert(next.last() == row@[c as int]);
            assert(out@ =~= old(out)@ + cells_text(next, field as nat));
        }
        c += 1;
    }
    assert(row@.take(row.len() as int) =~= row@);
}

/// Appends the lines of `rows` to `out`.
pub fn push_rows(out: &mut String, rows: &Vec<Vec<usize>>, field: usize)
    ensures
        final(out)@ == old(out)@ + rows_text(crate::grid_traits::rows_of(*rows), field as nat),
{
    let ghost all = crate::grid_traits::rows_of(*rows);
    let mut r: usize = 0;
    assert(all.take(0) =~= Seq::<Seq<usize>>::empty());
    assert(out@ =~= old(out)@ + rows_text(all.take(0), field as nat));
    while r < rows.len()
        invariant
            r <= rows.len(),
            all == crate::grid_traits::rows_of(*rows),
            out@ == old(out)@ + rows_text(all.take(r as int), field as nat),
        decreases rows.len() - r,
    {
        push_cells(out, &rows[r], field);
        proof {
            reveal_strlit("\n");
        }
        out.append("\n");
        proof {
            let next = all.take(r + 1);
            assert(next.drop_last() =~= all.take(r as int));
            assert(next.last() == rows@[r as int]@);
            assert("\n"@ =~= seq!['\n']);
            assert(out@ =~= old(out)@ + rows_text(next, field as nat));
        }
        r += 1;
    }
    assert(all.take(rows.len() as int) =~= all);
}

/// Whether two texts hold the same characters in the same order.
pub fn same_text(a: &str, b: &str) -> (r: bool)
    ensures
        r == (a@ == b@),
{
    let n = a.unicode_len();
    if n != b.unicode_len() {
        return false;
    }
    let mut i: usize = 0;
    while i < n
        invariant
            n == a@.len(),
            n == b@.len(),
            i <= n,
            forall|k: int| 0 <= k < i ==> #[trigger] a@[k] == b@[k],
        decreases n - i,
    {
        if a.get_char(i) != b.get_char(i) {
            return false;
        }
        i += 1;
    }
    assert(a@ =~= b@);
    true
}

/// The cells of a flat layout as lines of `width` cells: each cell
/// right-aligned in a field of `field` characters and followed by a space,
/// each full line closed by a line feed.
pub open spec fn flat_text(cells: Seq<usize>, width: int, field: nat) -> Seq<char>
    decreases cells.len(),
{
    if cells.len() == 0 {
        Seq::empty()
    } else {
        flat_text(cells.drop_last(), width, field) + padded(cells.last() as nat, field) + seq![' ']
            + (if (cells.len() - 1) % width == width - 1 {
            seq!['\n']
        } else {
            Seq::empty()
        })
    }
}

/// Appends the cells of a flat layout to `out` as lines of `width` cells.
pub fn push_flat(out: &mut String, cells: &Vec<usize>, width: usize, field: usize)
    requires
        width >= 1,
    ensures
        final(out)@ == old(out)@ + flat_text(cells@, width as int, field as nat),
{
    let mut i: usize = 0;
    assert(cells@.take(0) =~= Seq::<usize>::empty());
    assert(out@ =~= old(out)@ + flat_text(cells@.take(0), width as int, field as nat));
    while i < cells.len()
        invariant
            width >= 1,
            i <= cells.len(),
            out@ == old(out)@ + flat_text(cells@.take(i as int), width as int, field as nat),
        decreases cells.len() - i,
    {
        push_padded(out, cells[i], field);
        proof {
            reveal_strlit(" ");
            reveal_strlit("\n");
        }
        out.append(" ");
        if i % width == width - 1 {
            out.append("\n");
        }
        proof {
            let next = cells@.take(i + 1);
            assert(next.drop_last() =~= cells@.take(i as int));
            assert(next.last() == cells@[i as int]);
            assert(" "@ =~= seq![' ']);
            assert("\n"@ =~= seq!['\n']);
            assert(out@ =~= old(out)@ + flat_text(next, width as int, field as nat));
        }
        i += 1;
    }
    assert(cells@.take(cells.len() as int) =~= cells@);
}

} // verus!
