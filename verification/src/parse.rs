//! The text form of a board, byte by byte: lines, comments, words and
//! numbers.

use crate::status::ErrorKind;
use vstd::prelude::*;

verus! {

pub const LINE_FEED: u8 = 10;

pub const HASH: u8 = 35;

/// A byte that separates words: a space, a tab, a line feed, a vertical tab,
/// a form feed or a carriage return.
pub open spec fn is_space(b: u8) -> bool {
    b == 32 || (9 <= b && b <= 13)
}

/// A byte that is a decimal digit.
pub open spec fn is_digit(b: u8) -> bool {
    48 <= b && b <= 57
}

/// The lines of a text: what stands between its line feeds. A text without
/// a line feed is one line, and a text that ends in a line feed ends in an
/// empty line.
pub open spec fn lines(s: Seq<u8>) -> Seq<Seq<u8>>
    decreases s.len(),
{
    if s.len() == 0 {
        seq![Seq::<u8>::empty()]
    } else {
        let before = lines(s.drop_last());
        if s.last() == LINE_FEED {
            before.push(Seq::<u8>::empty())
        } else {
            before.drop_last().push(before.last().push(s.last()))
        }
    }
}

/// A line without its comment: what stands before its first `#`.
pub open spec fn clean(line: Seq<u8>) -> Seq<u8>
    decreases line.len(),
{
    if line.len() == 0 {
        line
    } else {
        let before = clean(line.drop_last());
        if before.len() < line.len() - 1 || line.last() == HASH {
            before
        } else {
            before.push(line.last())
        }
    }
}

/// The words of a line: its longest runs of bytes that are not spaces.
pub open spec fn words(s: Seq<u8>) -> Seq<Seq<u8>>
    decreases s.len(),
{
    if s.len() == 0 {
        Seq::empty()
    } else {
        let before = words(s.drop_last());
        if is_space(s.last()) {
            before
        } else if s.len() >= 2 && !is_space(s[s.len() - 2]) {
            before.drop_last().push(before.last().push(s.last()))
        } else {
            before.push(seq![s.last()])
        }
    }
}

/// Every byte of the word is a digit.
pub open spec fn all_digits(word: Seq<u8>) -> bool {
    forall|i: int| 0 <= i < word.len() ==> is_digit(#[trigger] word[i])
}

/// The number that the digits of `word` spell.
pub open spec fn value(word: Seq<u8>) -> nat
    decreases word.len(),
{
    if word.len() == 0 {
        0
    } else {
        value(word.drop_last()) * 10 + (word.last() - 48) as nat
    }
}

/// What a word says as a number.
pub enum Number {
    /// Some byte of the word is no digit.
    Malformed,
    /// The word is a number too large for the machine.
    TooLarge,
    /// The word is this number.
    Value(usize),
}

/// What `word` says as a number.
pub open spec fn number(word: Seq<u8>) -> Number {
    if !all_digits(word) {
        Number::Malformed
    } else if value(word) > usize::MAX {
        Number::TooLarge
    } else {
        Number::Value(value(word) as usize)
    }
}

/// The bytes of `v`.
pub open spec fn bytes_of(v: Vec<Vec<u8>>) -> Seq<Seq<u8>> {
    Seq::new(v@.len(), |i: int| v@[i]@)
}

/// Cuts a text into its lines.
pub fn split_lines(text: &[u8]) -> (r: Vec<Vec<u8>>)
    ensures
        bytes_of(r) == lines(text@),
{
    let mut done: Vec<Vec<u8>> = Vec::new();
    let mut current: Vec<u8> = Vec::new();
    let mut i: usize = 0;
    assert(text@.take(0) =~= Seq::<u8>::empty());
    assert(lines(text@.take(0)) =~= bytes_of(done).push(current@));
    while i < text.len()
        invariant
            i <= text.len(),
            lines(text@.take(i as int)) == bytes_of(done).push(current@),
        decreases text.len() - i,
    {
        let b = text[i];
        let ghost before = lines(text@.take(i as int));
        let ghost old_done = bytes_of(done);
        let ghost old_current = current@;
        proof {
            let next = text@.take(i + 1);
            assert(next.drop_last() =~= text@.take(i as int));
            assert(next.last() == b);
            assert(before.last() == old_current);
            assert(before.drop_last() =~= old_done);
        }
        if b == LINE_FEED {
            done.push(current);
            current = Vec::new();
            assert(bytes_of(done) =~= old_done.push(old_current));
        } else {
            current.push(b);
        }
        i += 1;
        assert(lines(text@.take(i as int)) =~= bytes_of(done).push(current@));
    }
    assert(text@.take(text.len() as int) =~= text@);
    let ghost old_done = bytes_of(done);
    let ghost last = current@;
    done.push(current);
    assert(bytes_of(done) =~= old_done.push(last));
    done
}

/// Cuts the comment off a line.
pub fn clean_line(line: &Vec<u8>) -> (r: Vec<u8>)
    ensures
        r@ == clean(line@),
{
    let mut kept: Vec<u8> = Vec::new();
    let mut i: usize = 0;
    assert(line@.take(0) =~= Seq::<u8>::empty());
    while i < line.len() && line[i] != HASH
        invariant
            i <= line.len(),
            kept@ == clean(line@.take(i as int)),
            kept@.len() == i,
        decreases line.len() - i,
    {
        proof {
            let next = line@.take(i + 1);
            assert(next.drop_last() =~= line@.take(i as int));
        }
        kept.push(line[i]);
        i += 1;
    }
    proof {
        lemma_clean_stops(line@, i as int);
    }
    kept
}

/// Once a line has reached its `#`, nothing more is kept of it.
pub proof fn lemma_clean_stops(line: Seq<u8>, i: int)
    requires
        0 <= i <= line.len(),
        clean(line.take(i)).len() == i,
        i < line.len() ==> line[i] == HASH,
    ensures
        clean(line) == clean(line.take(i)),
    decreases line.len() - i,
{
    lemma_clean_tail(line, i, line.len() as int);
    assert(line.take(line.len() as int) =~= line);
}

proof fn lemma_clean_tail(line: Seq<u8>, i: int, j: int)
    requires
        0 <= i <= j <= line.len(),
        clean(line.take(i)).len() == i,
        i < line.len() ==> line[i] == HASH,
    ensures
        clean(line.take(j)) == clean(line.take(i)),
    decreases j - i,
{
    if j > i {
        lemma_clean_tail(line, i, j - 1);
        let next = line.take(j);
        assert(next.drop_last() =~= line.take(j - 1));
        assert(next.last() == line[j - 1]);
    }
}

/// Cuts a line into its words.
pub fn split_words(line: &Vec<u8>) -> (r: Vec<Vec<u8>>)
    ensures
        bytes_of(r) == words(line@),
{
    let mut done: Vec<Vec<u8>> = Vec::new();
    let mut current: Vec<u8> = Vec::new();
    let mut in_word = false;
    let mut i: usize = 0;
    assert(line@.take(0) =~= Seq::<u8>::empty());
    assert(words(line@.take(0)) =~= bytes_of(done));
    while i < line.len()
        invariant
            i <= line.len(),
            in_word <==> (i > 0 && !is_space(line@[i - 1])),
            !in_word ==> current@.len() == 0,
            words(line@.take(i as int)) == (if in_word {
                bytes_of(done).push(current@)
            } else {
                bytes_of(done)
            }),
        decreases line.len() - i,
    {
        let b = line[i];
        let ghost before = words(line@.take(i as int));
        let ghost old_done = bytes_of(done);
        let ghost old_current = current@;
        proof {
            let next = line@.take(i + 1);
            assert(next.drop_last() =~= line@.take(i as int));
            assert(next.last() == b);
            if i > 0 {
                assert(next[next.len() - 2] == line@[i - 1]);
            }
            if in_word {
                assert(before.last() == old_current);
                assert(before.drop_last() =~= old_done);
            }
        }
        let ghost next = line@.take(i + 1);
        if b == 32 || (9 <= b && b <= 13) {
            assert(is_space(next.last()));
            assert(words(next) == before);
            if in_word {
                done.push(current);
                current = Vec::new();
                in_word = false;
                assert(bytes_of(done) =~= old_done.push(old_current));
            }
        } else {
            assert(!is_space(next.last()));
            if in_word {
                assert(words(next) == before.drop_last().push(before.last().push(b)));
            } else {
                assert(words(next) == before.push(seq![b]));
            }
            current.push(b);
            assert(bytes_of(done) =~= old_done);
            assert(current@ =~= old_current.push(b));
            if !in_word {
                assert(current@ =~= seq![b]);
            }
            in_word = true;
        }
        i += 1;
    }
    assert(line@.take(line.len() as int) =~= line@);
    if in_word {
        let ghost old_done = bytes_of(done);
        let ghost last = current@;
        done.push(current);
        assert(bytes_of(done) =~= old_done.push(last));
    }
    done
}

/// Reads a word as a number.
pub fn parse_number(word: &Vec<u8>) -> (r: Number)
    ensures
        r == number(word@),
{
    let mut acc: usize = 0;
    let mut overflow = false;
    let mut i: usize = 0;
    assert(word@.take(0) =~= Seq::<u8>::empty());
    while i < word.len()
        invariant
            i <= word.len(),
            all_digits(word@.take(i as int)),
            overflow ==> value(word@.take(i as int)) > usize::MAX,
            !overflow ==> acc == value(word@.take(i as int)),
        decreases word.len() - i,
    {
        let b = word[i];
        if !(48 <= b && b <= 57) {
            assert(!is_digit(word@[i as int]));
            return Number::Malformed;
        }
        proof {
            let next = word@.take(i + 1);
            assert(next.drop_last() =~= word@.take(i as int));
            assert(next.last() == b);
            assert forall|k: int| 0 <= k < next.len() implies is_digit(#[trigger] next[k]) by {
                if k < i {
                    assert(next[k] == word@.take(i as int)[k]);
                }
            }
        }
        if !overflow {
            match acc.checked_mul(10) {
                Some(tens) => match tens.checked_add((b - 48) as usize) {
                    Some(sum) => {
                        acc = sum;
                    },
                    None => {
                        overflow = true;
                    },
                },
                None => {
                    overflow = true;
                },
            }
        }
        i += 1;
    }
    assert(word@.take(word.len() as int) =~= word@);
    if overflow {
        Number::TooLarge
    } else {
        Number::Value(acc)
    }
}

/// What has been read of a board so far: its side, 0 while none was given,
/// and its tiles.
pub struct Reading {
    pub width: usize,
    pub data: Seq<usize>,
}

/// The tiles after the words of one row have been read behind `data`. A
/// word that is no number, a tile that is not below the number of cells and
/// a tile that was read before are errors, and the first error counts.
pub open spec fn read_row(data: Seq<usize>, row: Seq<Seq<u8>>, width: usize) -> Result<
    Seq<usize>,
    ErrorKind,
>
    decreases row.len(),
{
    if row.len() == 0 {
        Ok(data)
    } else {
        match read_row(data, row.drop_last(), width) {
            Err(e) => Err(e),
            Ok(d) => match number(row.last()) {
                Number::Malformed => Err(ErrorKind::InvalidChar),
                Number::TooLarge => Err(ErrorKind::InvalidValue),
                Number::Value(v) => if v < width * width && !d.contains(v) {
                    Ok(d.push(v))
                } else {
                    Err(ErrorKind::InvalidValue)
                },
            },
        }
    }
}

/// What has been read after one more line, given as its words. A line
/// without words changes nothing. While no side is known, a line of one
/// word gives the side. Once a side is known, a line of as many words as the
/// side is long is a row. Every other line is an error.
pub open spec fn read_line(st: Reading, ws: Seq<Seq<u8>>) -> Result<Reading, ErrorKind> {
    if ws.len() == 0 {
        Ok(st)
    } else if ws.len() == 1 && st.width == 0 {
        match number(ws[0]) {
            Number::Malformed => Err(ErrorKind::InvalidChar),
            Number::TooLarge => Err(ErrorKind::InvalidValue),
            Number::Value(n) => Ok(Reading { width: n, ..st }),
        }
    } else if st.width != 0 && ws.len() == st.width {
        match read_row(st.data, ws, st.width) {
            Ok(d) => Ok(Reading { data: d, ..st }),
            Err(e) => Err(e),
        }
    } else {
        Err(ErrorKind::InvalidNoSize)
    }
}

/// What has been read after all the lines `ls`, or the first error.
pub open spec fn read_lines(ls: Seq<Seq<u8>>) -> Result<Reading, ErrorKind>
    decreases ls.len(),
{
    if ls.len() == 0 {
        Ok(Reading { width: 0, data: Seq::empty() })
    } else {
        match read_lines(ls.drop_last()) {
            Err(e) => Err(e),
            Ok(st) => read_line(st, words(clean(ls.last()))),
        }
    }
}

/// An error in a row stays the error of every longer row.
pub proof fn lemma_row_error_sticks(
    data: Seq<usize>,
    row: Seq<Seq<u8>>,
    width: usize,
    i: int,
    e: ErrorKind,
)
    requires
        0 <= i <= row.len(),
        read_row(data, row.take(i), width) == Err::<Seq<usize>, ErrorKind>(e),
    ensures
        read_row(data, row, width) == Err::<Seq<usize>, ErrorKind>(e),
    decreases row.len() - i,
{
    if i < row.len() {
        assert(row.take(i + 1).drop_last() =~= row.take(i));
        lemma_row_error_sticks(data, row, width, i + 1, e);
    } else {
        assert(row.take(i) =~= row);
    }
}

/// An error in a line stays the error of every longer text.
pub proof fn lemma_lines_error_sticks(ls: Seq<Seq<u8>>, i: int, e: ErrorKind)
    requires
        0 <= i <= ls.len(),
        read_lines(ls.take(i)) == Err::<Reading, ErrorKind>(e),
    ensures
        read_lines(ls) == Err::<Reading, ErrorKind>(e),
    decreases ls.len() - i,
{
    if i < ls.len() {
        assert(ls.take(i + 1).drop_last() =~= ls.take(i));
        lemma_lines_error_sticks(ls, i + 1, e);
    } else {
        assert(ls.take(i) =~= ls);
    }
}

/// Whether `data` holds `v`.
pub fn has_value(data: &Vec<usize>, v: usize) -> (r: bool)
    ensures
        r == data@.contains(v),
{
    let mut i: usize = 0;
    while i < data.len()
        invariant
            i <= data.len(),
            forall|k: int| 0 <= k < i ==> #[trigger] data@[k] != v,
        decreases data.len() - i,
    {
        if data[i] == v {
            return true;
        }
        i += 1;
    }
    false
}

/// Reads the words of one row behind `data`. On an error `data` holds what
/// was read before it.
pub fn parse_row(data: &mut Vec<usize>, row: &Vec<Vec<u8>>, width: usize) -> (r: Result<
    (),
    ErrorKind,
>)
    ensures
        match read_row(old(data)@, bytes_of(*row), width) {
            Ok(d) => r is Ok && final(data)@ == d,
            Err(e) => r == Err::<(), ErrorKind>(e),
        },
{
    let ghost all = bytes_of(*row);
    let ghost start = data@;
    let bound: Option<usize> = width.checked_mul(width);
    let mut i: usize = 0;
    assert(all.take(0) =~= Seq::<Seq<u8>>::empty());
    while i < row.len()
        invariant
            i <= row.len(),
            all == bytes_of(*row),
            start == old(data)@,
            bound == (if width * width <= usize::MAX {
                Some((width * width) as usize)
            } else {
                None::<usize>
            }),
            read_row(start, all.take(i as int), width) == Ok::<Seq<usize>, ErrorKind>(data@),
        decreases row.len() - i,
    {
        proof {
            let next = all.take(i + 1);
            assert(next.drop_last() =~= all.take(i as int));
            assert(next.last() == row@[i as int]@);
        }
        let failure = match parse_number(&row[i]) {
            Number::Malformed => Some(ErrorKind::InvalidChar),
            Number::TooLarge => Some(ErrorKind::InvalidValue),
            Number::Value(val) => {
                let fits = match bound {
                    Some(cells) => val < cells,
                    None => true,
                };
                if fits && !has_value(data, val) {
                    data.push(val);
                    None
                } else {
                    Some(ErrorKind::InvalidValue)
                }
            },
        };
        match failure {
            Some(e) => {
                proof {
                    lemma_row_error_sticks(start, all, width, i + 1, e);
                }
                return Err(e);
            },
            None => {},
        }
        i += 1;
    }
    assert(all.take(row.len() as int) =~= all);
    Ok(())
}

/// What holds of everything read: no tile was read twice, every tile is
/// below the number of cells, and no tile was read before the side.
pub open spec fn tidy(st: Reading) -> bool {
    &&& st.data.no_duplicates()
    &&& forall|i: int| 0 <= i < st.data.len() ==> #[trigger] st.data[i] < st.width * st.width
    &&& st.width == 0 ==> st.data.len() == 0
}

/// A row that reads keeps what was read tidy.
pub proof fn lemma_read_row_tidy(data: Seq<usize>, row: Seq<Seq<u8>>, width: usize)
    requires
        tidy(Reading { width, data }),
        read_row(data, row, width) is Ok,
    ensures
        tidy(Reading { width, data: read_row(data, row, width)->Ok_0 }),
        read_row(data, row, width)->Ok_0.len() == data.len() + row.len(),
    decreases row.len(),
{
    if row.len() > 0 {
        lemma_read_row_tidy(data, row.drop_last(), width);
        let d = read_row(data, row.drop_last(), width)->Ok_0;
        let v = number(row.last())->Value_0;
        let e = d.push(v);
        assert(read_row(data, row, width)->Ok_0 == e);
        assert forall|i: int, j: int| 0 <= i < e.len() && 0 <= j < e.len() && i != j implies e[i]
            != e[j] by {
            if i < d.len() && j < d.len() {
                assert(d[i] != d[j]);
            } else if i < d.len() {
                assert(d.contains(d[i]));
            } else {
                assert(d.contains(d[j]));
            }
        }
    }
}

/// Lines that read leave what was read tidy.
pub proof fn lemma_read_lines_tidy(ls: Seq<Seq<u8>>)
    requires
        read_lines(ls) is Ok,
    ensures
        tidy(read_lines(ls)->Ok_0),
    decreases ls.len(),
{
    if ls.len() > 0 {
        lemma_read_lines_tidy(ls.drop_last());
        let st = read_lines(ls.drop_last())->Ok_0;
        let ws = words(clean(ls.last()));
        if ws.len() == 0 {
        } else if ws.len() == 1 && st.width == 0 {
        } else {
            lemma_read_row_tidy(st.data, ws, st.width);
        }
    }
}

} // verus!
