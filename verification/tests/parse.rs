use npuzzle::parse::{
    clean_line, has_value, parse_number, parse_row, split_lines, split_words, Number,
};
use npuzzle::status::ErrorKind;

fn bytes(s: &str) -> Vec<u8> {
    s.as_bytes().to_vec()
}

fn texts(v: Vec<Vec<u8>>) -> Vec<String> {
    v.into_iter().map(|b| String::from_utf8(b).unwrap()).collect()
}

#[test]
fn lines_are_cut_at_line_feeds() {
    assert_eq!(texts(split_lines(b"a\nbc\n\nd")), vec!["a", "bc", "", "d"]);
    assert_eq!(texts(split_lines(b"")), vec![""]);
    assert_eq!(texts(split_lines(b"abc")), vec!["abc"]);
    assert_eq!(texts(split_lines(b"abc\n")), vec!["abc", ""]);
    assert_eq!(texts(split_lines(b"\n")), vec!["", ""]);
}

#[test]
fn comments_are_cut_off() {
    assert_eq!(clean_line(&bytes("1 2 # three")), bytes("1 2 "));
    assert_eq!(clean_line(&bytes("# all of it")), bytes(""));
    assert_eq!(clean_line(&bytes("none of it")), bytes("none of it"));
    assert_eq!(clean_line(&bytes("a#b#c")), bytes("a"));
    assert_eq!(clean_line(&bytes("")), bytes(""));
}

#[test]
fn words_are_runs_without_spaces() {
    assert_eq!(texts(split_words(&bytes("  12 3\t45  "))), vec!["12", "3", "45"]);
    assert_eq!(texts(split_words(&bytes("one"))), vec!["one"]);
    assert_eq!(texts(split_words(&bytes(" \t\r "))), Vec::<String>::new());
    assert_eq!(texts(split_words(&bytes(""))), Vec::<String>::new());
    assert_eq!(texts(split_words(&bytes("a b"))), vec!["a", "b"]);
}

fn number(s: &str) -> Option<Result<usize, ()>> {
    match parse_number(&bytes(s)) {
        Number::Malformed => None,
        Number::TooLarge => Some(Err(())),
        Number::Value(v) => Some(Ok(v)),
    }
}

#[test]
fn numbers_are_read_in_decimal() {
    assert_eq!(number("0"), Some(Ok(0)));
    assert_eq!(number("42"), Some(Ok(42)));
    assert_eq!(number("007"), Some(Ok(7)));
    assert_eq!(number("1234567890"), Some(Ok(1234567890)));
    assert_eq!(number(&usize::MAX.to_string()), Some(Ok(usize::MAX)));
    assert_eq!(number("340282366920938463463374607431768211456"), Some(Err(())));
    assert_eq!(number("12a"), None);
    assert_eq!(number("-1"), None);
    assert_eq!(number("340282366920938463463374607431768211456x"), None);
    assert_eq!(number(""), Some(Ok(0)));
}

#[test]
fn rows_are_read_behind_the_tiles() {
    let row = split_words(&bytes("3 0 1"));
    let mut data = vec![2];
    assert_eq!(parse_row(&mut data, &row, 2), Ok(()));
    assert_eq!(data, vec![2, 3, 0, 1]);
    let mut data = vec![3];
    assert_eq!(parse_row(&mut data, &row, 2), Err(ErrorKind::InvalidValue));
    let mut data = Vec::new();
    let row = split_words(&bytes("1 4"));
    assert_eq!(parse_row(&mut data, &row, 2), Err(ErrorKind::InvalidValue));
    let row = split_words(&bytes("1 x"));
    let mut data = Vec::new();
    assert_eq!(parse_row(&mut data, &row, 2), Err(ErrorKind::InvalidChar));
    assert!(has_value(&vec![1, 2, 3], 2));
    assert!(!has_value(&vec![1, 2, 3], 4));
}
