use npuzzle::text::{
    count_digits, push_cells, push_decimal, push_flat, push_padded, push_rows, push_spaces,
    same_text,
};

#[test]
fn decimal_numbers() {
    let mut out = String::from("n=");
    push_decimal(&mut out, 0);
    push_decimal(&mut out, 7);
    push_decimal(&mut out, 120);
    assert_eq!(out, "n=07120");
    let mut out = String::new();
    push_decimal(&mut out, usize::MAX);
    assert_eq!(out, usize::MAX.to_string());
}

#[test]
fn digits_are_counted() {
    assert_eq!(count_digits(0), 0);
    assert_eq!(count_digits(9), 1);
    assert_eq!(count_digits(10), 2);
    assert_eq!(count_digits(99), 2);
    assert_eq!(count_digits(100), 3);
    assert_eq!(count_digits(u64::MAX), 20);
}

#[test]
fn padding_is_on_the_left() {
    let mut out = String::new();
    push_padded(&mut out, 5, 3);
    push_padded(&mut out, 123, 3);
    push_padded(&mut out, 1234, 3);
    push_padded(&mut out, 0, 2);
    push_padded(&mut out, 0, 0);
    assert_eq!(out, "  51231234 00");
    let mut out = String::from("x");
    push_spaces(&mut out, 3);
    push_spaces(&mut out, 0);
    assert_eq!(out, "x   ");
}

#[test]
fn rows_and_cells() {
    let mut out = String::new();
    push_cells(&mut out, &vec![1, 20, 3], 3);
    assert_eq!(out, "  1 20  3");
    let mut out = String::new();
    push_rows(&mut out, &vec![vec![1, 2], vec![3, 4]], 2);
    assert_eq!(out, " 1 2\n 3 4\n");
    let mut out = String::new();
    push_flat(&mut out, &vec![1, 2, 3, 4, 5], 2, 1);
    assert_eq!(out, "1 2 \n3 4 \n5 ");
}

#[test]
fn texts_are_compared_by_content() {
    assert!(same_text("up", "up"));
    assert!(!same_text("up", "u"));
    assert!(!same_text("up", "uq"));
    assert!(same_text("", ""));
    assert!(same_text("\u{e9}t\u{e9}", "\u{e9}t\u{e9}"));
    assert!(!same_text("\u{e9}", "e"));
}
