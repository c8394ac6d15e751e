use npuzzle::launcher::{Launcher, PuzzleMode};
use npuzzle::status::ErrorKind;

#[test]
fn modes_have_names() {
    assert_eq!(PuzzleMode::as_str_array(), &["play", "solve", "generate"]);
    assert_eq!(PuzzleMode::from_str("play"), Some(PuzzleMode::Play));
    assert_eq!(PuzzleMode::from_str("solve"), Some(PuzzleMode::Solve));
    assert_eq!(PuzzleMode::from_str("generate"), Some(PuzzleMode::Generate));
    assert_eq!(PuzzleMode::from_str("Play"), None);
    assert_eq!(PuzzleMode::from_str(""), None);
    assert_eq!(PuzzleMode::from_str("plays"), None);
    for name in PuzzleMode::as_str_array() {
        assert_eq!(PuzzleMode::from_str(name).unwrap().as_str(), *name);
    }
}

#[test]
fn launcher_keeps_its_options() {
    let options = Launcher::with_options(PuzzleMode::Play, Some(4), Some(9), None);
    assert_eq!(options.get_mode(), PuzzleMode::Play);
    assert_eq!(options.get_size(), Some(4));
    assert_eq!(options.get_iterations(), Some(9));
    assert_eq!(options.get_input_file(), None);
    let options =
        Launcher::with_options(PuzzleMode::Solve, None, None, Some(String::from("board.txt")));
    assert_eq!(options.get_mode(), PuzzleMode::Solve);
    assert_eq!(options.get_input_file(), Some(&String::from("board.txt")));
}

#[test]
fn launcher_generates_a_board() {
    let options = Launcher::with_options(PuzzleMode::Generate, Some(3), Some(0), None);
    let board = options.get_board("").unwrap();
    assert_eq!(board.to_text(), "1 2 3 \n8 0 4 \n7 6 5 \n");
    assert!(board.is_solved());
    let options = Launcher::with_options(PuzzleMode::Generate, Some(4), Some(15), None);
    let board = options.get_board("this text is not read").unwrap();
    assert_eq!(
        board.show_solution(),
        "Expected Solution:\n 1  2  3  4 \n12 13 14  5 \n11  0 15  6 \n10  9  8  7 \n"
    );
    assert!(npuzzle::board::Board::from_str(&board.as_output_string()).is_ok());
}

#[test]
fn launcher_reads_a_board() {
    let options =
        Launcher::with_options(PuzzleMode::Play, None, None, Some(String::from("board.txt")));
    let board = options.get_board("2\n1 2\n3 0\n").unwrap();
    assert_eq!(board.to_text(), "1 2 \n3 0 \n");
    assert_eq!(
        options.get_board("2\n1 2\n3 4\n").err(),
        Some(ErrorKind::InvalidValue)
    );
    assert_eq!(options.get_board("").err(), Some(ErrorKind::InvalidNoZero));
    // a file takes precedence over a size
    let options =
        Launcher::with_options(PuzzleMode::Play, Some(3), Some(0), Some(String::from("b")));
    assert_eq!(options.get_board("1\n0").unwrap().to_text(), "0 \n");
}
