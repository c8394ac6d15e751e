use npuzzle::board::{contains_cells, same_cells, Board, PlayAction};
use npuzzle::status::ErrorKind;

fn parse(text: &str) -> Result<String, ErrorKind> {
    Board::from_str(text).map(|b| b.to_text())
}

#[test]
fn new_board_is_the_spiral() {
    let board = Board::new(3, 3);
    assert_eq!(board.to_text(), "1 2 3 \n8 0 4 \n7 6 5 \n");
    assert!(board.is_solved());
    let board = Board::new(4, 4);
    assert_eq!(
        board.to_text(),
        " 1  2  3  4 \n12 13 14  5 \n11  0 15  6 \n10  9  8  7 \n"
    );
    let board = Board::new(1, 1);
    assert_eq!(board.to_text(), "0 \n");
    let board = Board::new(3, 2);
    assert_eq!(board.to_text(), "1 2 3 \n0 5 4 \n");
}

#[test]
fn possible_directions_follow_the_blank() {
    // blank in the centre of the spiral
    let board = Board::new(3, 3);
    assert_eq!(board.possible_directions(), vec![1, 7, 3, 5]);
    // blank in the first column of the second row
    let board = Board::new(3, 2);
    assert_eq!(board.possible_directions(), vec![0, 4]);
    let board = Board::new(1, 1);
    assert_eq!(board.possible_directions(), Vec::<usize>::new());
    // blank at the end of a single row
    let board = Board::new(4, 1);
    assert_eq!(board.possible_directions(), vec![2]);
    // blank at the end of a single column
    let board = Board::new(1, 3);
    assert_eq!(board.possible_directions(), vec![1]);
}

#[test]
fn get_move_reads_the_keys() {
    let mut board = Board::new(3, 3);
    assert_eq!(board.get_move("up"), Some(1));
    assert_eq!(board.get_move("u"), Some(1));
    assert_eq!(board.get_move("down"), Some(7));
    assert_eq!(board.get_move("d"), Some(7));
    assert_eq!(board.get_move("left"), Some(3));
    assert_eq!(board.get_move("l"), Some(3));
    assert_eq!(board.get_move("right"), Some(5));
    assert_eq!(board.get_move("r"), Some(5));
    assert_eq!(board.get_move("sideways"), None);
    assert_eq!(board.get_move(""), None);
    assert_eq!(board.get_move("UP"), None);
    let mut board = Board::new(3, 2);
    assert_eq!(board.get_move("down"), None);
    assert_eq!(board.get_move("left"), None);
    assert_eq!(board.get_move("up"), Some(0));
    assert_eq!(board.get_move("right"), Some(4));
}

#[test]
fn play_step_moves_and_reports() {
    let mut board = Board::new(3, 3);
    assert_eq!(board.play_step("help"), PlayAction::Help);
    assert_eq!(board.play_step("solution"), PlayAction::Solution);
    assert_eq!(board.play_step("nonsense"), PlayAction::Ignored);
    assert_eq!(board.to_text(), "1 2 3 \n8 0 4 \n7 6 5 \n");
    assert_eq!(board.play_step("up"), PlayAction::Moved);
    assert_eq!(board.to_text(), "1 0 3 \n8 2 4 \n7 6 5 \n");
    assert!(!board.is_solved());
    assert_eq!(board.play_step("u"), PlayAction::Ignored);
    assert_eq!(board.to_text(), "1 0 3 \n8 2 4 \n7 6 5 \n");
    assert_eq!(board.play_step("exit"), PlayAction::Exit);
    assert_eq!(board.play_step("d"), PlayAction::Moved);
    assert!(board.is_solved());
    assert_eq!(board.play_step("l"), PlayAction::Moved);
    assert_eq!(board.to_text(), "1 2 3 \n0 8 4 \n7 6 5 \n");
    assert_eq!(board.play_step("r"), PlayAction::Moved);
    assert_eq!(board.play_step("right"), PlayAction::Moved);
    assert_eq!(board.to_text(), "1 2 3 \n8 4 0 \n7 6 5 \n");
}

#[test]
fn solution_and_file_text() {
    let mut board = Board::new(3, 3);
    assert_eq!(board.play_step("up"), PlayAction::Moved);
    assert_eq!(
        board.show_solution(),
        "Expected Solution:\n1 2 3 \n8 0 4 \n7 6 5 \n"
    );
    assert_eq!(
        board.as_output_string(),
        "# N-puzzle board\n3\n1 0 3 \n8 2 4 \n7 6 5 \n"
    );
    let back = Board::from_str(&board.as_output_string()).unwrap();
    assert_eq!(back.to_text(), board.to_text());
    assert_eq!(back.possible_directions(), board.possible_directions());
    assert_eq!(back.show_solution(), board.show_solution());
}

#[test]
fn shuffle_of_zero_steps_changes_nothing() {
    let mut board = Board::new(4, 4);
    assert_eq!(board.shuffle(0), 0);
    assert!(board.is_solved());
}

#[test]
fn shuffle_takes_the_steps_asked_for() {
    // the shortest way back to a layout takes twelve slides
    for steps in [1usize, 2, 7, 11] {
        let mut board = Board::new(5, 5);
        assert_eq!(board.shuffle(steps), steps);
        let text = board.as_output_string();
        // what was scrambled is still a board
        assert!(Board::from_str(&text).is_ok());
    }
    let mut board = Board::new(3, 3);
    assert_eq!(board.shuffle(1), 1);
    assert!(!board.is_solved());
}

#[test]
fn shuffle_stops_when_cornered() {
    let mut board = Board::new(2, 1);
    assert_eq!(board.shuffle(10), 2);
    assert!(board.is_solved());
    let mut board = Board::new(1, 1);
    assert_eq!(board.shuffle(10), 0);
}

#[test]
fn try_moves_slides_the_first_novel_candidate() {
    let mut board = Board::new(3, 3);
    let up = vec![1, 0, 3, 8, 2, 4, 7, 6, 5];
    let down = vec![1, 2, 3, 8, 6, 4, 7, 0, 5];
    let left = vec![1, 2, 3, 0, 8, 4, 7, 6, 5];
    let right = vec![1, 2, 3, 8, 4, 0, 7, 6, 5];
    let candidates = board.possible_directions();
    let visited = vec![up.clone(), down.clone()];
    assert_eq!(board.try_moves(&candidates, &visited), Some(2));
    assert_eq!(board.to_text(), "1 2 3 \n0 8 4 \n7 6 5 \n");
    assert_eq!(board.possible_directions(), vec![0, 6, 4]);

    let mut board = Board::new(3, 3);
    let visited = vec![up, down, left, right];
    assert_eq!(board.try_moves(&candidates, &visited), None);
    assert!(board.is_solved());
    assert_eq!(board.possible_directions(), vec![1, 7, 3, 5]);
    assert_eq!(board.try_moves(&Vec::new(), &Vec::new()), None);
}

#[test]
fn cells_are_compared_by_content() {
    assert!(same_cells(&vec![1, 2, 0], &vec![1, 2, 0]));
    assert!(!same_cells(&vec![1, 2, 0], &vec![1, 0, 2]));
    assert!(!same_cells(&vec![1, 2, 0], &vec![1, 2]));
    assert!(contains_cells(&vec![vec![0, 1], vec![1, 0]], &vec![1, 0]));
    assert!(!contains_cells(&vec![vec![0, 1]], &vec![1, 0]));
}

#[test]
fn from_str_reads_a_board() {
    let text = "# a comment\n3\n1 2 3\n8 0 4 # the blank\n7 6 5\n";
    let board = Board::from_str(text).unwrap();
    assert_eq!(board.to_text(), "1 2 3 \n8 0 4 \n7 6 5 \n");
    assert!(board.is_solved());
    assert_eq!(board.possible_directions(), vec![1, 7, 3, 5]);
    let board = Board::from_str("\n\n  2  \n\t3 1\r\n\n0   2").unwrap();
    assert_eq!(board.to_text(), "3 1 \n0 2 \n");
    assert!(!board.is_solved());
    assert_eq!(board.possible_directions(), vec![0, 3]);
    assert_eq!(board.show_solution(), "Expected Solution:\n1 2 \n0 3 \n");
    let board = Board::from_str("1\n0").unwrap();
    assert_eq!(board.to_text(), "0 \n");
    // numbers may have leading zeros
    let board = Board::from_str("02\n00 01\n003 2").unwrap();
    assert_eq!(board.to_text(), "0 1 \n3 2 \n");
}

#[test]
fn from_str_reports_each_failure() {
    // no size before the rows
    assert_eq!(parse("1 2\n3 0\n"), Err(ErrorKind::InvalidNoSize));
    // a row of the wrong length
    assert_eq!(parse("2\n1 2 3\n0"), Err(ErrorKind::InvalidNoSize));
    assert_eq!(parse("3\n1 2 3\n4 5\n"), Err(ErrorKind::InvalidNoSize));
    // a size given twice
    assert_eq!(parse("2\n2\n0 1\n2 3"), Err(ErrorKind::InvalidNoSize));
    // a size that is no number
    assert_eq!(parse("x\n"), Err(ErrorKind::InvalidChar));
    assert_eq!(parse("-2\n"), Err(ErrorKind::InvalidChar));
    assert_eq!(parse("2.0\n"), Err(ErrorKind::InvalidChar));
    // a tile that is no number
    assert_eq!(parse("2\n1 a\n0 3"), Err(ErrorKind::InvalidChar));
    assert_eq!(parse("2\n1 +2\n0 3"), Err(ErrorKind::InvalidChar));
    // a tile out of range
    assert_eq!(parse("2\n1 4\n0 3"), Err(ErrorKind::InvalidValue));
    assert_eq!(parse("2\n1 2\n0 99999999999999999999999999"), Err(ErrorKind::InvalidValue));
    // a tile given twice
    assert_eq!(parse("2\n1 1\n0 3"), Err(ErrorKind::InvalidValue));
    assert_eq!(parse("2\n0 1\n2 3\n0 1"), Err(ErrorKind::InvalidValue));
    // a size too large for the machine
    assert_eq!(parse("99999999999999999999999999\n"), Err(ErrorKind::InvalidValue));
    // no blank
    assert_eq!(parse("2\n1 2\n"), Err(ErrorKind::InvalidNoZero));
    assert_eq!(parse(""), Err(ErrorKind::InvalidNoZero));
    assert_eq!(parse("# nothing here\n"), Err(ErrorKind::InvalidNoZero));
    assert_eq!(parse("0\n"), Err(ErrorKind::InvalidNoZero));
    // rows missing
    assert_eq!(parse("2\n0 1\n"), Err(ErrorKind::InvalidInput));
    assert_eq!(parse("3\n1 2 3\n8 0 4\n"), Err(ErrorKind::InvalidInput));
    // the first failure counts
    assert_eq!(parse("2\n1 a\n0 9"), Err(ErrorKind::InvalidChar));
    assert_eq!(parse("2\n1 9\n0 a"), Err(ErrorKind::InvalidValue));
    // a word of bytes that are no text of digits
    assert_eq!(parse("2\n1 \u{00b2}\n0 3"), Err(ErrorKind::InvalidChar));
}
