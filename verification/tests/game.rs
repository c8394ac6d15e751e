use npuzzle::game::{Game, TileMove};
use npuzzle::generator::{linesnn_template, PuzzleType};
use npuzzle::grid2d::{Coords, Direction};
use npuzzle::grid_traits::Grid;
use npuzzle::status::ErrorKind;

#[test]
fn unscrambled_game_is_solved() {
    let game = Game::start(3, PuzzleType::LinesNN, 0).unwrap();
    assert!(game.is_solved());
    assert_eq!(game.moves(), 0);
    assert_eq!(game.grid().to_2dvec(), linesnn_template(3, 3));
    assert_eq!(game.solution().to_2dvec(), linesnn_template(3, 3));
    assert_eq!(game.grid().get_zero(), Coords(2, 2));
}

#[test]
fn game_without_cells_cannot_start() {
    assert_eq!(Game::start(0, PuzzleType::Snail, 3).err(), Some(ErrorKind::EmptyInput));
}

#[test]
fn scrambled_game_keeps_its_goal() {
    let game = Game::start(5, PuzzleType::LinesNN, 100).unwrap();
    assert_eq!(game.solution().to_2dvec(), linesnn_template(5, 5));
    assert_eq!(game.grid().dim(), (5, 5));
    let blank = game.grid().get_zero();
    assert_eq!(game.grid().get_value(blank), Ok(0));
    let game = Game::start(4, PuzzleType::Snail, 1).unwrap();
    assert!(!game.is_solved());
}

#[test]
fn make_move_reports_the_tile_and_counts_every_request() {
    let mut game = Game::start(3, PuzzleType::LinesNN, 0).unwrap();
    // the blank is in the bottom right corner
    assert_eq!(game.make_move(Direction::Down), None);
    assert_eq!(game.make_move(Direction::Right), None);
    assert_eq!(game.moves(), 2);
    assert!(game.is_solved());
    assert_eq!(
        game.make_move(Direction::Up),
        Some(TileMove { value: 6, tile_to: Coords(2, 2), blank_to: Coords(1, 2) })
    );
    assert_eq!(game.moves(), 3);
    assert!(!game.is_solved());
    assert_eq!(
        game.grid().to_2dvec(),
        vec![vec![1, 2, 3], vec![4, 5, 0], vec![7, 8, 6]]
    );
    assert_eq!(
        game.make_move(Direction::Left),
        Some(TileMove { value: 5, tile_to: Coords(1, 2), blank_to: Coords(1, 1) })
    );
    assert_eq!(game.make_move(Direction::Right).map(|m| m.value), Some(5));
    assert_eq!(game.make_move(Direction::Down).map(|m| m.value), Some(6));
    assert!(game.is_solved());
    assert_eq!(game.moves(), 6);
}
