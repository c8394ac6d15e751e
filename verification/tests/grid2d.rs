use npuzzle::grid2d::{Coords, Direction, Grid2D};
use npuzzle::grid_traits::Grid;
use npuzzle::status::ErrorKind;

fn three_by_three() -> Vec<Vec<usize>> {
    vec![vec![0, 1, 2], vec![3, 4, 5], vec![6, 7, 8]]
}

#[test]
fn grid2d_basic() {
    let data: Vec<Vec<usize>> = vec![vec![0, 1, 2], vec![3, 4, 5], vec![6, 7, 8]];
    let mut grid = Grid2D::new();
    assert!(grid.from_2dvec(data.clone()).is_ok());
    assert!(grid.do_move(&Direction::Down).is_ok());
    assert!(grid.do_move(&Direction::Left).is_err());
    assert!(grid.undo_move(&Direction::Down).is_ok());
    assert!(grid.to_2dvec() == data);
    assert_eq!((3, 3), grid.dim());
    let ret = grid.get_value(Coords(1, 1));
    assert!(ret.is_ok());
    assert_eq!(4, ret.unwrap());
    assert!(grid.get_value(Coords(5, 5)).is_err());
    assert!(grid.set_value(Coords(5, 5), 99).is_err());
    assert!(grid.set_value(Coords(0, 0), 99).is_ok());
}

#[test]
fn new_grid_has_no_cell() {
    let grid = Grid2D::new();
    assert_eq!(grid.dim(), (0, 0));
    assert_eq!(grid.get_zero(), Coords(0, 0));
    assert!(grid.possible_moves().is_empty());
    assert!(!grid.in_bounds(Coords(0, 0)));
    assert_eq!(grid.get_value(Coords(0, 0)), Err(ErrorKind::OutOfBounds));
    assert_eq!(grid.to_text(), "Empty");
}

#[test]
fn with_capacity_waits_for_a_layout() {
    let grid = Grid2D::with_capacity(2, 3);
    assert_eq!(grid.dim(), (3, 2));
    assert_eq!(grid.to_2dvec(), vec![vec![0, 0, 0], vec![0, 0, 0]]);
    assert!(grid.in_bounds(Coords(1, 2)));
    assert!(!grid.in_bounds(Coords(2, 0)));
    assert!(!grid.in_bounds(Coords(0, 3)));
    assert!(!grid.in_bounds(Coords(-1, 0)));
    assert!(!grid.in_bounds(Coords(0, -1)));
}

#[test]
fn load_records_dimensions_and_blank() {
    let mut grid = Grid2D::new();
    assert_eq!(grid.from_2dvec(vec![vec![1, 2, 3], vec![4, 0, 5]]), Ok(()));
    assert_eq!(grid.dim(), (3, 2));
    assert_eq!(grid.get_zero(), Coords(1, 1));
}

#[test]
fn load_rejects_ragged_and_blankless_layouts() {
    let mut grid = Grid2D::new();
    assert_eq!(grid.from_2dvec(vec![vec![1, 2], vec![3]]), Err(ErrorKind::InvalidInput));
    assert_eq!(grid.from_2dvec(vec![vec![1, 2], vec![3, 4]]), Err(ErrorKind::InvalidNoZero));
    assert_eq!(grid.from_2dvec(Vec::new()), Err(ErrorKind::EmptyInput));
    assert_eq!(grid.from_2dvec(vec![vec![], vec![]]), Err(ErrorKind::InvalidNoZero));
    // a row that differs in length is refused wherever it stands
    assert_eq!(grid.from_2dvec(vec![vec![0, 1], vec![2]]), Err(ErrorKind::InvalidInput));
    assert_eq!(grid.from_2dvec(vec![vec![1], vec![0, 2]]), Err(ErrorKind::InvalidInput));
}

#[test]
fn failed_load_leaves_the_grid_unchanged() {
    let mut grid = Grid2D::new();
    assert!(grid.from_2dvec(three_by_three()).is_ok());
    assert!(grid.do_move(&Direction::Right).is_ok());
    let before = grid.to_2dvec();
    let blank = grid.get_zero();
    assert!(grid.from_2dvec(vec![vec![1, 2], vec![3]]).is_err());
    assert!(grid.from_2dvec(vec![vec![1, 2], vec![3, 4]]).is_err());
    assert!(grid.from_2dvec(Vec::new()).is_err());
    assert_eq!(grid.to_2dvec(), before);
    assert_eq!(grid.get_zero(), blank);
    assert_eq!(grid.dim(), (3, 3));
}

#[test]
fn load_keeps_the_first_of_several_blanks() {
    let mut grid = Grid2D::new();
    assert_eq!(grid.from_2dvec(vec![vec![1, 0], vec![0, 2]]), Ok(()));
    assert_eq!(grid.get_zero(), Coords(0, 1));
    assert_eq!(grid.from_2dvec(vec![vec![1, 2], vec![0, 0]]), Ok(()));
    assert_eq!(grid.get_zero(), Coords(1, 0));
}

#[test]
fn possible_moves_in_corner_edge_and_centre() {
    let mut grid = Grid2D::new();
    assert!(grid.from_2dvec(three_by_three()).is_ok());
    assert_eq!(grid.possible_moves(), vec![Direction::Down, Direction::Right]);
    assert!(grid.do_move(&Direction::Right).is_ok());
    assert_eq!(
        grid.possible_moves(),
        vec![Direction::Down, Direction::Right, Direction::Left]
    );
    assert!(grid.do_move(&Direction::Down).is_ok());
    assert_eq!(
        grid.possible_moves(),
        vec![Direction::Up, Direction::Down, Direction::Right, Direction::Left]
    );
}

#[test]
fn do_move_swaps_blank_and_tile() {
    let mut grid = Grid2D::new();
    assert!(grid.from_2dvec(three_by_three()).is_ok());
    assert_eq!(grid.do_move(&Direction::Down), Ok(()));
    assert_eq!(grid.to_2dvec(), vec![vec![3, 1, 2], vec![0, 4, 5], vec![6, 7, 8]]);
    assert_eq!(grid.get_zero(), Coords(1, 0));
    assert_eq!(grid.do_move(&Direction::Right), Ok(()));
    assert_eq!(grid.to_2dvec(), vec![vec![3, 1, 2], vec![4, 0, 5], vec![6, 7, 8]]);
    assert_eq!(grid.get_zero(), Coords(1, 1));
    assert_eq!(grid.do_move(&Direction::Up), Ok(()));
    assert_eq!(grid.to_2dvec(), vec![vec![3, 0, 2], vec![4, 1, 5], vec![6, 7, 8]]);
    assert_eq!(grid.do_move(&Direction::Left), Ok(()));
    assert_eq!(grid.to_2dvec(), vec![vec![0, 3, 2], vec![4, 1, 5], vec![6, 7, 8]]);
    assert_eq!(grid.get_zero(), Coords(0, 0));
}

#[test]
fn undo_restores_layout_and_blank_after_every_legal_move() {
    let mut grid = Grid2D::new();
    assert!(grid.from_2dvec(vec![vec![1, 2, 3], vec![4, 0, 5], vec![6, 7, 8]]).is_ok());
    for dir in Direction::iterator() {
        let before = grid.to_2dvec();
        let blank = grid.get_zero();
        assert_eq!(grid.do_move(&dir), Ok(()));
        assert_ne!(grid.to_2dvec(), before);
        assert_eq!(grid.undo_move(&dir), Ok(()));
        assert_eq!(grid.to_2dvec(), before);
        assert_eq!(grid.get_zero(), blank);
    }
}

#[test]
fn illegal_move_fails_and_changes_nothing() {
    let mut grid = Grid2D::new();
    assert!(grid.from_2dvec(three_by_three()).is_ok());
    let legal = grid.possible_moves();
    for dir in Direction::iterator() {
        if !legal.contains(&dir) {
            assert_eq!(grid.do_move(&dir), Err(ErrorKind::InvalidMove));
            assert_eq!(grid.to_2dvec(), three_by_three());
            assert_eq!(grid.get_zero(), Coords(0, 0));
        }
    }
    // undoing Down means moving Up, which the top row does not allow
    assert_eq!(grid.undo_move(&Direction::Down), Err(ErrorKind::InvalidMove));
    assert_eq!(grid.to_2dvec(), three_by_three());
}

#[test]
fn moves_on_a_grid_without_cells_fail() {
    let mut grid = Grid2D::new();
    for dir in Direction::iterator() {
        assert_eq!(grid.do_move(&dir), Err(ErrorKind::InvalidMove));
        assert_eq!(grid.undo_move(&dir), Err(ErrorKind::InvalidMove));
    }
}

#[test]
fn set_and_get_value_are_bounds_checked() {
    let mut grid = Grid2D::new();
    assert!(grid.from_2dvec(three_by_three()).is_ok());
    assert_eq!(grid.get_value(Coords(2, 1)), Ok(7));
    assert_eq!(grid.get_value(Coords(3, 0)), Err(ErrorKind::OutOfBounds));
    assert_eq!(grid.get_value(Coords(0, -1)), Err(ErrorKind::OutOfBounds));
    assert_eq!(grid.set_value(Coords(2, 1), 42), Ok(()));
    assert_eq!(grid.get_value(Coords(2, 1)), Ok(42));
    assert_eq!(grid.set_value(Coords(-1, 0), 42), Err(ErrorKind::OutOfBounds));
    assert_eq!(grid.to_2dvec(), vec![vec![0, 1, 2], vec![3, 4, 5], vec![6, 42, 8]]);
    // writing a cell does not move the cached blank
    assert_eq!(grid.get_zero(), Coords(0, 0));
}

#[test]
fn direction_offsets_and_opposites() {
    assert_eq!(Coords::from(Direction::Up), Coords(-1, 0));
    assert_eq!(Coords::from(Direction::Down), Coords(1, 0));
    assert_eq!(Coords::from(Direction::Right), Coords(0, 1));
    assert_eq!(Coords::from(Direction::Left), Coords(0, -1));
    for dir in Direction::iterator() {
        assert_eq!(dir.opposite().opposite(), dir);
        assert_ne!(dir.opposite(), dir);
        assert_eq!(Direction::try_from(Coords::from(dir)), Ok(dir));
        assert_eq!(Coords::from(dir) + Coords::from(dir.opposite()), Coords(0, 0));
    }
    assert_eq!(Direction::try_from(Coords(1, 1)), Err(ErrorKind::InvalidPoint));
    assert_eq!(Direction::try_from(Coords(0, 0)), Err(ErrorKind::InvalidPoint));
    assert_eq!(Direction::try_from(Coords(2, 0)), Err(ErrorKind::InvalidPoint));
    assert_eq!(
        Direction::iterator(),
        vec![Direction::Up, Direction::Down, Direction::Right, Direction::Left]
    );
}

#[test]
fn coords_add_and_sub() {
    assert_eq!(Coords(2, 3) + Coords(-1, 4), Coords(1, 7));
    assert_eq!(Coords(2, 3) - Coords(-1, 4), Coords(3, -1));
}

#[test]
fn grids_are_equal_when_their_layouts_are() {
    let mut a = Grid2D::new();
    let mut b = Grid2D::with_capacity(3, 3);
    assert!(a != b);
    assert!(a.from_2dvec(three_by_three()).is_ok());
    assert!(b.from_2dvec(three_by_three()).is_ok());
    assert!(a == b);
    assert!(b.do_move(&Direction::Down).is_ok());
    assert!(a != b);
    let c = b.duplicate();
    assert!(c == b);
    assert_eq!(c.get_zero(), b.get_zero());
    let d = b.clone();
    assert!(d == b);
}

#[test]
fn text_pads_every_cell() {
    let mut grid = Grid2D::new();
    assert!(grid.from_2dvec(three_by_three()).is_ok());
    assert_eq!(grid.to_text(), " 0 1 2\n 3 4 5\n 6 7 8\n");
    let mut wide = Grid2D::new();
    let rows = vec![
        vec![1, 2, 3, 4],
        vec![12, 13, 14, 5],
        vec![11, 0, 15, 6],
        vec![10, 9, 8, 7],
    ];
    assert!(wide.from_2dvec(rows).is_ok());
    assert_eq!(
        wide.to_text(),
        "  1  2  3  4\n 12 13 14  5\n 11  0 15  6\n 10  9  8  7\n"
    );
    // a tile longer than the field is written in full
    assert!(grid.set_value(Coords(0, 1), 12345).is_ok());
    assert_eq!(grid.to_text(), " 012345 2\n 3 4 5\n 6 7 8\n");
}

#[test]
fn validity_is_checked_cell_by_cell() {
    let mut grid = Grid2D::new();
    assert!(grid.is_valid());
    assert!(grid.from_2dvec(three_by_three()).is_ok());
    assert!(grid.is_valid());
    assert!(grid.do_move(&Direction::Down).is_ok());
    assert!(grid.is_valid());
    // a tile twice
    assert!(grid.set_value(Coords(2, 2), 7).is_ok());
    assert!(!grid.is_valid());
    // a tile out of range
    assert!(grid.set_value(Coords(2, 2), 9).is_ok());
    assert!(!grid.is_valid());
    assert!(grid.set_value(Coords(2, 2), 8).is_ok());
    assert!(grid.is_valid());
    // the blank away from its cached position
    assert!(grid.set_value(Coords(1, 0), 8).is_ok());
    assert!(grid.set_value(Coords(2, 2), 0).is_ok());
    assert!(!grid.is_valid());
    // two blanks load, and are found out
    assert!(grid.from_2dvec(vec![vec![1, 0], vec![0, 2]]).is_ok());
    assert!(!grid.is_valid());
    assert!(!Grid2D::with_capacity(2, 2).is_valid());
    assert!(Grid2D::with_capacity(1, 1).is_valid());
    assert!(Grid2D::with_capacity(0, 3).is_valid());
}

#[test]
fn moves_and_undos_along_a_path() {
    let mut grid = Grid2D::new();
    assert!(grid.from_2dvec(three_by_three()).is_ok());
    let path = [
        Direction::Down,
        Direction::Right,
        Direction::Down,
        Direction::Right,
        Direction::Up,
        Direction::Left,
        Direction::Up,
        Direction::Left,
    ];
    let mut layouts = vec![grid.to_2dvec()];
    for dir in path.iter() {
        assert_eq!(grid.do_move(dir), Ok(()));
        assert!(grid.is_valid());
        layouts.push(grid.to_2dvec());
    }
    for dir in path.iter().rev() {
        assert_eq!(layouts.pop(), Some(grid.to_2dvec()));
        assert_eq!(grid.undo_move(dir), Ok(()));
    }
    assert_eq!(grid.to_2dvec(), three_by_three());
    assert_eq!(grid.get_zero(), Coords(0, 0));
}
