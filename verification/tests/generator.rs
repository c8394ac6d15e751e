use npuzzle::generator::{
    advance, contains_layout, lines00_template, linesnn_template, snail_template, Generator,
    PuzzleType,
};
use npuzzle::grid2d::{Coords, Direction, Grid2D};
use npuzzle::grid_traits::Grid;
use npuzzle::status::ErrorKind;

#[test]
fn test_snail_template() {
    let g = snail_template(5, 5);
    let mut expected: Vec<Vec<usize>> = Vec::with_capacity(5);
    expected.push(vec![1, 2, 3, 4, 5]);
    expected.push(vec![16, 17, 18, 19, 6]);
    expected.push(vec![15, 24, 0, 20, 7]);
    expected.push(vec![14, 23, 22, 21, 8]);
    expected.push(vec![13, 12, 11, 10, 9]);
    assert_eq!(expected, g);
}

#[test]
fn test_lines00_template() {
    let g = lines00_template(5, 5);
    let mut expected: Vec<Vec<usize>> = Vec::with_capacity(5);
    expected.push(vec![0, 1, 2, 3, 4]);
    expected.push(vec![5, 6, 7, 8, 9]);
    expected.push(vec![10, 11, 12, 13, 14]);
    expected.push(vec![15, 16, 17, 18, 19]);
    expected.push(vec![20, 21, 22, 23, 24]);
    assert_eq!(expected, g);
}

#[test]
fn test_sn_template() {
    let g = linesnn_template(5, 5);
    let mut expected: Vec<Vec<usize>> = Vec::with_capacity(5);
    expected.push(vec![1, 2, 3, 4, 5]);
    expected.push(vec![6, 7, 8, 9, 10]);
    expected.push(vec![11, 12, 13, 14, 15]);
    expected.push(vec![16, 17, 18, 19, 20]);
    expected.push(vec![21, 22, 23, 24, 0]);
    assert_eq!(expected, g);
}

#[test]
fn test_grid2d() {
    let g = Grid2D::with_capacity(5, 5);
    let mut gen = Generator::new(g, PuzzleType::Snail);
    assert!(gen.generate_solution().is_ok());
    println!("{}", gen.get_grid().to_text());
}

#[test]
fn lines00_three_by_three() {
    assert_eq!(
        PuzzleType::Lines00.get_template(3, 3),
        vec![vec![0, 1, 2], vec![3, 4, 5], vec![6, 7, 8]]
    );
}

#[test]
fn get_template_picks_the_fill_order() {
    assert_eq!(PuzzleType::Snail.get_template(5, 5), snail_template(5, 5));
    assert_eq!(PuzzleType::Lines00.get_template(4, 3), lines00_template(4, 3));
    assert_eq!(PuzzleType::LinesNN.get_template(4, 3), linesnn_template(4, 3));
}

#[test]
fn snail_on_rectangles_and_lines() {
    assert_eq!(snail_template(3, 2), vec![vec![1, 2, 3], vec![0, 5, 4]]);
    assert_eq!(snail_template(2, 3), vec![vec![1, 2], vec![0, 3], vec![5, 4]]);
    assert_eq!(
        snail_template(4, 3),
        vec![vec![1, 2, 3, 4], vec![10, 11, 0, 5], vec![9, 8, 7, 6]]
    );
    assert_eq!(
        snail_template(4, 4),
        vec![vec![1, 2, 3, 4], vec![12, 13, 14, 5], vec![11, 0, 15, 6], vec![10, 9, 8, 7]]
    );
    assert_eq!(snail_template(2, 2), vec![vec![1, 2], vec![0, 3]]);
    assert_eq!(snail_template(1, 1), vec![vec![0]]);
    assert_eq!(snail_template(4, 1), vec![vec![1, 2, 3, 0]]);
    assert_eq!(snail_template(1, 3), vec![vec![1], vec![2], vec![0]]);
}

#[test]
fn templates_without_cells() {
    let none: Vec<Vec<usize>> = Vec::new();
    let two_empty_rows: Vec<Vec<usize>> = vec![vec![], vec![]];
    for kind in [PuzzleType::Snail, PuzzleType::Lines00, PuzzleType::LinesNN] {
        assert_eq!(kind.get_template(3, 0), none);
        assert_eq!(kind.get_template(0, 2), two_empty_rows);
    }
}

#[test]
fn linesnn_rectangle() {
    assert_eq!(linesnn_template(3, 2), vec![vec![1, 2, 3], vec![4, 5, 0]]);
    assert_eq!(lines00_template(2, 3), vec![vec![0, 1], vec![2, 3], vec![4, 5]]);
}

fn is_permutation(layout: &Vec<Vec<usize>>, width: usize, height: usize) -> bool {
    let mut count = vec![0usize; width * height];
    if layout.len() != height {
        return false;
    }
    for row in layout {
        if row.len() != width {
            return false;
        }
        for &v in row {
            if v >= width * height {
                return false;
            }
            count[v] += 1;
        }
    }
    count.iter().all(|&c| c == 1)
}

#[test]
fn every_template_is_a_permutation() {
    for width in 2..9 {
        for height in 2..9 {
            for kind in [PuzzleType::Snail, PuzzleType::Lines00, PuzzleType::LinesNN] {
                let layout = kind.get_template(width, height);
                assert!(is_permutation(&layout, width, height));
            }
        }
    }
}

#[test]
fn generate_solution_loads_the_goal() {
    let mut gen = Generator::new(Grid2D::with_capacity(3, 4), PuzzleType::LinesNN);
    assert_eq!(gen.generate_solution(), Ok(()));
    let grid = gen.get_grid();
    assert_eq!(grid.dim(), (4, 3));
    assert_eq!(grid.to_2dvec(), linesnn_template(4, 3));
    assert_eq!(grid.get_zero(), Coords(2, 3));
}

#[test]
fn generate_solution_fails_without_cells() {
    let mut gen = Generator::new(Grid2D::new(), PuzzleType::Snail);
    assert_eq!(gen.generate_solution(), Err(ErrorKind::EmptyInput));
    assert_eq!(gen.generate_random(5), Err(ErrorKind::EmptyInput));
    let mut gen = Generator::new(Grid2D::with_capacity(2, 0), PuzzleType::Lines00);
    assert_eq!(gen.generate_solution(), Err(ErrorKind::InvalidNoZero));
    assert_eq!(gen.get_grid().dim(), (0, 2));
}

#[test]
fn scramble_of_zero_steps_returns_the_goal() {
    let mut gen = Generator::new(Grid2D::with_capacity(4, 4), PuzzleType::Snail);
    assert_eq!(gen.generate_solution(), Ok(()));
    let goal = gen.get_grid();
    assert_eq!(gen.shuffle(0), 0);
    assert!(gen.get_grid() == goal);
    assert_eq!(gen.get_grid().get_zero(), goal.get_zero());
    assert_eq!(gen.generate_random(0), Ok(0));
    assert!(gen.get_grid() == goal);
}

/// Replays a scramble one step at a time and collects the layouts it shows.
fn walk(kind: PuzzleType, size: usize, steps: usize) -> (Vec<Vec<usize>>, Vec<Vec<Vec<usize>>>) {
    let mut gen = Generator::new(Grid2D::with_capacity(size, size), kind);
    assert_eq!(gen.generate_solution(), Ok(()));
    let goal = gen.get_grid().to_2dvec();
    let mut shown = Vec::new();
    let mut grid = gen.get_grid();
    for _ in 0..steps {
        let candidates = grid.possible_moves();
        match advance(&mut grid, &candidates, &shown) {
            Some(_) => shown.push(grid.to_2dvec()),
            None => break,
        }
    }
    (goal, shown)
}

#[test]
fn scramble_takes_the_steps_asked_for() {
    // the shortest way back to a layout takes twelve moves, so that no walk
    // of fewer steps can be stuck
    for kind in [PuzzleType::Snail, PuzzleType::Lines00, PuzzleType::LinesNN] {
        for steps in [1usize, 2, 5, 10, 11] {
            let mut gen = Generator::new(Grid2D::with_capacity(5, 5), kind);
            assert_eq!(gen.generate_random(steps), Ok(steps));
            let grid = gen.get_grid();
            assert!(grid.is_valid());
            assert!(is_permutation(&grid.to_2dvec(), 5, 5));
            let blank = grid.get_zero();
            assert_eq!(grid.get_value(blank), Ok(0));
        }
    }
}

#[test]
fn long_scramble_stays_within_its_budget() {
    let mut gen = Generator::new(Grid2D::with_capacity(5, 5), PuzzleType::LinesNN);
    let taken = gen.generate_random(200).unwrap();
    assert!(11 <= taken && taken <= 200);
    assert!(gen.get_grid().is_valid());
}

#[test]
fn scramble_never_shows_a_layout_twice() {
    let (_, shown) = walk(PuzzleType::Snail, 4, 30);
    assert_eq!(shown.len(), 30);
    for a in 0..shown.len() {
        for b in (a + 1)..shown.len() {
            assert_ne!(shown[a], shown[b]);
        }
    }
}

#[test]
fn one_step_scramble_differs_from_the_goal() {
    let mut gen = Generator::new(Grid2D::with_capacity(3, 3), PuzzleType::Lines00);
    assert_eq!(gen.generate_solution(), Ok(()));
    let goal = gen.get_grid();
    assert_eq!(gen.shuffle(1), 1);
    assert!(gen.get_grid() != goal);
}

#[test]
fn scramble_stops_when_the_walk_is_stuck() {
    // a board of one row and two cells has two layouts: after the first move
    // the only move leads back to the goal, which was not recorded, and
    // after the second every move leads to a layout that was
    let mut gen = Generator::new(Grid2D::with_capacity(1, 2), PuzzleType::Lines00);
    assert_eq!(gen.generate_random(10), Ok(2));
    assert_eq!(gen.get_grid().to_2dvec(), vec![vec![0, 1]]);
    let mut gen = Generator::new(Grid2D::with_capacity(1, 1), PuzzleType::Snail);
    assert_eq!(gen.generate_random(10), Ok(0));
    assert_eq!(gen.get_grid().to_2dvec(), vec![vec![0]]);
}

#[test]
fn scrambles_differ_from_run_to_run() {
    let mut first: Option<Vec<Vec<usize>>> = None;
    let mut differed = false;
    for _ in 0..64 {
        let mut gen = Generator::new(Grid2D::with_capacity(4, 4), PuzzleType::Snail);
        assert_eq!(gen.generate_random(12), Ok(12));
        let layout = gen.get_grid().to_2dvec();
        match &first {
            None => first = Some(layout),
            Some(f) => {
                if *f != layout {
                    differed = true;
                }
            }
        }
    }
    assert!(differed);
}

#[test]
fn advance_plays_the_first_novel_candidate() {
    let mut grid = Grid2D::new();
    assert!(grid.from_2dvec(vec![vec![1, 2, 3], vec![4, 0, 5], vec![6, 7, 8]]).is_ok());
    let up = vec![vec![1, 0, 3], vec![4, 2, 5], vec![6, 7, 8]];
    let down = vec![vec![1, 2, 3], vec![4, 7, 5], vec![6, 0, 8]];
    let right = vec![vec![1, 2, 3], vec![4, 5, 0], vec![6, 7, 8]];
    let left = vec![vec![1, 2, 3], vec![0, 4, 5], vec![6, 7, 8]];
    let candidates = vec![Direction::Up, Direction::Down, Direction::Right, Direction::Left];

    let visited = vec![up.clone(), down.clone()];
    assert_eq!(advance(&mut grid, &candidates, &visited), Some(2));
    assert_eq!(grid.to_2dvec(), right);
    assert_eq!(grid.get_zero(), Coords(1, 2));

    let mut grid = Grid2D::new();
    assert!(grid.from_2dvec(vec![vec![1, 2, 3], vec![4, 0, 5], vec![6, 7, 8]]).is_ok());
    let visited = vec![up, down, right, left];
    assert_eq!(advance(&mut grid, &candidates, &visited), None);
    assert_eq!(grid.to_2dvec(), vec![vec![1, 2, 3], vec![4, 0, 5], vec![6, 7, 8]]);
    assert_eq!(grid.get_zero(), Coords(1, 1));

    let none: Vec<Direction> = Vec::new();
    assert_eq!(advance(&mut grid, &none, &Vec::new()), None);
}

#[test]
fn contains_layout_compares_by_content() {
    let a = vec![vec![1, 0], vec![2, 3]];
    let b = vec![vec![0, 1], vec![2, 3]];
    let visited = vec![a.clone()];
    assert!(contains_layout(&visited, &a));
    assert!(!contains_layout(&visited, &b));
    assert!(!contains_layout(&Vec::new(), &a));
    assert!(!contains_layout(&visited, &vec![vec![1, 0, 2, 3]]));
}
