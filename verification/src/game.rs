//! A game in progress: the board being played, the layout to reach, and
//! what each move does to the tiles that a front end shows.

use crate::generator::is_walk;
use crate::generator::lemma_template_tiling;
use crate::generator::lemma_walk_keeps_valid;
use crate::generator::stuck;
use crate::generator::trail;
use crate::generator::walk_end;
use crate::generator::Generator;
use crate::generator::PuzzleType;
use crate::grid2d::lemma_tiling_loads;
use crate::grid2d::loaded;
use crate::grid2d::Coords;
use crate::grid2d::Direction;
use crate::grid2d::Grid2D;
use crate::grid2d::GridView;
use crate::grid_traits::Grid;
use crate::status::ErrorKind;
use vstd::prelude::*;

verus! {

/// A game in progress.
#[derive(Debug)]
pub struct Game {
    grid: Grid2D,
    solution: Grid2D,
    iter: usize,
    moves: usize,
}

/// The abstract state of a game.
pub struct GameView {
    /// The board being played.
    pub grid: GridView,
    /// The board to reach.
    pub solution: GridView,
    /// The number of scramble steps that were asked for.
    pub iter: usize,
    /// The number of moves that the player has asked for.
    pub moves: usize,
}

/// What a move did to the tiles: the tile `value` now stands on `tile_to`,
/// where the blank was, and the blank on `blank_to`, where the tile was.
#[derive(Debug, Clone, Copy, PartialEq, Eq, Structural)]
pub struct TileMove {
    pub value: usize,
    pub tile_to: Coords,
    pub blank_to: Coords,
}

impl View for Game {
    type V = GameView;

    closed spec fn view(&self) -> GameView {
        GameView {
            grid: self.grid@,
            solution: self.solution@,
            iter: self.iter,
            moves: self.moves,
        }
    }
}

impl GameView {
    /// Both boards are valid.
    pub open spec fn wf(self) -> bool {
        self.grid.valid() && self.solution.valid()
    }

    /// The board shows the layout to reach.
    pub open spec fn solved(self) -> bool {
        self.grid.rows == self.solution.rows
    }

    /// What moving the blank in direction `dir` does to the tiles, or
    /// nothing when the board ends in that direction.
    pub open spec fn tile_move(self, dir: Direction) -> Option<TileMove> {
        if self.grid.legal(dir) {
            let t = self.grid.target(dir);
            Some(
                TileMove {
                    value: self.grid.rows[t.0 as int][t.1 as int],
                    tile_to: self.grid.blank,
                    blank_to: t,
                },
            )
        } else {
            None
        }
    }

    /// The game after the player has asked for a move in direction `dir`:
    /// the request is counted, and the blank moves when it can.
    pub open spec fn moved(self, dir: Direction) -> GameView {
        GameView {
            grid: if self.grid.legal(dir) {
                self.grid.step(dir)
            } else {
                self.grid
            },
            moves: (self.moves + 1) as usize,
            ..self
        }
    }
}

impl Game {
    /// A new game on a square board of side `size`: the goal layout of the
    /// given kind, scrambled by at most `iters` moves.
    pub fn start(size: usize, kind: PuzzleType, iters: usize) -> (r: Result<Game, ErrorKind>)
        requires
            size <= i32::MAX,
            size * size <= usize::MAX,
        ensures
            size == 0 ==> r is Err && r->Err_0 == ErrorKind::EmptyInput,
            size >= 1 ==> {
                let goal = loaded(kind.layout(size as int, size as int));
                &&& r is Ok
                &&& r->Ok_0@.wf()
                &&& r->Ok_0@.solution == goal
                &&& r->Ok_0@.iter == iters
                &&& r->Ok_0@.moves == 0
                &&& exists|path: Seq<GridView>|
                    {
                        &&& path.len() <= iters
                        &&& is_walk::<Grid2D>(goal, path)
                        &&& #[trigger] trail::<Grid2D>(path).no_duplicates()
                        &&& r->Ok_0@.grid == walk_end::<Grid2D>(goal, path)
                        &&& path.len() < iters ==> stuck::<Grid2D>(
                            r->Ok_0@.grid,
                            trail::<Grid2D>(path),
                        )
                    }
            },
    {
        let ghost layout = kind.layout(size as int, size as int);
        proof {
            lemma_template_tiling(kind, size as int, size as int);
            if size >= 1 {
                lemma_tiling_loads(layout, size as int, size as int);
            } else {
                assert(layout.len() == 0);
            }
        }
        let grid = Grid2D::with_capacity(size, size);
        let mut gen = Generator::new(grid, kind);
        match gen.generate_solution() {
            Ok(()) => {},
            Err(e) => {
                return Err(e);
            },
        }
        let solution = gen.get_grid();
        let taken = match gen.generate_random(iters) {
            Ok(taken) => taken,
            Err(e) => {
                return Err(e);
            },
        };
        let grid = gen.get_grid();
        proof {
            let goal = loaded(layout);
            let path = choose|path: Seq<GridView>|
                {
                    &&& path.len() == taken
                    &&& is_walk::<Grid2D>(goal, path)
                    &&& #[trigger] trail::<Grid2D>(path).no_duplicates()
                    &&& grid@ == walk_end::<Grid2D>(goal, path)
                    &&& taken < iters ==> stuck::<Grid2D>(grid@, trail::<Grid2D>(path))
                };
            lemma_walk_keeps_valid(goal, path, path.len() as int);
        }
        Ok(Game { grid, solution, iter: iters, moves: 0 })
    }

    /// Counts a request for a move in direction `dir`, moves the blank when
    /// it can, and says what became of the tiles.
    pub fn make_move(&mut self, dir: Direction) -> (r: Option<TileMove>)
        requires
            old(self)@.wf(),
            old(self)@.moves < usize::MAX,
        ensures
            final(self)@ == old(self)@.moved(dir),
            final(self)@.wf(),
            r == old(self)@.tile_move(dir),
    {
        proof {
            if self@.grid.legal(dir) {
                crate::grid2d::lemma_step_keeps_valid(self@.grid, dir);
            }
        }
        let old_zero = self.grid.get_zero();
        let r = match self.grid.do_move(&dir) {
            Ok(()) => {
                let new_zero = self.grid.get_zero();
                match self.grid.get_value(old_zero) {
                    Ok(val) => Some(TileMove { value: val, tile_to: old_zero, blank_to: new_zero }),
                    Err(_) => None,
                }
            },
            Err(_) => None,
        };
        self.moves += 1;
        r
    }

    /// Whether the board shows the layout to reach.
    pub fn is_solved(&self) -> (r: bool)
        ensures
            r == self@.solved(),
    {
        self.grid == self.solution
    }

    /// The board being played.
    pub fn grid(&self) -> (r: &Grid2D)
        ensures
            r@ == self@.grid,
    {
        &self.grid
    }

    /// The board to reach.
    pub fn solution(&self) -> (r: &Grid2D)
        ensures
            r@ == self@.solution,
    {
        &self.solution
    }

    /// The number of moves that the player has asked for.
    pub fn moves(&self) -> (r: usize)
        ensures
            r == self@.moves,
    {
        self.moves
    }
}

} // verus!
