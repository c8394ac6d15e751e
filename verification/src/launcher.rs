//! What a run of the program is asked to do, and the board it starts from.

use crate::board::Board;
use crate::board::BoardView;
use crate::board::cornered;
use crate::board::is_permutation;
use crate::board::is_slide_walk;
use crate::board::lemma_walk_keeps_permutation;
use crate::board::parsed;
use crate::board::prior;
use crate::board::shown;
use crate::board::spiral_board;
use crate::status::ErrorKind;
use crate::text::same_text;
use vstd::prelude::*;
use vstd::string::StringSliceAdditionalSpecFns;

verus! {

/// What the program does with its board.
#[derive(Debug, Copy, Clone, PartialEq, Eq, Structural)]
#[non_exhaustive]
pub enum PuzzleMode {
    Play,
    Solve,
    Generate,
}

impl PuzzleMode {
    /// The name of the mode on the command line.
    pub open spec fn name(self) -> Seq<char> {
        match self {
            PuzzleMode::Play => "play"@,
            PuzzleMode::Solve => "solve"@,
            PuzzleMode::Generate => "generate"@,
        }
    }

    /// The mode that `name` names, if any; where two modes had one name,
    /// the first of play, solve, generate.
    pub open spec fn named(name: Seq<char>) -> Option<PuzzleMode> {
        if name == PuzzleMode::Play.name() {
            Some(PuzzleMode::Play)
        } else if name == PuzzleMode::Solve.name() {
            Some(PuzzleMode::Solve)
        } else if name == PuzzleMode::Generate.name() {
            Some(PuzzleMode::Generate)
        } else {
            None
        }
    }

    /// The names of all the modes.
    pub fn as_str_array() -> (r: &'static [&'static str])
        ensures
            r@.len() == 3,
            r@[0]@ == PuzzleMode::Play.name(),
            r@[1]@ == PuzzleMode::Solve.name(),
            r@[2]@ == PuzzleMode::Generate.name(),
    {
        &["play", "solve", "generate"]
    }

    /// The mode that `mode` names.
    pub fn from_str(mode: &str) -> (r: Option<PuzzleMode>)
        ensures
            r == PuzzleMode::named(mode@),
    {
        if same_text(mode, "play") {
            Some(PuzzleMode::Play)
        } else if same_text(mode, "solve") {
            Some(PuzzleMode::Solve)
        } else if same_text(mode, "generate") {
            Some(PuzzleMode::Generate)
        } else {
            None
        }
    }

    /// The name of the mode.
    pub fn as_str(&self) -> (r: &'static str)
        ensures
            r@ == self.name(),
    {
        match *self {
            PuzzleMode::Play => "play",
            PuzzleMode::Solve => "solve",
            PuzzleMode::Generate => "generate",
        }
    }
}

/// The options of one run of the program.
#[derive(Debug)]
pub struct Launcher {
    mode: PuzzleMode,
    size: Option<usize>,
    iters: Option<usize>,
    input_file: Option<String>,
}

/// The options of a run, as plain values.
pub struct LauncherView {
    pub mode: PuzzleMode,
    pub size: Option<usize>,
    pub iters: Option<usize>,
    pub input_file: Option<Seq<char>>,
}

impl LauncherView {
    /// The run reads its board from a file.
    pub open spec fn reads_file(self) -> bool {
        self.input_file is Some
    }

    /// The run can make its own board: a side that a board can have and a
    /// number of scramble steps are given.
    pub open spec fn can_generate(self) -> bool {
        &&& self.size matches Some(n)
        &&& 1 <= n <= i32::MAX
        &&& n * n <= usize::MAX
        &&& self.iters is Some
    }
}

impl View for Launcher {
    type V = LauncherView;

    closed spec fn view(&self) -> LauncherView {
        LauncherView {
            mode: self.mode,
            size: self.size,
            iters: self.iters,
            input_file: match self.input_file {
                Some(name) => Some(name@),
                None => None,
            },
        }
    }
}

impl Launcher {
    /// The options of a run from their parts.
    pub fn with_options(
        mode: PuzzleMode,
        size: Option<usize>,
        iters: Option<usize>,
        input_file: Option<String>,
    ) -> (r: Launcher)
        ensures
            r@.mode == mode,
            r@.size == size,
            r@.iters == iters,
            r@.input_file == (match input_file {
                Some(name) => Some(name@),
                None => None::<Seq<char>>,
            }),
    {
        Launcher { mode, size, iters, input_file }
    }

    /// The board that the run starts from. Where a file is named, the board
    /// is read from `file_text`, the text of that file. Else the board is
    /// the spiral of the side asked for, scrambled by at most as many slides
    /// as were asked for.
    pub fn get_board(&self, file_text: &str) -> (r: Result<Board, ErrorKind>)
        requires
            self@.reads_file() || self@.can_generate(),
        ensures
            self@.reads_file() ==> match parsed(file_text.spec_bytes()) {
                Ok(v) => r is Ok && r->Ok_0@ == v,
                Err(e) => r is Err && r->Err_0 == e,
            },
            r is Ok ==> r->Ok_0@.wf(),
            !self@.reads_file() ==> {
                let n = self@.size->Some_0;
                let steps = self@.iters->Some_0;
                &&& r is Ok
                &&& r->Ok_0@.anchored()
                &&& is_permutation(r->Ok_0@.cells)
                &&& exists|path: Seq<BoardView>|
                    {
                        &&& path.len() <= steps
                        &&& is_slide_walk(spiral_board(n, n), path)
                        &&& #[trigger] shown(path).no_duplicates()
                        &&& r->Ok_0@ == prior(spiral_board(n, n), path, path.len() as int)
                        &&& path.len() < steps ==> cornered(r->Ok_0@, shown(path))
                    }
            },
    {
        if self.input_file.is_some() {
            Board::from_str(file_text)
        } else {
            let n = self.size.unwrap();
            let mut board = Board::new(n, n);
            let ghost start = board@;
            let taken = board.shuffle(self.iters.unwrap());
            proof {
                let path = choose|path: Seq<BoardView>|
                    {
                        &&& path.len() == taken
                        &&& is_slide_walk(start, path)
                        &&& #[trigger] shown(path).no_duplicates()
                        &&& board@ == prior(start, path, taken as int)
                        &&& taken < self@.iters->Some_0 ==> cornered(board@, shown(path))
                    };
                assert(board@ == prior(start, path, path.len() as int));
                lemma_walk_keeps_permutation(start, path, path.len() as int);
            }
            Ok(board)
        }
    }

    pub fn get_mode(&self) -> (r: PuzzleMode)
        ensures
            r == self@.mode,
    {
        self.mode
    }

    /// The side of the board asked for, if one was.
    pub fn get_size(&self) -> (r: Option<usize>)
        ensures
            r == self@.size,
    {
        self.size
    }

    /// The number of scramble steps asked for, if one was.
    pub fn get_iterations(&self) -> (r: Option<usize>)
        ensures
            r == self@.iters,
    {
        self.iters
    }

    /// The name of the file to read the board from, if one was given.
    pub fn get_input_file(&self) -> (r: Option<&String>)
        ensures
            r matches Some(name) ==> self@.input_file == Some(name@),
            r is None ==> self@.input_file is None,
    {
        self.input_file.as_ref()
    }
}

} // verus!
