//! Sudoku solver and generator.
//!
//! A board keeps, beside the puzzle and the solution under construction, a
//! table of the values still possible in each cell. Every change to the
//! solution or to the table is stamped with the round that made it, so that a
//! round can be undone exactly. Solving applies a fixed list of deduction
//! techniques until none applies, then guesses and recurses.

use vstd::prelude::*;

pub mod board;
pub mod counter;
pub mod difficulty;
pub mod generator;
pub mod grid;
pub mod history;
pub mod laws;
pub mod logitem;
pub mod logtype;
pub mod pairs;
pub mod random;
pub mod reductions;
pub mod singles;
pub mod solver;
pub mod state;
pub mod symmetry;
pub mod text;
pub mod trace;

use crate::logitem::LogItem;

verus! {

/// The number that stands for "no value" or "no cell" in a log item.
pub const UNSET_VALUE: usize = 4294967295;

/// Side of a section.
pub const GRID_SIZE: usize = 3;

/// Cells in a row, a column or a section; also the number of values.
pub const ROW_COL_SEC_SIZE: usize = 9;

/// Cells in a band of three rows.
pub const SEC_GROUP_SIZE: usize = 27;

/// Cells on the board.
pub const BOARD_SIZE: usize = 81;

/// Entries of the possibility table: one for each cell and value.
pub const POSSIBILITY_SIZE: usize = 729;

/// Why a cell could not be marked.
#[derive(Debug, PartialEq, Eq, Clone, Copy, Structural)]
pub enum QQWingError {
    PositionAlreadyMarked,
    PositionMarkedAnotherRound,
    PositionImpossible,
}

impl QQWingError {
    /// The message that belongs to the error.
    pub fn message(&self) -> (text: &'static str)
        ensures
            *self == QQWingError::PositionAlreadyMarked ==> text@
                == "Marking position that already has been marked."@,
            *self == QQWingError::PositionMarkedAnotherRound ==> text@
                == "Marking position that was marked another round."@,
            *self == QQWingError::PositionImpossible ==> text@ == "Marking impossible position."@,
    {
        match self {
            QQWingError::PositionAlreadyMarked => "Marking position that already has been marked.",
            QQWingError::PositionMarkedAnotherRound => {
                "Marking position that was marked another round."
            },
            QQWingError::PositionImpossible => "Marking impossible position.",
        }
    }
}

/// The layout in which puzzles and histories are written out.
#[derive(Debug, PartialEq, Eq, Clone, Copy, Structural)]
pub enum PrintStyle {
    ONELINE,
    COMPACT,
    READABLE,
    CSV,
}

/// What a board holds, as plain mathematical values. All contracts of
/// [`QQWing`] are stated over this view.
pub struct Board {
    /// The round in which the solver was last entered.
    pub last_solve_round: u8,
    /// The 81 givens, 0 for a blank.
    pub puzzle: Seq<u8>,
    /// The 81 assigned values, 0 for a cell not yet assigned.
    pub solution: Seq<u8>,
    /// For each cell the round that assigned it, 0 for a cell not assigned.
    pub solution_round: Seq<u8>,
    /// For each cell and value 0 while the value is possible there, else the
    /// round that ruled it out.
    pub possibilities: Seq<u8>,
    /// The order in which cells are tried.
    pub random_board_array: Seq<u8>,
    /// The order in which values are tried.
    pub random_possibility_array: Seq<u8>,
    pub record_history: bool,
    pub log_history: bool,
    /// Every step taken, also those of rounds undone later.
    pub solve_history: Seq<LogItem>,
    /// The steps of the rounds that still stand.
    pub solve_instructions: Seq<LogItem>,
    pub print_style: PrintStyle,
}

/// The board with all the memory structures and methods for solving or
/// generating sudoku puzzles.
#[derive(Debug)]
pub struct QQWing {
    last_solve_round: u8,
    puzzle: [u8; BOARD_SIZE],
    solution: [u8; BOARD_SIZE],
    solution_round: [u8; BOARD_SIZE],
    possibilities: [u8; POSSIBILITY_SIZE],
    random_board_array: [u8; BOARD_SIZE],
    random_possibility_array: [u8; ROW_COL_SEC_SIZE],
    record_history: bool,
    log_history: bool,
    solve_history: Vec<LogItem>,
    solve_instructions: Vec<LogItem>,
    /// The style with which to print puzzles and solutions.
    pub print_style: PrintStyle,
}

impl View for QQWing {
    type V = Board;

    open(crate) spec fn view(&self) -> Board {
        Board {
            last_solve_round: self.last_solve_round,
            puzzle: self.puzzle@,
            solution: self.solution@,
            solution_round: self.solution_round@,
            possibilities: self.possibilities@,
            random_board_array: self.random_board_array@,
            random_possibility_array: self.random_possibility_array@,
            record_history: self.record_history,
            log_history: self.log_history,
            solve_history: self.solve_history@,
            solve_instructions: self.solve_instructions@,
            print_style: self.print_style,
        }
    }
}

} // verus!
