//! What the logs tell: how often each technique was used, and how hard the
//! puzzle therefore is.

use vstd::prelude::*;
use crate::QQWing;
use crate::difficulty::Difficulty;
use crate::logitem::LogItem;
use crate::logtype::LogType;

verus! {

/// How many of the first `n` items of a log are of a kind.
pub open spec fn log_count_below(log: Seq<LogItem>, kind: LogType, n: int) -> int
    decreases n,
{
    if n <= 0 {
        0
    } else {
        log_count_below(log, kind, n - 1) + if log[n - 1].log_type == kind {
            1int
        } else {
            0int
        }
    }
}

/// How many items of a log are of a kind.
pub open spec fn log_count(log: Seq<LogItem>, kind: LogType) -> int {
    log_count_below(log, kind, log.len() as int)
}

/// How many items of a log record a hidden single.
pub open spec fn hidden_single_count(log: Seq<LogItem>) -> int {
    log_count(log, LogType::HiddenSingleRow) + log_count(log, LogType::HiddenSingleColumn)
        + log_count(log, LogType::HiddenSingleSection)
}

/// How many items of a log record a naked pair.
pub open spec fn naked_pair_count(log: Seq<LogItem>) -> int {
    log_count(log, LogType::NakedPairRow) + log_count(log, LogType::NakedPairColumn) + log_count(
        log,
        LogType::NakedPairSection,
    )
}

/// How many items of a log record a hidden pair.
pub open spec fn hidden_pair_count(log: Seq<LogItem>) -> int {
    log_count(log, LogType::HiddenPairRow) + log_count(log, LogType::HiddenPairColumn) + log_count(
        log,
        LogType::HiddenPairSection,
    )
}

/// How many items of a log record a pointing pair or triple.
pub open spec fn pointing_count(log: Seq<LogItem>) -> int {
    log_count(log, LogType::PointingPairTripleRow) + log_count(
        log,
        LogType::PointingPairTripleColumn,
    )
}

/// How many items of a log record a reduction of a section by a line.
pub open spec fn box_line_count(log: Seq<LogItem>) -> int {
    log_count(log, LogType::RowBox) + log_count(log, LogType::ColumnBox)
}

/// The difficulty that a log of steps shows: that of the hardest technique
/// it holds.
pub open spec fn difficulty_of(log: Seq<LogItem>) -> Difficulty {
    if log_count(log, LogType::Guess) > 0 {
        Difficulty::EXPERT
    } else if box_line_count(log) > 0 || pointing_count(log) > 0 || hidden_pair_count(log) > 0
        || naked_pair_count(log) > 0 {
        Difficulty::MEDIUM
    } else if hidden_single_count(log) > 0 {
        Difficulty::EASY
    } else if log_count(log, LogType::Single) > 0 {
        Difficulty::SIMPLE
    } else {
        Difficulty::UNKNOWN
    }
}

/// The items of three different kinds among the first `n` of a log are no
/// more than `n`.
pub proof fn lemma_three_counts(log: Seq<LogItem>, a: LogType, b: LogType, c: LogType, n: int)
    requires
        0 <= n,
        a != b,
        a != c,
        b != c,
    ensures
        0 <= log_count_below(log, a, n),
        0 <= log_count_below(log, b, n),
        0 <= log_count_below(log, c, n),
        log_count_below(log, a, n) + log_count_below(log, b, n) + log_count_below(log, c, n) <= n,
    decreases n,
{
    if n > 0 {
        lemma_three_counts(log, a, b, c, n - 1);
    }
}

impl QQWing {
    /// Given a vector of LogItems, determine how many log items in the vector
    /// are of the specified type.
    pub fn get_log_count(v: &Vec<LogItem>, logtype: LogType) -> (count: usize)
        ensures
            count == log_count(v@, logtype),
    {
        let mut count: usize = 0;
        for i in 0..v.len()
            invariant
                count == log_count_below(v@, logtype, i as int),
                count <= i,
        {
            if v[i].log_type == logtype {
                count += 1;
            }
        }
        return count;
    }

    /// Get the number of cells for which the solution was determined because
    /// there was only one possible value for that cell.
    pub fn get_single_count(&self) -> (count: usize)
        ensures
            count == log_count(self@.solve_instructions, LogType::Single),
    {
        QQWing::get_log_count(&self.solve_instructions, LogType::Single)
    }

    /// Get the number of cells for which the solution was determined because
    /// that cell had the only possibility for some value in the row, column,
    /// or section.
    pub fn get_hidden_single_count(&self) -> (count: usize)
        ensures
            count == hidden_single_count(self@.solve_instructions),
    {
        proof {
            lemma_three_counts(
                self@.solve_instructions,
                LogType::HiddenSingleRow,
                LogType::HiddenSingleColumn,
                LogType::HiddenSingleSection,
                self@.solve_instructions.len() as int,
            );
        }
        let size = self.solve_instructions.len();
        let first = QQWing::get_log_count(&self.solve_instructions, LogType::HiddenSingleRow);
        let second = QQWing::get_log_count(&self.solve_instructions, LogType::HiddenSingleColumn);
        let third = QQWing::get_log_count(&self.solve_instructions, LogType::HiddenSingleSection);
        first + second + third
    }

    /// Get the number of naked pair reductions that were performed in solving
    /// this puzzle.
    pub fn get_naked_pair_count(&self) -> (count: usize)
        ensures
            count == naked_pair_count(self@.solve_instructions),
    {
        proof {
            lemma_three_counts(
                self@.solve_instructions,
                LogType::NakedPairRow,
                LogType::NakedPairColumn,
                LogType::NakedPairSection,
                self@.solve_instructions.len() as int,
            );
        }
        let size = self.solve_instructions.len();
        let first = QQWing::get_log_count(&self.solve_instructions, LogType::NakedPairRow);
        let second = QQWing::get_log_count(&self.solve_instructions, LogType::NakedPairColumn);
        let third = QQWing::get_log_count(&self.solve_instructions, LogType::NakedPairSection);
        first + second + third
    }

    /// Get the number of hidden pair reductions that were performed in
    /// solving this puzzle.
    pub fn get_hidden_pair_count(&self) -> (count: usize)
        ensures
            count == hidden_pair_count(self@.solve_instructions),
    {
        proof {
            lemma_three_counts(
                self@.solve_instructions,
                LogType::HiddenPairRow,
                LogType::HiddenPairColumn,
                LogType::HiddenPairSection,
                self@.solve_instructions.len() as int,
            );
        }
        let size = self.solve_instructions.len();
        let first = QQWing::get_log_count(&self.solve_instructions, LogType::HiddenPairRow);
        let second = QQWing::get_log_count(&self.solve_instructions, LogType::HiddenPairColumn);
        let third = QQWing::get_log_count(&self.solve_instructions, LogType::HiddenPairSection);
        first + second + third
    }

    /// Get the number of pointing pair/triple reductions that were performed
    /// in solving this puzzle.
    pub fn get_pointing_pair_triple_count(&self) -> (count: usize)
        ensures
            count == pointing_count(self@.solve_instructions),
    {
        proof {
            lemma_three_counts(
                self@.solve_instructions,
                LogType::PointingPairTripleRow,
                LogType::PointingPairTripleColumn,
                LogType::Given,
                self@.solve_instructions.len() as int,
            );
        }
        let size = self.solve_instructions.len();
        let first = QQWing::get_log_count(&self.solve_instructions, LogType::PointingPairTripleRow);
        let second = QQWing::get_log_count(
            &self.solve_instructions,
            LogType::PointingPairTripleColumn,
        );
        first + second
    }

    /// Get the number of box/line reductions that were performed in solving
    /// this puzzle.
    pub fn get_box_line_reduction_count(&self) -> (count: usize)
        ensures
            count == box_line_count(self@.solve_instructions),
    {
        proof {
            lemma_three_counts(
                self@.solve_instructions,
                LogType::RowBox,
                LogType::ColumnBox,
                LogType::Given,
                self@.solve_instructions.len() as int,
            );
        }
        let size = self.solve_instructions.len();
        let first = QQWing::get_log_count(&self.solve_instructions, LogType::RowBox);
        let second = QQWing::get_log_count(&self.solve_instructions, LogType::ColumnBox);
        first + second
    }

    /// Get the number lucky guesses in solving this puzzle.
    pub fn get_guess_count(&self) -> (count: usize)
        ensures
            count == log_count(self@.solve_instructions, LogType::Guess),
    {
        QQWing::get_log_count(&self.solve_instructions, LogType::Guess)
    }

    /// Get the number of backtracks (unlucky guesses) required when solving
    /// this puzzle.
    pub fn get_backtrack_count(&self) -> (count: usize)
        ensures
            count == log_count(self@.solve_history, LogType::Rollback),
    {
        QQWing::get_log_count(&self.solve_history, LogType::Rollback)
    }

    /// Get the difficulty rating: that of the hardest technique among the
    /// steps that led to the solution. Unknown where no step was recorded.
    pub fn get_difficulty(&self) -> (difficulty: Difficulty)
        ensures
            difficulty == difficulty_of(self@.solve_instructions),
    {
        if self.get_guess_count() > 0 {
            return Difficulty::EXPERT;
        }
        if self.get_box_line_reduction_count() > 0 {
            return Difficulty::MEDIUM;
        }
        if self.get_pointing_pair_triple_count() > 0 {
            return Difficulty::MEDIUM;
        }
        if self.get_hidden_pair_count() > 0 {
            return Difficulty::MEDIUM;
        }
        if self.get_naked_pair_count() > 0 {
            return Difficulty::MEDIUM;
        }
        if self.get_hidden_single_count() > 0 {
            return Difficulty::EASY;
        }
        if self.get_single_count() > 0 {
            return Difficulty::SIMPLE;
        }
        return Difficulty::UNKNOWN;
    }

    /// The steps that led to the solution, if the board is solved; no steps
    /// otherwise.
    pub fn get_solve_instructions(&self) -> (steps: Vec<LogItem>)
        ensures
            steps@ == (if self@.solved() {
                self@.solve_instructions
            } else {
                Seq::empty()
            }),
    {
        match self.is_solved() {
            true => QQWing::copy_log(&self.solve_instructions),
            false => Vec::new(),
        }
    }

    /// Every step taken, also those of rounds that were rolled back.
    pub fn get_solve_history(&self) -> (steps: Vec<LogItem>)
        ensures
            steps@ == self@.solve_history,
    {
        QQWing::copy_log(&self.solve_history)
    }

    /// A copy of a log.
    pub fn copy_log(log: &Vec<LogItem>) -> (copy: Vec<LogItem>)
        ensures
            copy@ == log@,
    {
        let mut copy: Vec<LogItem> = Vec::new();
        for i in 0..log.len()
            invariant
                copy@ == log@.subrange(0, i as int),
        {
            copy.push(log[i]);
        }
        copy
    }
}

} // verus!
