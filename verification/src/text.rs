//! Writing out: numbers, log items, histories, puzzles and statistics as
//! text, in the layout that the print style asks for.

use vstd::prelude::*;
use vstd::string::{StrSliceExecFns, StringExecFns};
use crate::{PrintStyle, QQWing};
use crate::difficulty::Difficulty;
use crate::history::{
    box_line_count,
    difficulty_of,
    hidden_pair_count,
    hidden_single_count,
    log_count,
    naked_pair_count,
    pointing_count,
};
use crate::logitem::LogItem;
use crate::logtype::LogType;
use crate::state::zeros_below;
use crate::{BOARD_SIZE, GRID_SIZE, ROW_COL_SEC_SIZE, SEC_GROUP_SIZE};

verus! {

/// The text of a digit.
pub open spec fn digit_text(d: int) -> Seq<char> {
    if d == 0 {
        "0"@
    } else if d == 1 {
        "1"@
    } else if d == 2 {
        "2"@
    } else if d == 3 {
        "3"@
    } else if d == 4 {
        "4"@
    } else if d == 5 {
        "5"@
    } else if d == 6 {
        "6"@
    } else if d == 7 {
        "7"@
    } else if d == 8 {
        "8"@
    } else {
        "9"@
    }
}

/// A number written in decimal digits.
pub open spec fn decimal(n: nat) -> Seq<char>
    decreases n,
{
    if n < 10 {
        digit_text(n as int)
    } else {
        decimal(n / 10) + digit_text((n % 10) as int)
    }
}

/// The name of a kind of log item.
pub open spec fn log_type_name(kind: LogType) -> Seq<char> {
    match kind {
        LogType::Given => "Given"@,
        LogType::Single => "Single"@,
        LogType::HiddenSingleRow => "HiddenSingleRow"@,
        LogType::HiddenSingleColumn => "HiddenSingleColumn"@,
        LogType::HiddenSingleSection => "HiddenSingleSection"@,
        LogType::Guess => "Guess"@,
        LogType::Rollback => "Rollback"@,
        LogType::NakedPairRow => "NakedPairRow"@,
        LogType::NakedPairColumn => "NakedPairColumn"@,
        LogType::NakedPairSection => "NakedPairSection"@,
        LogType::PointingPairTripleRow => "PointingPairTripleRow"@,
        LogType::PointingPairTripleColumn => "PointingPairTripleColumn"@,
        LogType::RowBox => "RowBox"@,
        LogType::ColumnBox => "ColumnBox"@,
        LogType::HiddenPairRow => "HiddenPairRow"@,
        LogType::HiddenPairColumn => "HiddenPairColumn"@,
        LogType::HiddenPairSection => "HiddenPairSection"@,
    }
}

/// The name of a difficulty.
pub open spec fn difficulty_name(difficulty: Difficulty) -> Seq<char> {
    match difficulty {
        Difficulty::UNKNOWN => "UNKNOWN"@,
        Difficulty::SIMPLE => "SIMPLE"@,
        Difficulty::EASY => "EASY"@,
        Difficulty::MEDIUM => "MEDIUM"@,
        Difficulty::EXPERT => "EXPERT"@,
    }
}

/// The row that a log item names, counted from 1; 255 for none.
pub open spec fn item_row(item: LogItem) -> nat {
    if item.position < 81 {
        (item.position / 9 + 1) as nat
    } else {
        255
    }
}

/// The column that a log item names, counted from 1; 255 for none.
pub open spec fn item_column(item: LogItem) -> nat {
    if item.position < 81 {
        (item.position % 9 + 1) as nat
    } else {
        255
    }
}

/// A log item as text.
pub open spec fn item_text(item: LogItem) -> Seq<char> {
    "Round: "@ + decimal(item.round as nat) + " - "@ + log_type_name(item.log_type) + " (Row: "@
        + decimal(item_row(item)) + " - Column: "@ + decimal(item_column(item)) + " - Value: "@
        + decimal(item.value as nat) + ")"@
}

/// What stands between the entries of a list: a dash on one line, else a
/// line break.
pub open spec fn separator(style: PrintStyle) -> Seq<char> {
    if style == PrintStyle::CSV {
        " -- "@
    } else {
        "\n"@
    }
}

/// What ends a list: a comma on one line, else a line break.
pub open spec fn terminator(style: PrintStyle) -> Seq<char> {
    if style == PrintStyle::CSV {
        ","@
    } else {
        "\n"@
    }
}

/// The first `n` items of a log, numbered from 1, each followed by the
/// separator.
pub open spec fn history_lines(v: Seq<LogItem>, style: PrintStyle, n: int) -> Seq<char>
    decreases n,
{
    if n <= 0 {
        Seq::empty()
    } else {
        history_lines(v, style, n - 1) + decimal(n as nat) + ". "@ + item_text(v[n - 1])
            + separator(style)
    }
}

/// What is written before a history that was not recorded.
pub open spec fn history_head(recorded: bool, style: PrintStyle) -> Seq<char> {
    if recorded {
        Seq::empty()
    } else {
        "History was not recorded."@ + separator(style)
    }
}

/// A log as text.
pub open spec fn history_text(recorded: bool, style: PrintStyle, v: Seq<LogItem>) -> Seq<char> {
    history_head(recorded, style) + history_lines(v, style, v.len() as int) + terminator(style)
}

/// What is written before a cell of a puzzle.
pub open spec fn cell_lead(style: PrintStyle) -> Seq<char> {
    if style == PrintStyle::READABLE {
        " "@
    } else {
        Seq::empty()
    }
}

/// A cell of a puzzle: its value, or a dot for a blank.
pub open spec fn cell_mark(value: u8) -> Seq<char> {
    if value == 0 {
        "."@
    } else {
        decimal(value as nat)
    }
}

/// The line break that ends a row of a puzzle, in the styles that write a
/// puzzle on several lines.
pub open spec fn row_break(style: PrintStyle) -> Seq<char> {
    if style == PrintStyle::READABLE || style == PrintStyle::COMPACT {
        "\n"@
    } else {
        Seq::empty()
    }
}

/// The rule drawn below a band of three rows.
pub open spec fn band_rule(style: PrintStyle, i: int) -> Seq<char> {
    if i % 27 == 26 && style == PrintStyle::READABLE {
        "-------|-------|-------"@ + "\n"@
    } else {
        Seq::empty()
    }
}

/// The bar drawn between the sections of a row.
pub open spec fn section_bar(style: PrintStyle) -> Seq<char> {
    if style == PrintStyle::READABLE {
        " |"@
    } else {
        Seq::empty()
    }
}

/// What is written after cell `i` of a puzzle.
pub open spec fn cell_trail(style: PrintStyle, i: int) -> Seq<char> {
    if i == 80 {
        terminator(style) + row_break(style)
    } else if i % 9 == 8 {
        row_break(style) + band_rule(style, i)
    } else if i % 3 == 2 {
        section_bar(style)
    } else {
        Seq::empty()
    }
}

/// Cell `i` of a puzzle with what is written before and after it.
pub open spec fn cell_text(style: PrintStyle, sudoku: Seq<u8>, i: int) -> Seq<char> {
    cell_lead(style) + cell_mark(sudoku[i]) + cell_trail(style, i)
}

/// The first `n` cells of a puzzle as text.
pub open spec fn puzzle_text_below(style: PrintStyle, sudoku: Seq<u8>, n: int) -> Seq<char>
    decreases n,
{
    if n <= 0 {
        Seq::empty()
    } else {
        puzzle_text_below(style, sudoku, n - 1) + cell_text(style, sudoku, n - 1)
    }
}

/// A puzzle as text.
pub open spec fn puzzle_text(style: PrintStyle, sudoku: Seq<u8>) -> Seq<char> {
    puzzle_text_below(style, sudoku, 81)
}

/// One line of the statistics in the style for one line: the number and a
/// comma.
pub open spec fn stat_field(n: nat) -> Seq<char> {
    decimal(n) + ","@
}

/// One line of the statistics: a label, the number and a line break.
pub open spec fn stat_line(label: Seq<char>, n: nat) -> Seq<char> {
    label + decimal(n) + "\n"@
}

/// The statistics of a solved puzzle as text.
pub open spec fn stats_text(
    style: PrintStyle,
    puzzle: Seq<u8>,
    instructions: Seq<LogItem>,
    history: Seq<LogItem>,
) -> Seq<char> {
    let givens = (81 - zeros_below(puzzle, 81)) as nat;
    let singles = log_count(instructions, LogType::Single) as nat;
    let hidden_singles = hidden_single_count(instructions) as nat;
    let naked_pairs = naked_pair_count(instructions) as nat;
    let hidden_pairs = hidden_pair_count(instructions) as nat;
    let pointing = pointing_count(instructions) as nat;
    let box_line = box_line_count(instructions) as nat;
    let guesses = log_count(instructions, LogType::Guess) as nat;
    let backtracks = log_count(history, LogType::Rollback) as nat;
    let difficulty = difficulty_name(difficulty_of(instructions));
    if style == PrintStyle::CSV {
        difficulty + ","@ + stat_field(givens) + stat_field(singles) + stat_field(hidden_singles)
            + stat_field(naked_pairs) + stat_field(hidden_pairs) + stat_field(pointing)
            + stat_field(box_line) + stat_field(guesses) + stat_field(backtracks)
    } else {
        "Difficulty: "@ + difficulty + "\n"@ + stat_line("Number of Givens: "@, givens) + stat_line(
            "Number of Singles: "@,
            singles,
        ) + stat_line("Number of Hidden Singles: "@, hidden_singles) + stat_line(
            "Number of Naked Pairs: "@,
            naked_pairs,
        ) + stat_line("Number of Hidden Pairs: "@, hidden_pairs) + stat_line(
            "Number of Pointing Pairs/Triples: "@,
            pointing,
        ) + stat_line("Number of Box/Line Intersections: "@, box_line) + stat_line(
            "Number of Guesses: "@,
            guesses,
        ) + stat_line("Number of Backtracks: "@, backtracks)
    }
}

/// The value that a character stands for in a puzzle: a digit stands for
/// itself, anything else for a blank.
pub open spec fn char_value(c: char) -> u8 {
    if '0' <= c && c <= '9' {
        (c as u32 - 48) as u8
    } else {
        0
    }
}

/// Read a sudoku puzzle from a text. Any digit is used to fill the sudoku,
/// any other character stands for a blank.
pub fn read_puzzle(puzzle_str: &str) -> (puzzle: Vec<u8>)
    ensures
        puzzle@ == puzzle_str@.map_values(|c: char| char_value(c)),
        forall|i: int| 0 <= i < puzzle.len() ==> #[trigger] puzzle[i] <= 9,
{
    let mut puzzle: Vec<u8> = Vec::new();
    let n = puzzle_str.unicode_len();
    for i in 0..n
        invariant
            n == puzzle_str@.len(),
            puzzle@ == puzzle_str@.subrange(0, i as int).map_values(|c: char| char_value(c)),
            forall|k: int| 0 <= k < puzzle.len() ==> #[trigger] puzzle[k] <= 9,
    {
        let c = puzzle_str.get_char(i);
        if '0' <= c && c <= '9' {
            puzzle.push((c as u32 - 48) as u8);
        } else {
            puzzle.push(0);
        }
        assert(puzzle@ =~= puzzle_str@.subrange(0, i + 1).map_values(|c: char| char_value(c))) by {
            let lo = puzzle_str@.subrange(0, i as int);
            let hi = puzzle_str@.subrange(0, i + 1);
            assert forall|k: int| 0 <= k < hi.len() implies puzzle@[k] == char_value(hi[k]) by {}
        }
    }
    puzzle
}

/// The text of a digit.
pub fn digit_str(d: usize) -> (text: &'static str)
    requires
        d < 10,
    ensures
        text@ == digit_text(d as int),
{
    if d == 0 {
        "0"
    } else if d == 1 {
        "1"
    } else if d == 2 {
        "2"
    } else if d == 3 {
        "3"
    } else if d == 4 {
        "4"
    } else if d == 5 {
        "5"
    } else if d == 6 {
        "6"
    } else if d == 7 {
        "7"
    } else if d == 8 {
        "8"
    } else {
        "9"
    }
}

/// A number in decimal digits.
pub fn number_text(n: usize) -> (text: String)
    ensures
        text@ == decimal(n as nat),
    decreases n,
{
    if n < 10 {
        String::from_str(digit_str(n))
    } else {
        let mut text = number_text(n / 10);
        text.append(digit_str(n % 10));
        text
    }
}

/// The name of a kind of log item.
pub fn log_type_str(kind: LogType) -> (text: &'static str)
    ensures
        text@ == log_type_name(kind),
{
    match kind {
        LogType::Given => "Given",
        LogType::Single => "Single",
        LogType::HiddenSingleRow => "HiddenSingleRow",
        LogType::HiddenSingleColumn => "HiddenSingleColumn",
        LogType::HiddenSingleSection => "HiddenSingleSection",
        LogType::Guess => "Guess",
        LogType::Rollback => "Rollback",
        LogType::NakedPairRow => "NakedPairRow",
        LogType::NakedPairColumn => "NakedPairColumn",
        LogType::NakedPairSection => "NakedPairSection",
        LogType::PointingPairTripleRow => "PointingPairTripleRow",
        LogType::PointingPairTripleColumn => "PointingPairTripleColumn",
        LogType::RowBox => "RowBox",
        LogType::ColumnBox => "ColumnBox",
        LogType::HiddenPairRow => "HiddenPairRow",
        LogType::HiddenPairColumn => "HiddenPairColumn",
        LogType::HiddenPairSection => "HiddenPairSection",
    }
}

/// The name of a difficulty.
pub fn difficulty_str(difficulty: Difficulty) -> (text: &'static str)
    ensures
        text@ == difficulty_name(difficulty),
{
    match difficulty {
        Difficulty::UNKNOWN => "UNKNOWN",
        Difficulty::SIMPLE => "SIMPLE",
        Difficulty::EASY => "EASY",
        Difficulty::MEDIUM => "MEDIUM",
        Difficulty::EXPERT => "EXPERT",
    }
}

impl LogItem {
    /// The log item as text: its round, its kind, and the row, column and
    /// value that it names.
    pub fn to_text(&self) -> (text: String)
        ensures
            text@ == item_text(*self),
    {
        let mut text = String::from_str("Round: ");
        let round = number_text(self.round as usize);
        text.append(round.as_str());
        text.append(" - ");
        text.append(log_type_str(self.log_type));
        text.append(" (Row: ");
        let row = number_text(self.get_row() as usize);
        text.append(row.as_str());
        text.append(" - Column: ");
        let column = number_text(self.get_column() as usize);
        text.append(column.as_str());
        text.append(" - Value: ");
        let value = number_text(self.value);
        text.append(value.as_str());
        text.append(")");
        text
    }
}

impl QQWing {
    /// A log as text: its items numbered from 1, in the layout of the print
    /// style, with a note in front where history is not recorded.
    pub fn history_to_string(&self, v: Vec<LogItem>) -> (text: String)
        ensures
            text@ == history_text(self@.record_history, self@.print_style, v@),
    {
        let mut sb = String::new();
        let ghost style = self@.print_style;
        if !self.record_history {
            sb.append("History was not recorded.");
            if self.print_style == PrintStyle::CSV {
                sb.append(" -- ");
            } else {
                sb.append("\n");
            }
        }
        assert(sb@ =~= history_head(self@.record_history, style));
        let ghost head = sb@;
        assert(sb@ =~= head + history_lines(v@, style, 0));
        for i in 0..v.len()
            invariant
                style == self@.print_style,
                sb@ == head + history_lines(v@, style, i as int),
        {
            let ghost before = history_lines(v@, style, i as int);
            let number = number_text(i + 1);
            sb.append(number.as_str());
            sb.append(". ");
            let item = v[i].to_text();
            sb.append(item.as_str());
            if self.print_style == PrintStyle::CSV {
                sb.append(" -- ");
            } else {
                sb.append("\n");
            }
            assert(sb@ =~= head + (before + decimal((i + 1) as nat) + ". "@ + item_text(v@[i as int])
                + separator(style)));
        }
        if self.print_style == PrintStyle::CSV {
            sb.append(",");
        } else {
            sb.append("\n");
        }
        sb
    }

    /// The steps that led to the solution as text, or a note that there are
    /// none where the board is not solved.
    pub fn get_solve_instructions_string(&self) -> (text: String)
        ensures
            text@ == (if self@.solved() {
                history_text(self@.record_history, self@.print_style, self@.solve_instructions)
            } else {
                "No solve instructions - Puzzle is not possible to solve."@
            }),
    {
        if self.is_solved() {
            return self.history_to_string(QQWing::copy_log(&self.solve_instructions));
        } else {
            return String::from_str("No solve instructions - Puzzle is not possible to solve.");
        }
    }

    /// Every step taken as text.
    pub fn get_solve_history_string(&self) -> (text: String)
        ensures
            text@ == history_text(self@.record_history, self@.print_style, self@.solve_history),
    {
        self.history_to_string(QQWing::copy_log(&self.solve_history))
    }

    /// A grid of 81 values as text, in the layout of the print style. A blank
    /// is written as a dot.
    #[verifier::rlimit(30)]
    pub fn puzzle_to_string(&self, sudoku: [u8; 81]) -> (text: String)
        ensures
            text@ == puzzle_text(self@.print_style, sudoku@),
    {
        let mut sb = String::new();
        let ghost style = self@.print_style;
        for i in 0..BOARD_SIZE
            invariant
                style == self@.print_style,
                sb@ == puzzle_text_below(style, sudoku@, i as int),
        {
            let ghost before = sb@;
            if self.print_style == PrintStyle::READABLE {
                sb.append(" ");
            }
            if sudoku[i] == 0 {
                sb.append(".");
            } else {
                let mark = number_text(sudoku[i] as usize);
                sb.append(mark.as_str());
            }
            let ghost marked = sb@;
            assert(marked =~= before + cell_lead(style) + cell_mark(sudoku@[i as int]));
            if i == BOARD_SIZE - 1 {
                if self.print_style == PrintStyle::CSV {
                    sb.append(",");
                } else {
                    sb.append("\n");
                }
                if self.print_style == PrintStyle::READABLE || self.print_style
                    == PrintStyle::COMPACT {
                    sb.append("\n");
                }
            } else if i % ROW_COL_SEC_SIZE == ROW_COL_SEC_SIZE - 1 {
                if self.print_style == PrintStyle::READABLE || self.print_style
                    == PrintStyle::COMPACT {
                    sb.append("\n");
                }
                if i % SEC_GROUP_SIZE == SEC_GROUP_SIZE - 1 {
                    if self.print_style == PrintStyle::READABLE {
                        sb.append("-------|-------|-------");
                        sb.append("\n");
                    }
                }
            } else if i % GRID_SIZE == GRID_SIZE - 1 {
                if self.print_style == PrintStyle::READABLE {
                    sb.append(" |");
                }
                assert(sb@ =~= marked + section_bar(style));
            } else {
                assert(sb@ =~= marked + Seq::<char>::empty());
            }
        }
        sb
    }

    /// The puzzle as text, in the layout of the print style.
    pub fn get_puzzle_string(&self) -> (text: String)
        ensures
            text@ == puzzle_text(self@.print_style, self@.puzzle),
    {
        self.puzzle_to_string(self.puzzle)
    }

    /// The solution as text, in the layout of the print style.
    pub fn get_solution_string(&self) -> (text: String)
        ensures
            text@ == puzzle_text(self@.print_style, self@.solution),
    {
        self.puzzle_to_string(self.solution)
    }

    /// The statistics gathered while solving the puzzle, as text: the
    /// difficulty, the number of givens, and how often each technique was
    /// used.
    pub fn get_stats(&self) -> (text: String)
        ensures
            text@ == stats_text(
                self@.print_style,
                self@.puzzle,
                self@.solve_instructions,
                self@.solve_history,
            ),
    {
        let mut sb = String::new();
        let given_count = self.get_given_count();
        let single_count = self.get_single_count();
        let hidden_single_count = self.get_hidden_single_count();
        let naked_pair_count = self.get_naked_pair_count();
        let hidden_pair_count = self.get_hidden_pair_count();
        let pointing_pair_triple_count = self.get_pointing_pair_triple_count();
        let box_reduction_count = self.get_box_line_reduction_count();
        let guess_count = self.get_guess_count();
        let backtrack_count = self.get_backtrack_count();
        let difficulty_string = self.get_difficulty();
        if self.print_style == PrintStyle::CSV {
            sb.append(difficulty_str(difficulty_string));
            sb.append(",");
            QQWing::append_field(&mut sb, given_count as usize);
            QQWing::append_field(&mut sb, single_count);
            QQWing::append_field(&mut sb, hidden_single_count);
            QQWing::append_field(&mut sb, naked_pair_count);
            QQWing::append_field(&mut sb, hidden_pair_count);
            QQWing::append_field(&mut sb, pointing_pair_triple_count);
            QQWing::append_field(&mut sb, box_reduction_count);
            QQWing::append_field(&mut sb, guess_count);
            QQWing::append_field(&mut sb, backtrack_count);
        } else {
            sb.append("Difficulty: ");
            sb.append(difficulty_str(difficulty_string));
            sb.append("\n");
            QQWing::append_line(&mut sb, "Number of Givens: ", given_count as usize);
            QQWing::append_line(&mut sb, "Number of Singles: ", single_count);
            QQWing::append_line(&mut sb, "Number of Hidden Singles: ", hidden_single_count);
            QQWing::append_line(&mut sb, "Number of Naked Pairs: ", naked_pair_count);
            QQWing::append_line(&mut sb, "Number of Hidden Pairs: ", hidden_pair_count);
            QQWing::append_line(
                &mut sb,
                "Number of Pointing Pairs/Triples: ",
                pointing_pair_triple_count,
            );
            QQWing::append_line(&mut sb, "Number of Box/Line Intersections: ", box_reduction_count);
            QQWing::append_line(&mut sb, "Number of Guesses: ", guess_count);
            QQWing::append_line(&mut sb, "Number of Backtracks: ", backtrack_count);
        }
        sb
    }

    /// Appends a number and a comma.
    pub fn append_field(sb: &mut String, n: usize)
        ensures
            final(sb)@ == old(sb)@ + stat_field(n as nat),
    {
        let number = number_text(n);
        sb.append(number.as_str());
        sb.append(",");
    }

    /// Appends a label, a number and a line break.
    pub fn append_line(sb: &mut String, label: &str, n: usize)
        ensures
            final(sb)@ == old(sb)@ + stat_line(label@, n as nat),
    {
        sb.append(label);
        let number = number_text(n);
        sb.append(number.as_str());
        sb.append("\n");
    }
}

} // verus!
