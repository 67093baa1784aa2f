//! The board itself: creating it, marking a cell, rolling a round back, and
//! the questions asked of it while solving.

use vstd::prelude::*;
use crate::{Board, PrintStyle, QQWing, QQWingError};
use crate::grid::{
    column_of,
    lemma_section_digits,
    lemma_section_member,
    peers,
    row_of,
    section_of,
    slot,
};
use crate::logitem::LogItem;
use crate::logtype::LogType;
use crate::state::{
    blocked,
    clashes,
    consistent,
    consistent_below,
    covers,
    first_clash_from,
    given_item,
    given_items,
    solves,
    standing_givens,
    trimmed,
    valid_grid,
    zeros_below,
};
use crate::laws::{lemma_admits_marked, lemma_marked_wf};
use crate::{BOARD_SIZE, GRID_SIZE, POSSIBILITY_SIZE, ROW_COL_SEC_SIZE, UNSET_VALUE};

verus! {

/// The board that `new` makes: empty, with cells and values in their natural
/// order, and history switched off.
pub open spec fn fresh_board() -> Board {
    Board {
        last_solve_round: 0,
        puzzle: Seq::new(81, |i: int| 0u8),
        solution: Seq::new(81, |i: int| 0u8),
        solution_round: Seq::new(81, |i: int| 0u8),
        possibilities: Seq::new(729, |i: int| 0u8),
        random_board_array: Seq::new(81, |i: int| i as u8),
        random_possibility_array: Seq::new(9, |i: int| i as u8),
        record_history: false,
        log_history: false,
        solve_history: Seq::empty(),
        solve_instructions: Seq::empty(),
        print_style: PrintStyle::READABLE,
    }
}

/// Entry `i` belongs to `value` at one of the first `n` cells of the row of
/// `position`.
pub open spec fn hit_row(position: int, value: u8, i: int, n: int) -> bool {
    i % 9 == value - 1 && row_of(i / 9) == row_of(position) && column_of(i / 9) < n
}

/// Entry `i` belongs to `value` at one of the first `n` cells of the column of
/// `position`.
pub open spec fn hit_column(position: int, value: u8, i: int, n: int) -> bool {
    i % 9 == value - 1 && column_of(i / 9) == column_of(position) && row_of(i / 9) < n
}

/// Entry `i` belongs to `value` at a cell of the section of `position` that
/// lies in one of its first `a` columns, or in column `a` above row `b`.
pub open spec fn hit_section(position: int, value: u8, i: int, a: int, b: int) -> bool {
    i % 9 == value - 1 && section_of(i / 9) == section_of(position) && (column_of(i / 9) % 3 < a
        || (column_of(i / 9) % 3 == a && row_of(i / 9) % 3 < b))
}

/// Entry `i` belongs to one of the first `n` values at `position`.
pub open spec fn hit_cell(position: int, i: int, n: int) -> bool {
    i / 9 == position && i % 9 < n
}

impl QQWing {
    /// An empty board: no givens, nothing worked out, cells and values in
    /// their natural order, history switched off, readable print style.
    pub fn new() -> (board: Self)
        ensures
            board@ == fresh_board(),
            board@.wf(),
    {
        let mut cells = [0u8;BOARD_SIZE];
        let mut values = [0u8;ROW_COL_SEC_SIZE];
        for i in 0..BOARD_SIZE
            invariant
                forall|k: int| 0 <= k < i ==> cells@[k] == k as u8,
        {
            cells[i] = i as u8;
        }
        for i in 0..ROW_COL_SEC_SIZE
            invariant
                forall|k: int| 0 <= k < i ==> values@[k] == k as u8,
        {
            values[i] = i as u8;
        }
        let board = QQWing {
            last_solve_round: 0,
            puzzle: [0;BOARD_SIZE],
            solution: [0;BOARD_SIZE],
            solution_round: [0;BOARD_SIZE],
            possibilities: [0;POSSIBILITY_SIZE],
            random_possibility_array: values,
            random_board_array: cells,
            record_history: false,
            log_history: false,
            solve_history: Vec::new(),
            solve_instructions: Vec::new(),
            print_style: PrintStyle::READABLE,
        };
        proof {
            let b = board@;
            let f = fresh_board();
            assert(b.puzzle =~= f.puzzle);
            assert(b.possibilities =~= f.possibilities);
            assert(b.random_board_array =~= f.random_board_array);
            assert(b.random_possibility_array =~= f.random_possibility_array);
            assert forall|c: int| 0 <= c < 81 implies #[trigger] crate::state::occurs(
                b.random_board_array,
                c,
            ) by {
                assert(b.random_board_array[c] == c);
            }
            assert forall|v: int| 0 <= v < 9 implies #[trigger] crate::state::occurs(
                b.random_possibility_array,
                v,
            ) by {
                assert(b.random_possibility_array[v] == v);
            }
        }
        board
    }

    /// Sets the layout in which puzzles and histories are written out.
    pub fn set_print_style(&mut self, ps: PrintStyle)
        ensures
            final(self)@ == (Board { print_style: ps, ..old(self)@ }),
    {
        self.print_style = ps;
    }

    /// Switches the recording of history on or off.
    pub fn set_record_history(&mut self, rec_history: bool)
        ensures
            final(self)@ == (Board { record_history: rec_history, ..old(self)@ }),
    {
        self.record_history = rec_history;
    }

    /// Switches the reporting of steps as they are taken on or off. The
    /// board keeps the setting; the reporting is done by whoever drives it.
    pub fn set_log_history(&mut self, log_hist: bool)
        ensures
            final(self)@ == (Board { log_history: log_hist, ..old(self)@ }),
    {
        self.log_history = log_hist;
    }

    /// Rules out the entry `val_pos` in `round`, if it is still open.
    pub fn rule_out(&mut self, val_pos: usize, round: u8) -> (changed: bool)
        requires
            val_pos < 729,
        ensures
            changed == (old(self)@.possibilities[val_pos as int] == 0),
            changed ==> final(self)@ == (Board {
                possibilities: old(self)@.possibilities.update(val_pos as int, round),
                ..old(self)@
            }),
            !changed ==> final(self)@ == old(self)@,
    {
        if self.possibilities[val_pos] == 0 {
            self.possibilities[val_pos] = round;
            true
        } else {
            false
        }
    }

    /// Mark the given value at the given position. Go through the row, column,
    /// and section for the position and remove the value from the
    /// possibilities.
    ///
    /// Fails, with `PositionAlreadyMarked`, where the cell has a value or a
    /// round, or where the value has been ruled out there. In the last case
    /// the value stands in the cell all the same.
    pub fn mark(&mut self, position: usize, round: u8, value: u8) -> (res: Result<
        bool,
        QQWingError,
    >)
        requires
            position < 81,
            1 <= value <= 9,
        ensures
            res is Ok <==> old(self)@.markable(position as int, value),
            res matches Ok(done) ==> done && final(self)@ == old(self)@.marked(
                position as int,
                round,
                value,
            ),
            res matches Err(e) ==> e == QQWingError::PositionAlreadyMarked && final(self)@ == (
            if old(self)@.solution[position as int] == 0 && old(self)@.solution_round[position as int]
                == 0 {
                Board {
                    solution: old(self)@.solution.update(position as int, value),
                    ..old(self)@
                }
            } else {
                old(self)@
            }),
    {
        if self.solution[position] != 0 {
            return Err(QQWingError::PositionAlreadyMarked);
        }
        if self.solution_round[position] != 0 {
            return Err(QQWingError::PositionAlreadyMarked);
        }
        let val_index = value - 1;
        self.solution[position] = value;

        let poss_ind = QQWing::get_possibility_index(val_index as usize, position);
        if self.possibilities[poss_ind] != 0 {
            return Err(QQWingError::PositionAlreadyMarked);
        }
        // Take this value out of the possibilities for everything in the row
        self.solution_round[position] = round;
        let ghost start = self@;
        let ghost pos = position as int;
        let row_start = QQWing::cell_to_row(position) * ROW_COL_SEC_SIZE;
        for col in 0..ROW_COL_SEC_SIZE
            invariant
                position < 81,
                1 <= value <= 9,
                val_index == value - 1,
                pos == position as int,
                row_start == row_of(pos) * 9,
                start.possibilities.len() == 729,
                self@ == (Board { possibilities: self@.possibilities, ..start }),
                forall|i: int|
                    0 <= i < 729 ==> #[trigger] self@.possibilities[i] == (if start.possibilities[i]
                        == 0 && hit_row(pos, value, i, col as int) {
                        round
                    } else {
                        start.possibilities[i]
                    }),
        {
            let row_val = row_start + col;
            let val_pos = QQWing::get_possibility_index(val_index as usize, row_val);
            self.rule_out(val_pos, round);
        }

        // Take this value out of the possibilities for everything in the column
        let col_start = QQWing::cell_to_column(position);
        for i in 0..ROW_COL_SEC_SIZE
            invariant
                position < 81,
                1 <= value <= 9,
                val_index == value - 1,
                pos == position as int,
                col_start == column_of(pos),
                start.possibilities.len() == 729,
                self@ == (Board { possibilities: self@.possibilities, ..start }),
                forall|k: int|
                    0 <= k < 729 ==> #[trigger] self@.possibilities[k] == (if start.possibilities[k]
                        == 0 && (hit_row(pos, value, k, 9) || hit_column(pos, value, k, i as int)) {
                        round
                    } else {
                        start.possibilities[k]
                    }),
        {
            let col_val = col_start + (ROW_COL_SEC_SIZE * i);
            let val_pos = QQWing::get_possibility_index(val_index as usize, col_val);
            self.rule_out(val_pos, round);
        }

        // Take this value out of the possibilities for everything in section
        let sec_start = QQWing::cell_to_section_start_cell(position);
        proof {
            let a = pos / 27;
            let b = (pos % 9) / 3;
            lemma_section_digits(a, b, 0, 0);
        }
        for i in 0..GRID_SIZE
            invariant
                position < 81,
                1 <= value <= 9,
                val_index == value - 1,
                pos == position as int,
                sec_start == pos / 27 * 27 + (pos % 9) / 3 * 3,
                start.possibilities.len() == 729,
                self@ == (Board { possibilities: self@.possibilities, ..start }),
                forall|k: int|
                    0 <= k < 729 ==> #[trigger] self@.possibilities[k] == (if start.possibilities[k]
                        == 0 && (hit_row(pos, value, k, 9) || hit_column(pos, value, k, 9)
                        || hit_section(pos, value, k, i as int, 0)) {
                        round
                    } else {
                        start.possibilities[k]
                    }),
        {
            for j in 0..GRID_SIZE
                invariant
                    i < 3,
                    position < 81,
                    1 <= value <= 9,
                    val_index == value - 1,
                    pos == position as int,
                    sec_start == pos / 27 * 27 + (pos % 9) / 3 * 3,
                    start.possibilities.len() == 729,
                    self@ == (Board { possibilities: self@.possibilities, ..start }),
                    forall|k: int|
                        0 <= k < 729 ==> #[trigger] self@.possibilities[k] == (
                        if start.possibilities[k] == 0 && (hit_row(pos, value, k, 9) || hit_column(
                            pos,
                            value,
                            k,
                            9,
                        ) || hit_section(pos, value, k, i as int, j as int)) {
                            round
                        } else {
                            start.possibilities[k]
                        }),
            {
                let sec_val = sec_start + i + (ROW_COL_SEC_SIZE * j);
                proof {
                    assert forall|k: int| 0 <= k < 729 implies (hit_section(
                        pos,
                        value,
                        k,
                        i as int,
                        j as int + 1,
                    ) <==> hit_section(pos, value, k, i as int, j as int) || k == slot(
                        val_index as int,
                        sec_val as int,
                    )) by {
                        lemma_section_member(pos, k / 9, i as int, j as int);
                    }
                }
                let val_pos = QQWing::get_possibility_index(val_index as usize, sec_val);
                self.rule_out(val_pos, round);
            }
        }

        // This position itself is determined, it should have possibilities.
        for val_index in 0..ROW_COL_SEC_SIZE
            invariant
                position < 81,
                1 <= value <= 9,
                pos == position as int,
                start.possibilities.len() == 729,
                self@ == (Board { possibilities: self@.possibilities, ..start }),
                forall|k: int|
                    0 <= k < 729 ==> #[trigger] self@.possibilities[k] == (if start.possibilities[k]
                        == 0 && (hit_row(pos, value, k, 9) || hit_column(pos, value, k, 9)
                        || hit_section(pos, value, k, 3, 0) || hit_cell(pos, k, val_index as int)) {
                        round
                    } else {
                        start.possibilities[k]
                    }),
        {
            let val_pos = QQWing::get_possibility_index(val_index, position);
            self.rule_out(val_pos, round);
        }
        proof {
            let want = old(self)@.marked(pos, round, value);
            assert forall|k: int| 0 <= k < 729 implies (covers(pos, value, k) <==> (hit_row(
                pos,
                value,
                k,
                9,
            ) || hit_column(pos, value, k, 9) || hit_section(pos, value, k, 3, 0) || hit_cell(
                pos,
                k,
                9,
            ))) by {}
            assert(self@.possibilities =~= want.possibilities);
        }
        Ok(true)
    }

    /// Hands an item to the history. It is kept only while history is
    /// recorded.
    pub fn add_history_item(&mut self, l: LogItem)
        ensures
            final(self)@ == old(self)@.logged(l),
    {
        if self.record_history {
            self.solve_history.push(l);
            self.solve_instructions.push(l);
        }
    }

    /// Undoes a round: frees the cells assigned in it, opens the entries ruled
    /// out in it, and drops its trailing items from the surviving log.
    pub fn rollback_round(&mut self, round: u8)
        ensures
            final(self)@ == old(self)@.rolled_back(round),
    {
        if self.log_history || self.record_history {
            self.add_history_item(
                LogItem::new(round, LogType::Rollback, UNSET_VALUE, UNSET_VALUE),
            );
        }
        let ghost start = self@;
        let ghost want = old(self)@.rolled_back(round);
        assert(trimmed(start.solve_instructions, round) == want.solve_instructions) by {
            if old(self)@.record_history {
                assert(start.solve_instructions.drop_last() =~= old(self)@.solve_instructions);
            }
        }
        for i in 0..BOARD_SIZE
            invariant
                self@ == (Board {
                    solution: self@.solution,
                    solution_round: self@.solution_round,
                    ..start
                }),
                forall|p: int|
                    0 <= p < 81 ==> #[trigger] self@.solution[p] == (if p < i
                        && start.solution_round[p] == round {
                        0u8
                    } else {
                        start.solution[p]
                    }),
                forall|p: int|
                    0 <= p < 81 ==> #[trigger] self@.solution_round[p] == (if p < i
                        && start.solution_round[p] == round {
                        0u8
                    } else {
                        start.solution_round[p]
                    }),
        {
            if self.solution_round[i] == round {
                self.solution_round[i] = 0;
                self.solution[i] = 0;
            }
        }
        for i in 0..POSSIBILITY_SIZE
            invariant
                self@ == (Board {
                    solution: self@.solution,
                    solution_round: self@.solution_round,
                    possibilities: self@.possibilities,
                    ..start
                }),
                self@.solution =~= want.solution,
                self@.solution_round =~= want.solution_round,
                forall|k: int|
                    0 <= k < 729 ==> #[trigger] self@.possibilities[k] == (if k < i
                        && start.possibilities[k] == round {
                        0u8
                    } else {
                        start.possibilities[k]
                    }),
        {
            if self.possibilities[i] == round {
                self.possibilities[i] = 0;
            }
        }
        assert(self@.possibilities =~= want.possibilities);
        while self.solve_instructions.len() > 0 && self.solve_instructions[
            self.solve_instructions.len() - 1
        ].get_round() == round
            invariant
                self@ == (Board { solve_instructions: self@.solve_instructions, ..want }),
                trimmed(self@.solve_instructions, round) == want.solve_instructions,
            decreases self.solve_instructions.len(),
        {
            let i = self.solve_instructions.len() - 1;
            self.solve_instructions.remove(i);
        }
    }

    /// Check if the puzzle is solved.
    pub fn is_solved(&self) -> (res: bool)
        ensures
            res == self@.solved(),
    {
        for i in 0..BOARD_SIZE
            invariant
                forall|p: int| 0 <= p < i ==> #[trigger] self@.solution[p] != 0,
        {
            if self.solution[i] == 0 {
                assert(self@.solution[i as int] == 0);
                return false;
            }
        }
        true
    }

    /// How many values are still possible at a cell.
    pub fn count_possibilities(&self, position: usize) -> (count: u32)
        requires
            position < 81,
        ensures
            count == self@.candidate_count(position as int),
            count <= 9,
    {
        let mut count: u32 = 0;
        for val_index in 0..ROW_COL_SEC_SIZE
            invariant
                position < 81,
                count == zeros_below(self@.cell_entries(position as int), val_index as int),
                count <= val_index,
        {
            let val_pos = QQWing::get_possibility_index(val_index, position);
            if self.possibilities[val_pos] == 0 {
                count += 1;
            }
        }
        count
    }

    /// Whether some free cell has no possible value left.
    pub fn is_impossible(&self) -> (res: bool)
        ensures
            res == self@.impossible(),
    {
        for position in 0..BOARD_SIZE
            invariant
                forall|p: int|
                    0 <= p < position ==> !(#[trigger] self@.solution[p] == 0 && self@.stuck_at(p)),
        {
            if self.solution[position] == 0 {
                let mut count: u32 = 0;
                for val_index in 0..ROW_COL_SEC_SIZE
                    invariant
                        position < 81,
                        count <= val_index,
                        count == 0 <==> forall|v: int|
                            0 <= v < val_index ==> self@.possibilities[#[trigger] slot(
                                v,
                                position as int,
                            )] != 0,
                {
                    let val_pos = QQWing::get_possibility_index(val_index, position);
                    if self.possibilities[val_pos] == 0 {
                        count += 1;
                    }
                }
                if count == 0 {
                    assert(self@.solution[position as int] == 0 && self@.stuck_at(
                        position as int,
                    ));
                    return true;
                }
            }
        }
        false
    }

    /// Whether the same values are possible at two cells.
    pub fn are_possibilities_same(&self, position1: usize, position2: usize) -> (same: bool)
        requires
            position1 < 81,
            position2 < 81,
        ensures
            same == (forall|v: int|
                0 <= v < 9 ==> (self@.possible(v, position1 as int) <==> #[trigger] self@.possible(
                    v,
                    position2 as int,
                ))),
    {
        for val_index in 0..ROW_COL_SEC_SIZE
            invariant
                position1 < 81,
                position2 < 81,
                forall|v: int|
                    0 <= v < val_index ==> (self@.possible(v, position1 as int)
                        <==> #[trigger] self@.possible(v, position2 as int)),
        {
            let val_pos1 = QQWing::get_possibility_index(val_index, position1);
            let val_pos2 = QQWing::get_possibility_index(val_index, position2);
            if (self.possibilities[val_pos1] == 0 || self.possibilities[val_pos2] == 0) && (
            self.possibilities[val_pos1] != 0 || self.possibilities[val_pos2] != 0) {
                assert(!(self@.possible(val_index as int, position1 as int) <==> self@.possible(
                    val_index as int,
                    position2 as int,
                )));
                return false;
            }
        }
        true
    }

    /// Rules out at the second cell every value that is possible at the first
    /// cell. Says whether this ruled anything out.
    pub fn remove_possibilities_in_one_from_two(
        &mut self,
        position1: usize,
        position2: usize,
        round: u8,
    ) -> (done_something: bool)
        requires
            position1 < 81,
            position2 < 81,
            position1 != position2,
        ensures
            done_something == (exists|v: int|
                0 <= v < 9 && old(self)@.possible(v, position1 as int) && #[trigger] old(
                    self,
                )@.possible(v, position2 as int)),
            final(self)@ == (Board {
                possibilities: Seq::new(
                    729,
                    |i: int|
                        if old(self)@.possibilities[i] == 0 && i / 9 == position2 && old(
                            self,
                        )@.possible(i % 9, position1 as int) {
                            round
                        } else {
                            old(self)@.possibilities[i]
                        },
                ),
                ..old(self)@
            }),
    {
        let mut done_something = false;
        let ghost start = self@;
        for val_index in 0..ROW_COL_SEC_SIZE
            invariant
                position1 < 81,
                position2 < 81,
                position1 != position2,
                start.possibilities.len() == 729,
                self@ == (Board { possibilities: self@.possibilities, ..start }),
                done_something == (exists|v: int|
                    0 <= v < val_index && start.possible(v, position1 as int)
                        && #[trigger] start.possible(v, position2 as int)),
                forall|i: int|
                    0 <= i < 729 ==> #[trigger] self@.possibilities[i] == (if start.possibilities[i]
                        == 0 && i / 9 == position2 && i % 9 < val_index && start.possible(
                        i % 9,
                        position1 as int,
                    ) {
                        round
                    } else {
                        start.possibilities[i]
                    }),
        {
            let val_pos1 = QQWing::get_possibility_index(val_index, position1);
            let val_pos2 = QQWing::get_possibility_index(val_index, position2);

            if self.possibilities[val_pos1] == 0 && self.possibilities[val_pos2] == 0 {
                self.possibilities[val_pos2] = round;
                done_something = true;
                assert(start.possible(val_index as int, position1 as int) && start.possible(
                    val_index as int,
                    position2 as int,
                ));
            }
        }
        assert(self@.possibilities =~= Seq::new(
            729,
            |i: int|
                if start.possibilities[i] == 0 && i / 9 == position2 && start.possible(
                    i % 9,
                    position1 as int,
                ) {
                    round
                } else {
                    start.possibilities[i]
                },
        ));
        done_something
    }

    /// Get the number of cells that are set in the puzzle (as opposed to
    /// figured out in the solution).
    pub fn get_given_count(&self) -> (count: u32)
        ensures
            count == 81 - zeros_below(self@.puzzle, 81),
    {
        let mut count: u32 = 0;
        for i in 0..BOARD_SIZE
            invariant
                count == i - zeros_below(self@.puzzle, i as int),
                count <= i,
        {
            if self.puzzle[i] != 0 {
                count += 1;
            }
        }
        count
    }

    /// The givens, cell by cell.
    pub fn get_puzzle(&self) -> (values: Vec<u8>)
        ensures
            values@ == self@.puzzle,
    {
        let mut values: Vec<u8> = Vec::new();
        for i in 0..BOARD_SIZE
            invariant
                values@ == self@.puzzle.subrange(0, i as int),
        {
            values.push(self.puzzle[i]);
        }
        values
    }

    /// The solution as far as it has been worked out, cell by cell, 0 for a
    /// free cell.
    pub fn get_solution(&self) -> (values: Vec<u8>)
        ensures
            values@ == self@.solution,
    {
        let mut values: Vec<u8> = Vec::new();
        for i in 0..BOARD_SIZE
            invariant
                values@ == self@.solution.subrange(0, i as int),
        {
            values.push(self.solution[i]);
        }
        values
    }

    /// For each cell the round that assigned it, 0 for a free cell.
    pub fn get_solution_round(&self) -> (values: Vec<u8>)
        ensures
            values@ == self@.solution_round,
    {
        let mut values: Vec<u8> = Vec::new();
        for i in 0..BOARD_SIZE
            invariant
                values@ == self@.solution_round.subrange(0, i as int),
        {
            values.push(self.solution_round[i]);
        }
        values
    }

    /// The possibility table: for each cell and value 0 while the value is
    /// possible there, else the round that ruled it out.
    pub fn get_possibilities(&self) -> (values: Vec<u8>)
        ensures
            values@ == self@.possibilities,
    {
        let mut values: Vec<u8> = Vec::new();
        for i in 0..POSSIBILITY_SIZE
            invariant
                values@ == self@.possibilities.subrange(0, i as int),
        {
            values.push(self.possibilities[i]);
        }
        values
    }

    /// Reset the board to its initial state with only the givens. This method
    /// clears any solution, resets statistics, and clears any history
    /// messages. It stops at the first given that clashes with one before
    /// it, and says whether it got through.
    pub fn reset(&mut self) -> (res: bool)
        requires
            old(self)@.ready(),
        ensures
            res == consistent(old(self)@.puzzle),
            final(self)@ == old(self)@.with_givens(standing_givens(old(self)@.puzzle)),
            final(self)@.wf(),
            final(self)@.stamps_at_most(1),
            final(self)@.log_at_most(1),
            forall|g: Seq<u8>| #[trigger] final(self)@.admits(g) <==> solves(g, final(self)@.solution),
    {
        self.solution = [0;BOARD_SIZE];
        self.solution_round = [0;BOARD_SIZE];
        self.possibilities = [0;POSSIBILITY_SIZE];
        self.solve_history.clear();
        self.solve_instructions.clear();

        let round: u8 = 1;
        let ghost start = old(self)@;
        let ghost puzzle = start.puzzle;
        proof {
            let want = start.with_givens(givens_below(puzzle, 0));
            assert forall|i: int| 0 <= i < 729 implies !blocked(givens_below(puzzle, 0), i) by {}
            assert(self@.possibilities =~= want.possibilities);
            assert(self@.solution =~= want.solution);
            assert(self@.solution_round =~= want.solution_round);
            lemma_given_items_below(puzzle, 0, 81);
            assert forall|g: Seq<u8>| #[trigger] self@.admits(g) <==> solves(
                g,
                givens_below(puzzle, 0),
            ) by {
                if valid_grid(g) {
                    assert forall|p: int| 0 <= p < 81 implies self@.possible(g[p] - 1, p) by {}
                }
            }
        }
        for position in 0..BOARD_SIZE
            invariant
                start == old(self)@,
                start.ready(),
                puzzle == start.puzzle,
                round == 1,
                self@ == start.with_givens(givens_below(puzzle, position as int)),
                consistent_below(puzzle, position as int),
                first_clash_from(puzzle, position as int) == first_clash_from(puzzle, 0),
                self@.wf(),
                self@.stamps_at_most(1),
                self@.log_at_most(1),
                forall|g: Seq<u8>| #[trigger]
                    self@.admits(g) <==> solves(g, givens_below(puzzle, position as int)),
        {
            let ghost n = position as int;
            let ghost before = self@;
            if self.puzzle[position] > 0 {
                let val_index = self.puzzle[position] - 1;
                let val_pos = QQWing::get_possibility_index(val_index as usize, position);
                let value = self.puzzle[position];
                proof {
                    lemma_blocked_is_clash(puzzle, n);
                }
                if self.possibilities[val_pos] != 0 {
                    return false;
                }
                proof {
                    lemma_marked_wf(before, n, round, value);
                    lemma_given_step(start, puzzle, n);
                    assert forall|g: Seq<u8>| #[trigger]
                        before.marked(n, round, value).admits(g) <==> solves(
                            g,
                            givens_below(puzzle, n + 1),
                        ) by {
                        lemma_admits_marked(before, n, round, value, g);
                    }
                }
                let _ = self.mark(position, round, value);
                if self.log_history || self.record_history {
                    self.add_history_item(
                        LogItem::new(round, LogType::Given, value as usize, position),
                    );
                }
                proof {
                    let item = given_item(value, n);
                    assert forall|g: Seq<u8>| #[trigger]
                        self@.admits(g) <==> before.marked(n, round, value).admits(g) by {}
                }
            } else {
                proof {
                    assert(givens_below(puzzle, n + 1) =~= givens_below(puzzle, n));
                }
            }
        }
        true
    }

    /// Set the board to the given puzzle, which holds 81 numbers from 0 to 9,
    /// 0 for a blank, and carry out its givens. Says whether the givens are
    /// consistent.
    pub fn set_puzzle(&mut self, init_puzzle: Vec<u8>) -> (res: bool)
        requires
            old(self)@.orders_complete(),
            init_puzzle.len() >= 81,
            forall|i: int| 0 <= i < 81 ==> #[trigger] init_puzzle[i] <= 9,
        ensures
            final(self)@.puzzle == init_puzzle@.subrange(0, 81),
            res == consistent(final(self)@.puzzle),
            final(self)@ == (Board { puzzle: final(self)@.puzzle, ..old(self)@ }).with_givens(
                standing_givens(final(self)@.puzzle),
            ),
            final(self)@.wf(),
            final(self)@.stamps_at_most(1),
            forall|g: Seq<u8>| #[trigger] final(self)@.admits(g) <==> solves(g, final(self)@.solution),
    {
        for i in 0..BOARD_SIZE
            invariant
                init_puzzle.len() >= 81,
                self@ == (Board { puzzle: self@.puzzle, ..old(self)@ }),
                forall|k: int| 0 <= k < i ==> #[trigger] self@.puzzle[k] == init_puzzle[k],
                forall|k: int| i <= k < 81 ==> #[trigger] self@.puzzle[k] == old(self)@.puzzle[k],
        {
            self.puzzle[i] = init_puzzle[i];
        }
        self.reset()
    }

    /// Empties the puzzle and the board.
    pub fn clear_puzzle(&mut self)
        requires
            old(self)@.orders_complete(),
        ensures
            final(self)@ == (Board { puzzle: Seq::new(81, |i: int| 0u8), ..old(self)@ }).with_givens(
                Seq::new(81, |i: int| 0u8),
            ),
            final(self)@.wf(),
            final(self)@.stamps_at_most(0),
            forall|g: Seq<u8>| #[trigger] final(self)@.admits(g) <==> valid_grid(g),
    {
        for i in 0..BOARD_SIZE
            invariant
                self@ == (Board { puzzle: self@.puzzle, ..old(self)@ }),
                forall|k: int| 0 <= k < i ==> #[trigger] self@.puzzle[k] == 0,
        {
            self.puzzle[i] = 0;
        }
        let ghost zeros = Seq::new(81, |i: int| 0u8);
        assert(self@.puzzle =~= zeros);
        proof {
            lemma_first_clash_none(zeros, 0);
            assert(standing_givens(zeros) =~= zeros);
        }
        self.reset();
        proof {
            assert forall|i: int| 0 <= i < 729 implies !blocked(zeros, i) by {}
        }
    }
}

/// The givens among the first `n` cells of a puzzle, and blanks after them.
pub open spec fn givens_below(puzzle: Seq<u8>, n: int) -> Seq<u8> {
    Seq::new(81, |p: int| if p < n { puzzle[p] } else { 0u8 })
}

/// A puzzle without a clash from `p` on has its first clash at 81.
pub proof fn lemma_first_clash_none(puzzle: Seq<u8>, p: int)
    requires
        0 <= p <= 81,
        forall|q: int| p <= q < 81 ==> !#[trigger] clashes(puzzle, q),
    ensures
        first_clash_from(puzzle, p) == 81,
    decreases 81 - p,
{
    if p < 81 {
        lemma_first_clash_none(puzzle, p + 1);
    }
}

/// The log items of givens that end before cell `m` are those of the whole
/// puzzle up to there.
pub proof fn lemma_given_items_below(puzzle: Seq<u8>, n: int, m: int)
    requires
        0 <= n <= m <= 81,
    ensures
        given_items(givens_below(puzzle, n), m) == given_items(puzzle, n),
    decreases m,
{
    let gs = givens_below(puzzle, n);
    if m > n {
        lemma_given_items_below(puzzle, n, m - 1);
    } else {
        lemma_given_items_same(gs, puzzle, n);
    }
}

/// Givens that agree on the first `n` cells have the same log items there.
pub proof fn lemma_given_items_same(a: Seq<u8>, b: Seq<u8>, n: int)
    requires
        0 <= n,
        forall|p: int| 0 <= p < n ==> #[trigger] a[p] == b[p],
    ensures
        given_items(a, n) == given_items(b, n),
    decreases n,
{
    if n > 0 {
        lemma_given_items_same(a, b, n - 1);
    }
}

/// On the board that holds the first `n` givens, the entry for the next given
/// is ruled out exactly if that given clashes with one before it.
pub proof fn lemma_blocked_is_clash(puzzle: Seq<u8>, n: int)
    requires
        0 <= n < 81,
        1 <= puzzle[n] <= 9,
    ensures
        blocked(givens_below(puzzle, n), slot(puzzle[n] - 1, n)) <==> clashes(puzzle, n),
{
    let gs = givens_below(puzzle, n);
    let e = slot(puzzle[n] - 1, n);
    assert(e / 9 == n && e % 9 == puzzle[n] - 1);
    if blocked(gs, e) {
        let q = choose|q: int| 0 <= q < 81 && gs[q] != 0 && #[trigger] covers(q, gs[q], e);
        assert(q < n);
        assert(puzzle[q] == puzzle[n] && peers(q, n));
    }
    if clashes(puzzle, n) {
        let q = choose|q: int| 0 <= q < n && #[trigger] puzzle[q] == puzzle[n] && peers(q, n);
        assert(gs[q] == puzzle[q]);
        assert(covers(q, gs[q], e));
    }
}

/// Marking the next given, on the board that holds the first `n` givens, and
/// logging it, gives the board that holds the first `n + 1`.
pub proof fn lemma_given_step(start: Board, puzzle: Seq<u8>, n: int)
    requires
        0 <= n < 81,
        puzzle[n] != 0,
    ensures
        start.with_givens(givens_below(puzzle, n)).marked(n, 1, puzzle[n]).logged(
            given_item(puzzle[n], n),
        ) == start.with_givens(givens_below(puzzle, n + 1)),
{
    let lo = givens_below(puzzle, n);
    let hi = givens_below(puzzle, n + 1);
    let before = start.with_givens(lo);
    let after = before.marked(n, 1, puzzle[n]).logged(given_item(puzzle[n], n));
    let want = start.with_givens(hi);
    assert(after.solution =~= want.solution);
    assert(after.solution_round =~= want.solution_round);
    assert forall|i: int| 0 <= i < 729 implies after.possibilities[i] == want.possibilities[i] by {
        if blocked(lo, i) {
            let q = choose|q: int| 0 <= q < 81 && lo[q] != 0 && #[trigger] covers(q, lo[q], i);
            assert(hi[q] == lo[q]);
            assert(covers(q, hi[q], i));
        }
        if covers(n, puzzle[n], i) {
            assert(covers(n, hi[n], i));
        }
        if blocked(hi, i) {
            let q = choose|q: int| 0 <= q < 81 && hi[q] != 0 && #[trigger] covers(q, hi[q], i);
            if q != n {
                assert(lo[q] == hi[q]);
                assert(covers(q, lo[q], i));
            }
        }
    }
    assert(after.possibilities =~= want.possibilities);
    lemma_given_items_below(puzzle, n, 81);
    lemma_given_items_below(puzzle, n + 1, 81);
    assert(after.solve_history =~= want.solve_history);
    assert(after.solve_instructions =~= want.solve_instructions);
}

} // verus!
