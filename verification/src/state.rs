//! The state of a board as plain values: when it is well formed, what it
//! means to mark a cell and to roll a round back, and which complete grids it
//! still admits.

use vstd::prelude::*;
use crate::Board;
use crate::grid::{house_cell, peers, same_house, slot, House};
use crate::logitem::LogItem;
use crate::logtype::LogType;

verus! {

/// The entry `i` of the possibility table is one that marking `value` at
/// `cell` rules out: an entry of the cell itself, or the entry for that value
/// at a cell in the same row, column or section.
pub open spec fn covers(cell: int, value: u8, i: int) -> bool {
    i / 9 == cell || (i % 9 == value - 1 && same_house(i / 9, cell))
}

/// The number `c` stands somewhere in `order`.
pub open spec fn occurs(order: Seq<u8>, c: int) -> bool {
    exists|i: int| 0 <= i < order.len() && #[trigger] order[i] == c
}

/// How many of the first `n` numbers of `s` are zero.
pub open spec fn zeros_below(s: Seq<u8>, n: int) -> int
    decreases n,
{
    if n <= 0 {
        0
    } else {
        zeros_below(s, n - 1) + if s[n - 1] == 0 {
            1int
        } else {
            0int
        }
    }
}

/// A complete grid: 81 values from 1 to 9.
pub open spec fn is_grid(g: Seq<u8>) -> bool {
    &&& g.len() == 81
    &&& forall|p: int| 0 <= p < 81 ==> 1 <= #[trigger] g[p] <= 9
}

/// A complete grid in which no two cells of a row, column or section hold the
/// same value.
pub open spec fn valid_grid(g: Seq<u8>) -> bool {
    &&& is_grid(g)
    &&& forall|p: int, q: int|
        0 <= p < 81 && 0 <= q < 81 && peers(p, q) ==> #[trigger] g[p] != #[trigger] g[q]
}

/// The given at `p` stands in a house with an equal given before it.
pub open spec fn clashes(puzzle: Seq<u8>, p: int) -> bool {
    puzzle[p] != 0 && exists|q: int| 0 <= q < p && #[trigger] puzzle[q] == puzzle[p] && peers(q, p)
}

/// None of the first `n` givens clashes with one before it.
pub open spec fn consistent_below(puzzle: Seq<u8>, n: int) -> bool {
    forall|p: int| 0 <= p < n ==> !#[trigger] clashes(puzzle, p)
}

/// No two givens of a house are equal.
pub open spec fn consistent(puzzle: Seq<u8>) -> bool {
    consistent_below(puzzle, 81)
}

/// The first cell from `p` on whose given clashes with one before it, or 81
/// if there is none.
pub open spec fn first_clash_from(puzzle: Seq<u8>, p: int) -> int
    decreases 81 - p,
{
    if p >= 81 {
        81
    } else if clashes(puzzle, p) {
        p
    } else {
        first_clash_from(puzzle, p + 1)
    }
}

/// The givens that a board takes up from a puzzle: those before the first
/// clash, which is all of them where the puzzle is consistent.
pub open spec fn standing_givens(puzzle: Seq<u8>) -> Seq<u8> {
    Seq::new(81, |p: int| if p < first_clash_from(puzzle, 0) { puzzle[p] } else { 0u8 })
}

/// Some given rules out the entry `i`.
pub open spec fn blocked(givens: Seq<u8>, i: int) -> bool {
    exists|q: int| 0 <= q < 81 && givens[q] != 0 && #[trigger] covers(q, givens[q], i)
}

/// The complete grid `g` is valid and holds every given.
pub open spec fn solves(g: Seq<u8>, givens: Seq<u8>) -> bool {
    &&& valid_grid(g)
    &&& forall|p: int| 0 <= p < 81 && givens[p] != 0 ==> #[trigger] g[p] == givens[p]
}

/// The log item that records a given.
pub open spec fn given_item(value: u8, position: int) -> LogItem {
    LogItem { round: 1, log_type: LogType::Given, value: value as usize, position: position as usize }
}

/// The log items for the givens among the first `n` cells, in order.
pub open spec fn given_items(givens: Seq<u8>, n: int) -> Seq<LogItem>
    decreases n,
{
    if n <= 0 {
        Seq::empty()
    } else if givens[n - 1] != 0 {
        given_items(givens, n - 1).push(given_item(givens[n - 1], n - 1))
    } else {
        given_items(givens, n - 1)
    }
}

/// A log without its trailing items of a round.
pub open spec fn trimmed(log: Seq<LogItem>, round: u8) -> Seq<LogItem>
    decreases log.len(),
{
    if log.len() > 0 && log.last().round == round {
        trimmed(log.drop_last(), round)
    } else {
        log
    }
}

impl Board {
    /// The arrays have the sizes of the board.
    pub open spec fn shaped(self) -> bool {
        &&& self.puzzle.len() == 81
        &&& self.solution.len() == 81
        &&& self.solution_round.len() == 81
        &&& self.possibilities.len() == 729
        &&& self.random_board_array.len() == 81
        &&& self.random_possibility_array.len() == 9
    }

    /// The two orders hold numbers in range, and every cell and every value
    /// index occurs in its order.
    pub open spec fn orders_complete(self) -> bool {
        &&& forall|i: int| 0 <= i < 81 ==> #[trigger] self.random_board_array[i] < 81
        &&& forall|c: int| 0 <= c < 81 ==> #[trigger] occurs(self.random_board_array, c)
        &&& forall|i: int| 0 <= i < 9 ==> #[trigger] self.random_possibility_array[i] < 9
        &&& forall|v: int| 0 <= v < 9 ==> #[trigger] occurs(self.random_possibility_array, v)
    }

    /// The value with index `value_index` has not been ruled out at `cell`.
    pub open spec fn possible(self, value_index: int, cell: int) -> bool {
        self.possibilities[slot(value_index, cell)] == 0
    }

    /// The board's invariant. Givens and assigned values are at most 9; a cell
    /// has a value exactly if it has a round; whatever an assigned cell rules
    /// out is stamped, and no later than the cell itself; and no two cells of
    /// a house hold the same value.
    pub open spec fn wf(self) -> bool {
        &&& self.shaped()
        &&& self.orders_complete()
        &&& forall|p: int| 0 <= p < 81 ==> #[trigger] self.puzzle[p] <= 9
        &&& forall|p: int| 0 <= p < 81 ==> #[trigger] self.solution[p] <= 9
        &&& forall|p: int|
            0 <= p < 81 ==> (#[trigger] self.solution[p] == 0 <==> self.solution_round[p] == 0)
        &&& forall|q: int, i: int|
            0 <= q < 81 && 0 <= i < 729 && self.solution[q] != 0 && #[trigger] covers(
                q,
                self.solution[q],
                i,
            ) ==> 0 < self.possibilities[i] <= self.solution_round[q]
        &&& forall|p: int, q: int|
            0 <= p < 81 && 0 <= q < 81 && peers(p, q) && #[trigger] self.solution[p] != 0
                ==> self.solution[p] != #[trigger] self.solution[q]
    }

    /// The board can take up its puzzle: the arrays have their sizes, the
    /// orders are complete, and no given is above 9.
    pub open spec fn ready(self) -> bool {
        &&& self.shaped()
        &&& self.orders_complete()
        &&& forall|p: int| 0 <= p < 81 ==> #[trigger] self.puzzle[p] <= 9
    }

    /// The board that holds the givens and nothing else: each given is
    /// assigned in round 1, an entry is ruled out in round 1 exactly if some
    /// given rules it out, and the logs hold the givens, if history is
    /// recorded.
    pub open spec fn with_givens(self, givens: Seq<u8>) -> Board {
        Board {
            solution: givens,
            solution_round: Seq::new(81, |p: int| if givens[p] != 0 { 1u8 } else { 0u8 }),
            possibilities: Seq::new(729, |i: int| if blocked(givens, i) { 1u8 } else { 0u8 }),
            solve_history: if self.record_history {
                given_items(givens, 81)
            } else {
                Seq::empty()
            },
            solve_instructions: if self.record_history {
                given_items(givens, 81)
            } else {
                Seq::empty()
            },
            ..self
        }
    }

    /// The two boards hold the same puzzle, orders and settings.
    pub open spec fn same_setup(self, other: Board) -> bool {
        &&& self.puzzle == other.puzzle
        &&& self.random_board_array == other.random_board_array
        &&& self.random_possibility_array == other.random_possibility_array
        &&& self.record_history == other.record_history
        &&& self.log_history == other.log_history
        &&& self.print_style == other.print_style
    }

    /// The two boards hold the same solution, rounds and possibility table.
    pub open spec fn same_cells(self, other: Board) -> bool {
        &&& self.solution == other.solution
        &&& self.solution_round == other.solution_round
        &&& self.possibilities == other.possibilities
    }

    /// The cells of this board are those of `base` and, on top of them, work
    /// stamped `round`: what was assigned or ruled out in `base` is as it was,
    /// what was free or open is so still or carries `round`.
    pub open spec fn builds_on(self, base: Board, round: u8) -> bool {
        &&& self.same_setup(base)
        &&& forall|p: int|
            0 <= p < 81 && (base.solution_round[p] != 0 || base.solution[p] != 0) ==> (
            #[trigger] self.solution_round[p]) == base.solution_round[p] && self.solution[p]
                == base.solution[p]
        &&& forall|p: int|
            0 <= p < 81 && base.solution_round[p] == 0 && base.solution[p] == 0 ==> (
            #[trigger] self.solution_round[p]) == round || (self.solution_round[p] == 0
                && self.solution[p] == 0)
        &&& forall|i: int|
            0 <= i < 729 && base.possibilities[i] != 0 ==> (#[trigger] self.possibilities[i])
                == base.possibilities[i]
        &&& forall|i: int|
            0 <= i < 729 && base.possibilities[i] == 0 ==> (#[trigger] self.possibilities[i]) == 0
                || self.possibilities[i] == round
    }

    /// This board is `base` and, on top of it, work stamped `round`: the cells
    /// build on those of `base`, and the logs have only grown, the surviving
    /// one by items of `round`.
    pub open spec fn extends(self, base: Board, round: u8) -> bool {
        &&& self.builds_on(base, round)
        &&& base.solve_instructions.is_prefix_of(self.solve_instructions)
        &&& forall|k: int|
            base.solve_instructions.len() <= k < self.solve_instructions.len() ==> (
            #[trigger] self.solve_instructions[k]).round == round
        &&& base.solve_history.is_prefix_of(self.solve_history)
    }

    /// No cell and no entry of the table carries a round above `round`.
    pub open spec fn stamps_at_most(self, round: int) -> bool {
        &&& forall|p: int| 0 <= p < 81 ==> #[trigger] self.solution_round[p] <= round
        &&& forall|i: int| 0 <= i < 729 ==> #[trigger] self.possibilities[i] <= round
    }

    /// No surviving log item carries a round above `round`.
    pub open spec fn log_at_most(self, round: int) -> bool {
        forall|k: int|
            0 <= k < self.solve_instructions.len() ==> (
            #[trigger] self.solve_instructions[k]).round <= round
    }

    /// `value` can be marked at `position`: the cell is free and the value has
    /// not been ruled out there.
    pub open spec fn markable(self, position: int, value: u8) -> bool {
        &&& self.solution[position] == 0
        &&& self.solution_round[position] == 0
        &&& self.possibilities[slot(value - 1, position)] == 0
    }

    /// The board after `value` was marked at `position` in `round`: the cell is
    /// assigned, and every entry that this rules out and that was still open
    /// carries the round.
    pub open spec fn marked(self, position: int, round: u8, value: u8) -> Board {
        Board {
            solution: self.solution.update(position, value),
            solution_round: self.solution_round.update(position, round),
            possibilities: Seq::new(
                729,
                |i: int|
                    if self.possibilities[i] == 0 && covers(position, value, i) {
                        round
                    } else {
                        self.possibilities[i]
                    },
            ),
            ..self
        }
    }

    /// The board after an item was handed to the history: it is kept, in both
    /// logs, only while history is recorded.
    pub open spec fn logged(self, item: LogItem) -> Board {
        if self.record_history {
            Board {
                solve_history: self.solve_history.push(item),
                solve_instructions: self.solve_instructions.push(item),
                ..self
            }
        } else {
            self
        }
    }

    /// The board after `round` was rolled back: cells assigned in that round
    /// are free again, entries ruled out in that round are open again, and the
    /// surviving log has lost its trailing items of that round. The full
    /// history keeps everything and gains a record of the rollback.
    pub open spec fn rolled_back(self, round: u8) -> Board {
        Board {
            solution: Seq::new(
                81,
                |p: int| if self.solution_round[p] == round { 0u8 } else { self.solution[p] },
            ),
            solution_round: Seq::new(
                81,
                |p: int| if self.solution_round[p] == round { 0u8 } else { self.solution_round[p] },
            ),
            possibilities: Seq::new(
                729,
                |i: int| if self.possibilities[i] == round { 0u8 } else { self.possibilities[i] },
            ),
            solve_history: if self.record_history {
                self.solve_history.push(
                    LogItem {
                        round,
                        log_type: LogType::Rollback,
                        value: 4294967295,
                        position: 4294967295,
                    },
                )
            } else {
                self.solve_history
            },
            solve_instructions: trimmed(self.solve_instructions, round),
            ..self
        }
    }

    /// Every cell has a value.
    pub open spec fn solved(self) -> bool {
        forall|p: int| 0 <= p < 81 ==> #[trigger] self.solution[p] != 0
    }

    /// No value is possible any more at `cell`.
    pub open spec fn stuck_at(self, cell: int) -> bool {
        forall|v: int| 0 <= v < 9 ==> self.possibilities[#[trigger] slot(v, cell)] != 0
    }

    /// Some free cell has no possible value left.
    pub open spec fn impossible(self) -> bool {
        exists|p: int| 0 <= p < 81 && #[trigger] self.solution[p] == 0 && self.stuck_at(p)
    }

    /// The nine entries of the table that belong to `cell`.
    pub open spec fn cell_entries(self, cell: int) -> Seq<u8> {
        self.possibilities.subrange(9 * cell, 9 * cell + 9)
    }

    /// The entries of the table for one value at the nine cells of a house.
    pub open spec fn house_entries(self, kind: House, unit: int, value_index: int) -> Seq<u8> {
        Seq::new(9, |j: int| self.possibilities[slot(value_index, house_cell(kind, unit, j))])
    }

    /// In how many cells of a house a value is possible.
    pub open spec fn place_count(self, kind: House, unit: int, value_index: int) -> int {
        zeros_below(self.house_entries(kind, unit, value_index), 9)
    }

    /// How many values are possible at `cell`.
    pub open spec fn candidate_count(self, cell: int) -> int {
        zeros_below(self.cell_entries(cell), 9)
    }

    /// How many cells of the board are free.
    pub open spec fn free_cells(self) -> int {
        zeros_below(self.solution, 81)
    }

    /// How many entries of the table are open.
    pub open spec fn open_entries(self) -> int {
        zeros_below(self.possibilities, 729)
    }

    /// This board came from `from` by a step of the solver in `round`, one
    /// that made progress or not. Either way the board is well formed and
    /// carries no later stamp, it holds `from` and work of the round on top,
    /// and it admits the same complete grids. Without progress nothing has
    /// changed; with progress fewer entries are open.
    pub open spec fn advances(self, from: Board, round: u8, progress: bool) -> bool {
        &&& self.wf()
        &&& self.stamps_at_most(round as int)
        &&& self.extends(from, round)
        &&& self.last_solve_round == from.last_solve_round
        &&& !progress ==> self == from
        &&& progress ==> self.open_entries() < from.open_entries()
        &&& forall|g: Seq<u8>| #[trigger] self.admits(g) <==> from.admits(g)
    }

    /// The complete grid `g` is still admitted: it is valid, agrees with every
    /// assigned cell, and puts in every free cell a value possible there.
    pub open spec fn admits(self, g: Seq<u8>) -> bool {
        &&& valid_grid(g)
        &&& forall|p: int|
            0 <= p < 81 ==> if self.solution[p] != 0 {
                #[trigger] g[p] == self.solution[p]
            } else {
                self.possible(g[p] - 1, p)
            }
    }
}

} // verus!
