//! The two techniques that assign a cell: a cell with one possible value, and
//! a value with one possible cell in a house.

use vstd::prelude::*;
use crate::{Board, QQWing};
use crate::grid::{house_cell, lemma_house_cells, slot, House};
use crate::laws::{
    lemma_advance_by_mark,
    lemma_value_lands_on_candidate,
    lemma_zeros_two,
};
use crate::logitem::LogItem;
use crate::logtype::LogType;
use crate::state::zeros_below;
use crate::{BOARD_SIZE, ROW_COL_SEC_SIZE};

verus! {

/// The kind of log item that records a hidden single in a house of a kind.
pub open spec fn hidden_single_type(kind: House) -> LogType {
    match kind {
        House::Row => LogType::HiddenSingleRow,
        House::Column => LogType::HiddenSingleColumn,
        House::Section => LogType::HiddenSingleSection,
    }
}

impl Board {
    /// `cell` is free and has exactly one possible value.
    pub open spec fn naked_single(self, cell: int) -> bool {
        self.solution[cell] == 0 && self.candidate_count(cell) == 1
    }

    /// The value with index `value_index` has exactly one possible cell in a
    /// house.
    pub open spec fn hidden_single(self, kind: House, unit: int, value_index: int) -> bool {
        self.place_count(kind, unit, value_index) == 1
    }

    /// Some cell is free and has exactly one possible value.
    pub open spec fn has_naked_single(self) -> bool {
        exists|cell: int| 0 <= cell < 81 && self.naked_single(cell)
    }

    /// Some value has exactly one possible cell in some house of a kind.
    pub open spec fn has_hidden_single(self, kind: House) -> bool {
        exists|unit: int, value_index: int|
            0 <= unit < 9 && 0 <= value_index < 9 && #[trigger] self.hidden_single(
                kind,
                unit,
                value_index,
            )
    }

    /// This board is `from` after the first cell with one possible value was
    /// given that value in `round`, and the step was logged.
    pub open spec fn after_naked_single(self, from: Board, round: u8) -> bool {
        exists|cell: int, value: u8|
            {
                &&& 0 <= cell < 81
                &&& 1 <= value <= 9
                &&& from.naked_single(cell)
                &&& forall|q: int| 0 <= q < cell ==> !from.naked_single(q)
                &&& from.possible(value - 1, cell)
                &&& self == #[trigger] from.marked(cell, round, value).logged(
                    LogItem {
                        round,
                        log_type: LogType::Single,
                        value: value as usize,
                        position: cell as usize,
                    },
                )
            }
    }

    /// This board is `from` after the first hidden single among the houses of
    /// a kind was marked in `round` and logged. Houses come before values:
    /// the first house that has one, and in it the first value.
    pub open spec fn after_hidden_single(self, from: Board, kind: House, round: u8) -> bool {
        exists|unit: int, value_index: int, index: int|
            {
                &&& 0 <= unit < 9
                &&& 0 <= value_index < 9
                &&& 0 <= index < 9
                &&& from.hidden_single(kind, unit, value_index)
                &&& forall|u: int, v: int|
                    0 <= u < 9 && 0 <= v < 9 && (u < unit || (u == unit && v < value_index))
                        ==> !#[trigger] from.hidden_single(kind, u, v)
                &&& from.possible(value_index, house_cell(kind, unit, index))
                &&& self == #[trigger] from.marked(
                    house_cell(kind, unit, index),
                    round,
                    (value_index + 1) as u8,
                ).logged(
                    LogItem {
                        round,
                        log_type: hidden_single_type(kind),
                        value: (value_index + 1) as usize,
                        position: house_cell(kind, unit, index) as usize,
                    },
                )
            }
    }
}

impl QQWing {
    /// Mark exactly one cell that has a single possibility, if such a cell
    /// exists. This method will look for a cell that has only one possibility.
    /// This type of cell is often called a "single".
    pub fn only_possibility_for_cell(&mut self, round: u8) -> (res: bool)
        requires
            old(self)@.wf(),
            round >= 1,
            old(self)@.stamps_at_most(round as int),
        ensures
            final(self)@.advances(old(self)@, round, res),
            res == old(self)@.has_naked_single(),
            res ==> final(self)@.after_naked_single(old(self)@, round),
    {
        for position in 0..BOARD_SIZE
            invariant
                self@ == old(self)@,
                self@.wf(),
                round >= 1,
                self@.stamps_at_most(round as int),
                forall|q: int| 0 <= q < position ==> !self@.naked_single(q),
        {
            if self.solution[position] == 0 {
                let mut count: u32 = 0;
                let mut last_value: usize = 0;
                for val_index in 0..ROW_COL_SEC_SIZE
                    invariant
                        position < 81,
                        self@.possibilities.len() == 729,
                        count == zeros_below(self@.cell_entries(position as int), val_index as int),
                        count <= val_index,
                        count > 0 ==> 1 <= last_value <= 9 && self@.possible(
                            last_value - 1,
                            position as int,
                        ),
                {
                    let val_pos = QQWing::get_possibility_index(val_index, position);
                    if self.possibilities[val_pos] == 0 {
                        count += 1;
                        last_value = val_index + 1;
                    }
                }
                if count == 1 {
                    let ghost b = self@;
                    let ghost p = position as int;
                    let ghost item = LogItem {
                        round,
                        log_type: LogType::Single,
                        value: last_value,
                        position,
                    };
                    proof {
                        assert forall|g: Seq<u8>| b.admits(g) implies g[p] == last_value by {
                            let v = g[p] - 1;
                            let es = b.cell_entries(p);
                            if v < last_value - 1 {
                                lemma_zeros_two(es, 9, v, last_value - 1);
                            } else if v > last_value - 1 {
                                lemma_zeros_two(es, 9, last_value - 1, v);
                            }
                        }
                        lemma_advance_by_mark(b, p, round, last_value as u8, item);
                    }
                    let _ = self.mark(position, round, last_value as u8);
                    if self.log_history || self.record_history {
                        self.add_history_item(
                            LogItem::new(round, LogType::Single, last_value, position),
                        );
                    }
                    proof {
                        let value = last_value as u8;
                        assert(b.naked_single(p));
                        assert(item == (LogItem {
                            round,
                            log_type: LogType::Single,
                            value: value as usize,
                            position: p as usize,
                        }));
                    }
                    return true;
                }
            }
        }
        false
    }

    /// Counts the cells of a house in which a value is possible, and finds
    /// the last of them.
    pub fn places_in_house(&self, kind: House, unit: usize, val_index: usize) -> (found: (
        u32,
        usize,
    ))
        requires
            unit < 9,
            val_index < 9,
            self@.possibilities.len() == 729,
        ensures
            found.0 == self@.place_count(kind, unit as int, val_index as int),
            found.0 == 0 ==> found.1 == 0,
            found.0 > 0 ==> exists|index: int|
                0 <= index < 9 && found.1 == #[trigger] house_cell(kind, unit as int, index)
                    && self@.possible(val_index as int, found.1 as int) && forall|j: int|
                    index < j < 9 ==> !self@.possible(
                        val_index as int,
                        #[trigger] house_cell(kind, unit as int, j),
                    ),
    {
        let mut count: u32 = 0;
        let mut last_position: usize = 0;
        for index in 0..ROW_COL_SEC_SIZE
            invariant
                unit < 9,
                val_index < 9,
                self@.possibilities.len() == 729,
                count == zeros_below(
                    self@.house_entries(kind, unit as int, val_index as int),
                    index as int,
                ),
                count <= index,
                count == 0 ==> last_position == 0,
                count > 0 ==> exists|k: int|
                    0 <= k < index && last_position == #[trigger] house_cell(kind, unit as int, k)
                        && self@.possible(val_index as int, last_position as int) && forall|j: int|
                        k < j < index ==> !self@.possible(
                            val_index as int,
                            #[trigger] house_cell(kind, unit as int, j),
                        ),
        {
            let position = QQWing::house_to_cell(kind, unit, index);
            let val_pos = QQWing::get_possibility_index(val_index, position);
            if self.possibilities[val_pos] == 0 {
                count += 1;
                last_position = position;
            }
        }
        (count, last_position)
    }

    /// Mark exactly one cell which is the only possible place for some value
    /// in a house of the kind, if such a cell exists.
    pub fn only_value_in_house(&mut self, kind: House, round: u8) -> (res: bool)
        requires
            old(self)@.wf(),
            round >= 1,
            old(self)@.stamps_at_most(round as int),
        ensures
            final(self)@.advances(old(self)@, round, res),
            res == old(self)@.has_hidden_single(kind),
            res ==> final(self)@.after_hidden_single(old(self)@, kind, round),
    {
        for unit in 0..ROW_COL_SEC_SIZE
            invariant
                self@ == old(self)@,
                self@.wf(),
                round >= 1,
                self@.stamps_at_most(round as int),
                forall|u: int, v: int|
                    0 <= u < unit && 0 <= v < 9 ==> !#[trigger] self@.hidden_single(kind, u, v),
        {
            for val_index in 0..ROW_COL_SEC_SIZE
                invariant
                    unit < 9,
                    self@ == old(self)@,
                    self@.wf(),
                    round >= 1,
                    self@.stamps_at_most(round as int),
                    forall|u: int, v: int|
                        0 <= u < 9 && 0 <= v < 9 && (u < unit || (u == unit && v < val_index))
                            ==> !#[trigger] self@.hidden_single(kind, u, v),
            {
                let (count, last_position) = self.places_in_house(kind, unit, val_index);
                if count == 1 {
                    let value = val_index + 1;
                    let log_type = match kind {
                        House::Row => LogType::HiddenSingleRow,
                        House::Column => LogType::HiddenSingleColumn,
                        House::Section => LogType::HiddenSingleSection,
                    };
                    let ghost b = self@;
                    let ghost p = last_position as int;
                    let ghost item = LogItem { round, log_type, value, position: last_position };
                    let ghost index = choose|index: int|
                        0 <= index < 9 && last_position == #[trigger] house_cell(
                            kind,
                            unit as int,
                            index,
                        ) && b.possible(val_index as int, last_position as int);
                    proof {
                        lemma_house_cells(kind, unit as int, index);
                        let e = slot(val_index as int, p);
                        if b.solution[p] != 0 {
                            assert(crate::state::covers(p, b.solution[p], e));
                        }
                        assert forall|g: Seq<u8>| b.admits(g) implies g[p] == value by {
                            let k = lemma_value_lands_on_candidate(
                                b,
                                g,
                                kind,
                                unit as int,
                                val_index as int,
                                index,
                            );
                            let es = b.house_entries(kind, unit as int, val_index as int);
                            if k < index {
                                lemma_zeros_two(es, 9, k, index);
                            } else if k > index {
                                lemma_zeros_two(es, 9, index, k);
                            }
                        }
                        lemma_advance_by_mark(b, p, round, value as u8, item);
                    }
                    if self.log_history || self.record_history {
                        self.add_history_item(LogItem::new(round, log_type, value, last_position));
                    }
                    proof {
                        crate::laws::lemma_logged_then_marked(b, p, round, value as u8, item);
                    }
                    let _ = self.mark(last_position, round, value as u8);
                    proof {
                        let u = unit as int;
                        let v = val_index as int;
                        assert(b.hidden_single(kind, u, v));
                        assert(item == (LogItem {
                            round,
                            log_type: hidden_single_type(kind),
                            value: (v + 1) as usize,
                            position: house_cell(kind, u, index) as usize,
                        }));
                    }
                    return true;
                }
            }
        }
        false
    }

    /// Mark exactly one cell which is the only possible value for some row, if
    /// such a cell exists. This method will look in a row for a possibility
    /// that is only listed for one cell. This type of cell is often called a
    /// "hidden single".
    pub fn only_value_in_row(&mut self, round: u8) -> (res: bool)
        requires
            old(self)@.wf(),
            round >= 1,
            old(self)@.stamps_at_most(round as int),
        ensures
            final(self)@.advances(old(self)@, round, res),
            res == old(self)@.has_hidden_single(House::Row),
            res ==> final(self)@.after_hidden_single(old(self)@, House::Row, round),
    {
        self.only_value_in_house(House::Row, round)
    }

    /// Mark exactly one cell which is the only possible value for some column,
    /// if such a cell exists. This method will look in a column for a
    /// possibility that is only listed for one cell. This type of cell is
    /// often called a "hidden single".
    pub fn only_value_in_column(&mut self, round: u8) -> (res: bool)
        requires
            old(self)@.wf(),
            round >= 1,
            old(self)@.stamps_at_most(round as int),
        ensures
            final(self)@.advances(old(self)@, round, res),
            res == old(self)@.has_hidden_single(House::Column),
            res ==> final(self)@.after_hidden_single(old(self)@, House::Column, round),
    {
        self.only_value_in_house(House::Column, round)
    }

    /// Mark exactly one cell which is the only possible value for some
    /// section, if such a cell exists. This method will look in a section for
    /// a possibility that is only listed for one cell. This type of cell is
    /// often called a "hidden single".
    pub fn only_value_in_section(&mut self, round: u8) -> (res: bool)
        requires
            old(self)@.wf(),
            round >= 1,
            old(self)@.stamps_at_most(round as int),
        ensures
            final(self)@.advances(old(self)@, round, res),
            res == old(self)@.has_hidden_single(House::Section),
            res ==> final(self)@.after_hidden_single(old(self)@, House::Section, round),
    {
        self.only_value_in_house(House::Section, round)
    }
}

/// The step that marks a naked single is decided by the board and the round.
pub proof fn lemma_naked_single_determined(b: Board, x: Board, y: Board, round: u8)
    requires
        b.shaped(),
        x.after_naked_single(b, round),
        y.after_naked_single(b, round),
    ensures
        x == y,
{
    let (c1, v1) = choose|cell: int, value: u8|
        {
            &&& 0 <= cell < 81
            &&& 1 <= value <= 9
            &&& b.naked_single(cell)
            &&& forall|q: int| 0 <= q < cell ==> !b.naked_single(q)
            &&& b.possible(value - 1, cell)
            &&& x == #[trigger] b.marked(cell, round, value).logged(
                LogItem {
                    round,
                    log_type: LogType::Single,
                    value: value as usize,
                    position: cell as usize,
                },
            )
        };
    let (c2, v2) = choose|cell: int, value: u8|
        {
            &&& 0 <= cell < 81
            &&& 1 <= value <= 9
            &&& b.naked_single(cell)
            &&& forall|q: int| 0 <= q < cell ==> !b.naked_single(q)
            &&& b.possible(value - 1, cell)
            &&& y == #[trigger] b.marked(cell, round, value).logged(
                LogItem {
                    round,
                    log_type: LogType::Single,
                    value: value as usize,
                    position: cell as usize,
                },
            )
        };
    let es = b.cell_entries(c1);
    if v1 < v2 {
        lemma_zeros_two(es, 9, v1 - 1, v2 - 1);
    }
    if v2 < v1 {
        lemma_zeros_two(es, 9, v2 - 1, v1 - 1);
    }
}

/// The step that marks a hidden single is decided by the board, the kind of
/// house and the round.
pub proof fn lemma_hidden_single_determined(b: Board, x: Board, y: Board, kind: House, round: u8)
    requires
        x.after_hidden_single(b, kind, round),
        y.after_hidden_single(b, kind, round),
    ensures
        x == y,
{
    let (u1, v1, i1) = choose|unit: int, value_index: int, index: int|
        {
            &&& 0 <= unit < 9
            &&& 0 <= value_index < 9
            &&& 0 <= index < 9
            &&& b.hidden_single(kind, unit, value_index)
            &&& forall|u: int, v: int|
                0 <= u < 9 && 0 <= v < 9 && (u < unit || (u == unit && v < value_index))
                    ==> !#[trigger] b.hidden_single(kind, u, v)
            &&& b.possible(value_index, house_cell(kind, unit, index))
            &&& x == #[trigger] b.marked(
                house_cell(kind, unit, index),
                round,
                (value_index + 1) as u8,
            ).logged(
                LogItem {
                    round,
                    log_type: hidden_single_type(kind),
                    value: (value_index + 1) as usize,
                    position: house_cell(kind, unit, index) as usize,
                },
            )
        };
    let (u2, v2, i2) = choose|unit: int, value_index: int, index: int|
        {
            &&& 0 <= unit < 9
            &&& 0 <= value_index < 9
            &&& 0 <= index < 9
            &&& b.hidden_single(kind, unit, value_index)
            &&& forall|u: int, v: int|
                0 <= u < 9 && 0 <= v < 9 && (u < unit || (u == unit && v < value_index))
                    ==> !#[trigger] b.hidden_single(kind, u, v)
            &&& b.possible(value_index, house_cell(kind, unit, index))
            &&& y == #[trigger] b.marked(
                house_cell(kind, unit, index),
                round,
                (value_index + 1) as u8,
            ).logged(
                LogItem {
                    round,
                    log_type: hidden_single_type(kind),
                    value: (value_index + 1) as usize,
                    position: house_cell(kind, unit, index) as usize,
                },
            )
        };
    let es = b.house_entries(kind, u1, v1);
    if i1 < i2 {
        lemma_zeros_two(es, 9, i1, i2);
    }
    if i2 < i1 {
        lemma_zeros_two(es, 9, i2, i1);
    }
}

} // verus!
