use vstd::prelude::*;
use crate::logtype::LogType;
use crate::QQWing;
use crate::BOARD_SIZE;

verus! {

/// One step taken while solving: which round took it, what kind of step it
/// was, and the value and the cell it concerns. A step without a value or
/// without a cell carries a number that is no value or no cell.
#[derive(Debug, Clone, Copy)]
pub struct LogItem {
    /// The recursion level at which this item was gathered.
    pub round: u8,
    /// The kind of step.
    pub log_type: LogType,
    /// The value that the step set, or zero for no value.
    pub value: usize,
    /// The cell at which the value, if any, was set.
    pub position: usize,
}

impl LogItem {
    /// A log item for round `r`, of kind `t`, with value `v` at cell `p`.
    pub fn new(r: u8, t: LogType, v: usize, p: usize) -> (item: Self)
        ensures
            item == (LogItem { round: r, log_type: t, value: v, position: p }),
    {
        LogItem::init(r, t, v, p)
    }

    /// A log item for round `r`, of kind `t`, with value `v` at cell `p`.
    pub fn init(r: u8, t: LogType, v: usize, p: usize) -> (item: Self)
        ensures
            item == (LogItem { round: r, log_type: t, value: v, position: p }),
    {
        LogItem { round: r, log_type: t, value: v, position: p }
    }

    /// The round that took the step.
    pub fn get_round(&self) -> (r: u8)
        ensures
            r == self.round,
    {
        self.round
    }

    /// The row of the step's cell, counted from 1, or 255 where the step has
    /// no cell on the board.
    pub fn get_row(&self) -> (r: u8)
        ensures
            self.position < 81 ==> r == self.position / 9 + 1,
            self.position >= 81 ==> r == 255,
    {
        if self.position >= BOARD_SIZE {
            return 255;
        }
        QQWing::cell_to_row(self.position) as u8 + 1
    }

    /// The column of the step's cell, counted from 1, or 255 where the step
    /// has no cell on the board.
    pub fn get_column(&self) -> (c: u8)
        ensures
            self.position < 81 ==> c == self.position % 9 + 1,
            self.position >= 81 ==> c == 255,
    {
        if self.position >= BOARD_SIZE {
            return 255;
        }
        QQWing::cell_to_column(self.position) as u8 + 1
    }

    /// The value that the step names.
    pub fn get_value(&self) -> (v: usize)
        ensures
            v == self.value,
    {
        self.value
    }
}

} // verus!
