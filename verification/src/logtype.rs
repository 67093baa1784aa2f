use vstd::prelude::*;

verus! {

/// The kind of step that a log item records.
#[derive(Debug, PartialEq, Eq, Clone, Copy, Structural)]
pub enum LogType {
    /// Mark given.
    Given,
    /// Mark only possibility for cell.
    Single,
    /// Mark single possibility for value in row.
    HiddenSingleRow,
    /// Mark single possibility for value in column.
    HiddenSingleColumn,
    /// Mark single possibility for value in section.
    HiddenSingleSection,
    /// Mark guess (start round).
    Guess,
    /// Roll back round.
    Rollback,
    /// Remove possibilities for naked pair in row.
    NakedPairRow,
    /// Remove possibilities for naked pair in column.
    NakedPairColumn,
    /// Remove possibilities for naked pair in section.
    NakedPairSection,
    /// Remove possibilities for row because all values are in one section.
    PointingPairTripleRow,
    /// Remove possibilities for column because all values are in one section.
    PointingPairTripleColumn,
    /// Remove possibilities for section because all values are in one row.
    RowBox,
    /// Remove possibilities for section because all values are in one column.
    ColumnBox,
    /// Remove possibilities from hidden pair in row.
    HiddenPairRow,
    /// Remove possibilities from hidden pair in column.
    HiddenPairColumn,
    /// Remove possibilities from hidden pair in section.
    HiddenPairSection,
}

} // verus!
