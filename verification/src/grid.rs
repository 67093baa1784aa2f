//! The geometry of the board: how cells, rows, columns, sections and the
//! entries of the possibility table are numbered.

use vstd::prelude::*;
use crate::QQWing;
use crate::{GRID_SIZE, ROW_COL_SEC_SIZE, SEC_GROUP_SIZE};

verus! {

/// The row (0-8) of a cell (0-80).
pub open spec fn row_of(cell: int) -> int {
    cell / 9
}

/// The column (0-8) of a cell (0-80).
pub open spec fn column_of(cell: int) -> int {
    cell % 9
}

/// The section (0-8) of a cell (0-80); sections are numbered row by row.
pub open spec fn section_of(cell: int) -> int {
    cell / 27 * 3 + (cell % 9) / 3
}

/// The cell in the upper left corner of a section.
pub open spec fn section_start(section: int) -> int {
    (section % 3) * 3 + (section / 3) * 27
}

/// The entry of the possibility table for a value index (0-8) at a cell.
pub open spec fn slot(value_index: int, cell: int) -> int {
    value_index + 9 * cell
}

/// Two cells share a row, a column or a section.
pub open spec fn same_house(a: int, b: int) -> bool {
    row_of(a) == row_of(b) || column_of(a) == column_of(b) || section_of(a) == section_of(b)
}

/// Two different cells that may not hold the same value.
pub open spec fn peers(a: int, b: int) -> bool {
    a != b && same_house(a, b)
}

/// The three kinds of house.
#[derive(Debug, PartialEq, Eq, Clone, Copy, Structural)]
pub enum House {
    Row,
    Column,
    Section,
}

/// The cell at `index` (0-8) of house number `unit` (0-8) of a kind. Rows run
/// left to right, columns top to bottom, sections row by row.
pub open spec fn house_cell(kind: House, unit: int, index: int) -> int {
    match kind {
        House::Row => unit * 9 + index,
        House::Column => index * 9 + unit,
        House::Section => section_start(unit) + (index / 3) * 9 + index % 3,
    }
}

/// The number of the house of a kind that a cell lies in.
pub open spec fn house_of(kind: House, cell: int) -> int {
    match kind {
        House::Row => row_of(cell),
        House::Column => column_of(cell),
        House::Section => section_of(cell),
    }
}

/// The index of a cell within its house of a kind.
pub open spec fn index_in_house(kind: House, cell: int) -> int {
    match kind {
        House::Row => column_of(cell),
        House::Column => row_of(cell),
        House::Section => (row_of(cell) % 3) * 3 + column_of(cell) % 3,
    }
}

/// How the cell in band `a`, stack `b`, at row `c` and column `d` of its
/// section, splits into row, column and section.
pub proof fn lemma_section_digits(a: int, b: int, c: int, d: int)
    requires
        0 <= a < 3,
        0 <= b < 3,
        0 <= c < 3,
        0 <= d < 3,
    ensures
        ({
            let cell = 27 * a + 3 * b + 9 * c + d;
            &&& 0 <= cell < 81
            &&& row_of(cell) == 3 * a + c
            &&& column_of(cell) == 3 * b + d
            &&& section_of(cell) == 3 * a + b
        }),
{
    let cell = 27 * a + 3 * b + 9 * c + d;
    assert(cell == 9 * (3 * a + c) + (3 * b + d));
    assert(cell / 9 == 3 * a + c);
    assert(cell / 27 == a);
}

/// A cell splits into band, stack, and row and column within its section.
pub proof fn lemma_cell_digits(c: int)
    requires
        0 <= c < 81,
    ensures
        ({
            let x = c / 27;
            let y = (c % 9) / 3;
            let u = (c / 9) % 3;
            let v = (c % 9) % 3;
            &&& 0 <= x < 3
            &&& 0 <= y < 3
            &&& 0 <= u < 3
            &&& 0 <= v < 3
            &&& c == 27 * x + 3 * y + 9 * u + v
        }),
{
    let q = c / 9;
    let r = c % 9;
    assert(c == 9 * q + r);
    assert(0 <= q < 9);
    let k = q / 3;
    let u = q % 3;
    assert(c == 27 * k + (9 * u + r));
    assert(c / 27 == k);
}

/// A cell lies in the section of `pos`, in column `a` and row `b` of it,
/// exactly if it is the cell that far from the section's first cell.
pub proof fn lemma_section_member(pos: int, c: int, a: int, b: int)
    requires
        0 <= pos < 81,
        0 <= c < 81,
        0 <= a < 3,
        0 <= b < 3,
    ensures
        (section_of(c) == section_of(pos) && column_of(c) % 3 == a && row_of(c) % 3 == b) <==> c
            == pos / 27 * 27 + (pos % 9) / 3 * 3 + a + 9 * b,
{
    lemma_cell_digits(pos);
    lemma_cell_digits(c);
    let px = pos / 27;
    let py = (pos % 9) / 3;
    let x = c / 27;
    let y = (c % 9) / 3;
    let u = (c / 9) % 3;
    let v = (c % 9) % 3;
    lemma_section_digits(px, py, b, a);
    lemma_section_digits(x, y, u, v);
    let d = 27 * px + 3 * py + 9 * b + a;
    assert(d == pos / 27 * 27 + (pos % 9) / 3 * 3 + a + 9 * b);
    assert(section_of(pos) == 3 * px + py);
    assert(section_of(c) == 3 * x + y);
    assert(section_of(d) == 3 * px + py);
    if c == d {
        assert(column_of(c) == 3 * py + a);
        assert(row_of(c) == 3 * px + b);
    }
    if section_of(c) == section_of(pos) && column_of(c) % 3 == a && row_of(c) % 3 == b {
        assert(x == px && y == py);
        assert(u == b);
        assert(v == a);
    }
}

/// Every house holds nine cells of the board, each cell once, and a cell is
/// found again from its house and index.
pub proof fn lemma_house_cells(kind: House, unit: int, index: int)
    requires
        0 <= unit < 9,
        0 <= index < 9,
    ensures
        0 <= house_cell(kind, unit, index) < 81,
        house_of(kind, house_cell(kind, unit, index)) == unit,
        index_in_house(kind, house_cell(kind, unit, index)) == index,
{
    match kind {
        House::Row => {},
        House::Column => {},
        House::Section => {
            let a = unit / 3;
            let b = unit % 3;
            let c = index / 3;
            let d = index % 3;
            lemma_section_digits(a, b, c, d);
            let cell = house_cell(kind, unit, index);
            assert(row_of(cell) % 3 == c);
            assert(column_of(cell) % 3 == d);
        },
    }
}

/// Every cell lies in one house of each kind.
pub proof fn lemma_cell_in_house(kind: House, cell: int)
    requires
        0 <= cell < 81,
    ensures
        0 <= house_of(kind, cell) < 9,
        0 <= index_in_house(kind, cell) < 9,
        house_cell(kind, house_of(kind, cell), index_in_house(kind, cell)) == cell,
{
    match kind {
        House::Row => {},
        House::Column => {},
        House::Section => {
            let a = cell / 27;
            let c = (cell / 9) % 3;
            let b = (cell % 9) / 3;
            let d = (cell % 9) % 3;
            lemma_cell_digits(cell);
            lemma_section_digits(a, b, c, d);
        },
    }
}

/// Cells share a house exactly if they share a house of some kind.
pub proof fn lemma_same_house(a: int, b: int)
    ensures
        same_house(a, b) <==> exists|kind: House| house_of(kind, a) == house_of(kind, b),
{
    if same_house(a, b) {
        if row_of(a) == row_of(b) {
            assert(house_of(House::Row, a) == house_of(House::Row, b));
        } else if column_of(a) == column_of(b) {
            assert(house_of(House::Column, a) == house_of(House::Column, b));
        } else {
            assert(house_of(House::Section, a) == house_of(House::Section, b));
        }
    }
}

impl QQWing {
    /// Given a value for a cell (0-8) and a cell number (0-80) calculate the
    /// offset into the possibility array (0-728).
    pub fn get_possibility_index(value_index: usize, cell: usize) -> (index: usize)
        requires
            value_index < 9,
            cell < 81,
        ensures
            index == slot(value_index as int, cell as int),
            index < 729,
            index / 9 == cell,
            index % 9 == value_index,
    {
        value_index + (ROW_COL_SEC_SIZE * cell)
    }

    /// Given the index of a cell (0-80) calculate the row (0-8) in which it
    /// resides.
    pub fn cell_to_row(cell: usize) -> (row: usize)
        ensures
            row == row_of(cell as int),
    {
        cell / ROW_COL_SEC_SIZE
    }

    /// Given the index of a cell (0-80) calculate the column (0-8) in which
    /// that cell resides.
    pub fn cell_to_column(cell: usize) -> (column: usize)
        ensures
            column == column_of(cell as int),
    {
        cell % ROW_COL_SEC_SIZE
    }

    /// Given the index of a cell (0-80) calculate the section (0-8) in which it
    /// resides.
    pub fn cell_to_section(cell: usize) -> (section: usize)
        ensures
            section == section_of(cell as int),
    {
        (cell / SEC_GROUP_SIZE * GRID_SIZE) + (QQWing::cell_to_column(cell) / GRID_SIZE)
    }

    /// Given the index of a cell (0-80) calculate the cell (0-80) that is the
    /// upper left start cell of that section.
    pub fn cell_to_section_start_cell(cell: usize) -> (start: usize)
        ensures
            start == section_start(section_of(cell as int)),
            start == cell / 27 * 27 + (cell % 9) / 3 * 3,
    {
        (cell / SEC_GROUP_SIZE * SEC_GROUP_SIZE) + (QQWing::cell_to_column(cell) / GRID_SIZE
            * GRID_SIZE)
    }

    /// Given a row (0-8) and a column (0-8) calculate the cell (0-80).
    pub fn row_column_to_cell(row: usize, column: usize) -> (cell: usize)
        requires
            row < 9,
            column < 9,
        ensures
            cell == row * 9 + column,
            cell < 81,
            row_of(cell as int) == row,
            column_of(cell as int) == column,
    {
        row * ROW_COL_SEC_SIZE + column
    }

    /// Given a section (0-8) calculate the first cell (0-80) of that section.
    pub fn section_to_first_cell(section: usize) -> (cell: usize)
        requires
            section < 9,
        ensures
            cell == section_start(section as int),
            cell <= 60,
            section_of(cell as int) == section,
    {
        proof {
            lemma_house_cells(House::Section, section as int, 0);
        }
        (section % GRID_SIZE * GRID_SIZE) + (section / GRID_SIZE * SEC_GROUP_SIZE)
    }

    /// Given a section (0-8) and an offset into that section (0-8) calculate
    /// the cell (0-80).
    pub fn section_to_cell(section: usize, offset: usize) -> (cell: usize)
        requires
            section < 9,
            offset < 9,
        ensures
            cell == house_cell(House::Section, section as int, offset as int),
            cell < 81,
            section_of(cell as int) == section,
    {
        proof {
            lemma_house_cells(House::Section, section as int, offset as int);
        }
        QQWing::section_to_first_cell(section) + ((offset / GRID_SIZE) * ROW_COL_SEC_SIZE) + (offset
            % GRID_SIZE)
    }

    /// The number (0-8) of the house of a kind in which a cell (0-80) lies.
    pub fn cell_to_house(kind: House, cell: usize) -> (unit: usize)
        requires
            cell < 81,
        ensures
            unit == house_of(kind, cell as int),
            unit < 9,
    {
        proof {
            lemma_cell_in_house(kind, cell as int);
        }
        match kind {
            House::Row => QQWing::cell_to_row(cell),
            House::Column => QQWing::cell_to_column(cell),
            House::Section => QQWing::cell_to_section(cell),
        }
    }

    /// The cell at an index (0-8) of a house (0-8) of a kind.
    pub fn house_to_cell(kind: House, unit: usize, index: usize) -> (cell: usize)
        requires
            unit < 9,
            index < 9,
        ensures
            cell == house_cell(kind, unit as int, index as int),
            cell < 81,
            house_of(kind, cell as int) == unit,
            index_in_house(kind, cell as int) == index,
    {
        proof {
            lemma_house_cells(kind, unit as int, index as int);
        }
        match kind {
            House::Row => QQWing::row_column_to_cell(unit, index),
            House::Column => QQWing::row_column_to_cell(index, unit),
            House::Section => QQWing::section_to_cell(unit, index),
        }
    }
}

} // verus!
