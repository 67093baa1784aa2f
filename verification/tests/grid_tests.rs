use qqwing::grid::House;
use qqwing::logitem::LogItem;
use qqwing::logtype::LogType;
use qqwing::{QQWing, QQWingError, BOARD_SIZE};

#[test]
fn board_has_81_cells() {
    assert_eq!(BOARD_SIZE, 81);
}

#[test]
fn possibility_index_runs_cell_by_cell() {
    assert_eq!(QQWing::get_possibility_index(0, 0), 0);
    assert_eq!(QQWing::get_possibility_index(8, 0), 8);
    assert_eq!(QQWing::get_possibility_index(0, 1), 9);
    assert_eq!(QQWing::get_possibility_index(4, 40), 364);
    assert_eq!(QQWing::get_possibility_index(8, 80), 728);
}

#[test]
fn cell_to_row_and_column() {
    assert_eq!(QQWing::cell_to_row(0), 0);
    assert_eq!(QQWing::cell_to_row(8), 0);
    assert_eq!(QQWing::cell_to_row(9), 1);
    assert_eq!(QQWing::cell_to_row(80), 8);
    assert_eq!(QQWing::cell_to_column(0), 0);
    assert_eq!(QQWing::cell_to_column(8), 8);
    assert_eq!(QQWing::cell_to_column(9), 0);
    assert_eq!(QQWing::cell_to_column(40), 4);
    assert_eq!(QQWing::cell_to_column(80), 8);
}

#[test]
fn cell_to_section_numbers_sections_row_by_row() {
    assert_eq!(QQWing::cell_to_section(0), 0);
    assert_eq!(QQWing::cell_to_section(20), 0);
    assert_eq!(QQWing::cell_to_section(3), 1);
    assert_eq!(QQWing::cell_to_section(8), 2);
    assert_eq!(QQWing::cell_to_section(27), 3);
    assert_eq!(QQWing::cell_to_section(40), 4);
    assert_eq!(QQWing::cell_to_section(53), 5);
    assert_eq!(QQWing::cell_to_section(54), 6);
    assert_eq!(QQWing::cell_to_section(80), 8);
}

#[test]
fn section_start_cells() {
    assert_eq!(QQWing::cell_to_section_start_cell(0), 0);
    assert_eq!(QQWing::cell_to_section_start_cell(20), 0);
    assert_eq!(QQWing::cell_to_section_start_cell(40), 30);
    assert_eq!(QQWing::cell_to_section_start_cell(80), 60);
    assert_eq!(QQWing::cell_to_section_start_cell(8), 6);
    let starts = [0, 3, 6, 27, 30, 33, 54, 57, 60];
    for section in 0..9 {
        assert_eq!(QQWing::section_to_first_cell(section), starts[section]);
    }
}

#[test]
fn row_column_to_cell_inverts_row_and_column() {
    assert_eq!(QQWing::row_column_to_cell(0, 0), 0);
    assert_eq!(QQWing::row_column_to_cell(4, 4), 40);
    assert_eq!(QQWing::row_column_to_cell(8, 8), 80);
    for cell in 0..81 {
        let row = QQWing::cell_to_row(cell);
        let column = QQWing::cell_to_column(cell);
        assert_eq!(QQWing::row_column_to_cell(row, column), cell);
    }
}

#[test]
fn section_to_cell_runs_row_by_row() {
    assert_eq!(QQWing::section_to_cell(0, 0), 0);
    assert_eq!(QQWing::section_to_cell(0, 2), 2);
    assert_eq!(QQWing::section_to_cell(0, 3), 9);
    assert_eq!(QQWing::section_to_cell(0, 8), 20);
    assert_eq!(QQWing::section_to_cell(4, 4), 40);
    assert_eq!(QQWing::section_to_cell(8, 8), 80);
    for section in 0..9 {
        for offset in 0..9 {
            let cell = QQWing::section_to_cell(section, offset);
            assert_eq!(QQWing::cell_to_section(cell), section);
        }
    }
}

#[test]
fn houses_hold_each_cell_once() {
    for kind in [House::Row, House::Column, House::Section] {
        let mut seen = [0u8; 81];
        for unit in 0..9 {
            for index in 0..9 {
                let cell = QQWing::house_to_cell(kind, unit, index);
                assert_eq!(QQWing::cell_to_house(kind, cell), unit);
                seen[cell] += 1;
            }
        }
        assert!(seen.iter().all(|&n| n == 1));
    }
    assert_eq!(QQWing::house_to_cell(House::Row, 2, 5), 23);
    assert_eq!(QQWing::house_to_cell(House::Column, 2, 5), 47);
    assert_eq!(QQWing::house_to_cell(House::Section, 2, 5), 17);
}

#[test]
fn log_item_keeps_what_it_was_given() {
    let item = LogItem::new(3, LogType::Guess, 7, 40);
    assert_eq!(item.get_round(), 3);
    assert_eq!(item.log_type, LogType::Guess);
    assert_eq!(item.get_value(), 7);
    assert_eq!(item.get_row(), 5);
    assert_eq!(item.get_column(), 5);
    let same = LogItem::init(3, LogType::Guess, 7, 40);
    assert_eq!(same.get_round(), 3);
    assert_eq!(same.get_value(), 7);
    assert_eq!(same.position, 40);
}

#[test]
fn log_item_rows_and_columns_count_from_one() {
    assert_eq!(LogItem::new(1, LogType::Given, 1, 0).get_row(), 1);
    assert_eq!(LogItem::new(1, LogType::Given, 1, 0).get_column(), 1);
    assert_eq!(LogItem::new(1, LogType::Given, 1, 80).get_row(), 9);
    assert_eq!(LogItem::new(1, LogType::Given, 1, 80).get_column(), 9);
    assert_eq!(LogItem::new(1, LogType::Given, 1, 17).get_row(), 2);
    assert_eq!(LogItem::new(1, LogType::Given, 1, 17).get_column(), 9);
}

#[test]
fn log_item_without_cell_has_no_row_or_column() {
    let rollback = LogItem::new(4, LogType::Rollback, 4294967295, 4294967295);
    assert_eq!(rollback.get_row(), 255);
    assert_eq!(rollback.get_column(), 255);
    assert_eq!(rollback.get_value(), 4294967295);
    let edge = LogItem::new(4, LogType::Rollback, 0, 81);
    assert_eq!(edge.get_row(), 255);
    assert_eq!(edge.get_column(), 255);
    let old_mark = LogItem::new(4, LogType::Rollback, 0, 255);
    assert_eq!(old_mark.get_row(), 255);
    assert_eq!(old_mark.get_column(), 255);
}

#[test]
fn errors_have_their_messages() {
    assert_eq!(
        QQWingError::PositionAlreadyMarked.message(),
        "Marking position that already has been marked."
    );
    assert_eq!(
        QQWingError::PositionMarkedAnotherRound.message(),
        "Marking position that was marked another round."
    );
    assert_eq!(QQWingError::PositionImpossible.message(), "Marking impossible position.");
}
