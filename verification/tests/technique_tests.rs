use qqwing::grid::House;
use qqwing::logitem::LogItem;
use qqwing::logtype::LogType;
use qqwing::QQWing;

fn entry(value: usize, cell: usize) -> usize {
    QQWing::get_possibility_index(value - 1, cell)
}

/// Rules out, in round 1, each of the values at each of the cells.
fn rule_out_all(board: &mut QQWing, values: &[usize], cells: &[usize]) {
    for &cell in cells {
        for &value in values {
            board.rule_out(entry(value, cell), 1);
        }
    }
}

fn last_item(board: &QQWing) -> LogItem {
    *board.get_solve_history().last().unwrap()
}

fn is_item(item: LogItem, round: u8, kind: LogType, value: usize, position: usize) -> bool {
    item.round == round && item.log_type == kind && item.value == value && item.position == position
}

fn recording_board() -> QQWing {
    let mut board = QQWing::new();
    board.set_record_history(true);
    board
}

#[test]
fn single_marks_the_cell_with_one_possible_value() {
    let mut puzzle = vec![0u8; 81];
    for column in 0..8 {
        puzzle[column] = column as u8 + 1;
    }
    let mut board = recording_board();
    assert!(board.set_puzzle(puzzle));
    assert!(board.only_possibility_for_cell(2));
    assert_eq!(board.get_solution()[8], 9);
    assert_eq!(board.get_solution_round()[8], 2);
    assert!(is_item(last_item(&board), 2, LogType::Single, 9, 8));
    assert_eq!(board.get_solve_history().len(), 9);
}

#[test]
fn single_takes_the_first_such_cell() {
    let mut board = recording_board();
    rule_out_all(&mut board, &[1, 2, 3, 4, 5, 6, 7, 8], &[50]);
    rule_out_all(&mut board, &[2, 3, 4, 5, 6, 7, 8, 9], &[30]);
    assert!(board.only_possibility_for_cell(2));
    assert_eq!(board.get_solution()[30], 1);
    assert_eq!(board.get_solution()[50], 0);
    assert!(is_item(last_item(&board), 2, LogType::Single, 1, 30));
    assert!(board.only_possibility_for_cell(2));
    assert_eq!(board.get_solution()[50], 9);
}

#[test]
fn single_finds_nothing_on_an_empty_board() {
    let mut board = recording_board();
    let table = board.get_possibilities();
    assert!(!board.only_possibility_for_cell(2));
    assert!(!board.only_possibility_for_cell(2));
    assert_eq!(board.get_possibilities(), table);
    assert_eq!(board.get_solution(), vec![0u8; 81]);
    assert!(board.get_solve_history().is_empty());
}

fn hidden_single_puzzle() -> Vec<u8> {
    let mut puzzle = vec![0u8; 81];
    puzzle[9 + 3] = 1;
    puzzle[18 + 6] = 1;
    puzzle[27 + 1] = 1;
    puzzle[54 + 2] = 1;
    puzzle
}

#[test]
fn hidden_single_in_row() {
    let mut board = recording_board();
    assert!(board.set_puzzle(hidden_single_puzzle()));
    assert!(!board.only_possibility_for_cell(2));
    assert!(board.only_value_in_row(2));
    assert_eq!(board.get_solution()[0], 1);
    assert_eq!(board.get_solution_round()[0], 2);
    assert!(is_item(last_item(&board), 2, LogType::HiddenSingleRow, 1, 0));
}

#[test]
fn hidden_single_in_section() {
    let mut board = recording_board();
    assert!(board.set_puzzle(hidden_single_puzzle()));
    assert!(board.only_value_in_section(2));
    assert_eq!(board.get_solution()[0], 1);
    assert!(is_item(last_item(&board), 2, LogType::HiddenSingleSection, 1, 0));
}

#[test]
fn hidden_single_in_column() {
    let mut puzzle = vec![0u8; 81];
    puzzle[3 * 9 + 1] = 4;
    puzzle[6 * 9 + 2] = 4;
    puzzle[1 * 9 + 3] = 4;
    puzzle[2 * 9 + 6] = 4;
    let mut board = recording_board();
    assert!(board.set_puzzle(puzzle));
    assert!(board.only_value_in_column(2));
    assert_eq!(board.get_solution()[0], 4);
    assert!(is_item(last_item(&board), 2, LogType::HiddenSingleColumn, 4, 0));
}

#[test]
fn hidden_single_by_house_kind() {
    let mut board = recording_board();
    assert!(board.set_puzzle(hidden_single_puzzle()));
    assert_eq!(board.places_in_house(House::Row, 0, 0), (1, 0));
    assert_eq!(board.places_in_house(House::Row, 0, 1).0, 9);
    assert_eq!(board.places_in_house(House::Row, 1, 0).0, 0);
    assert!(board.only_value_in_house(House::Row, 2));
    assert_eq!(board.get_solution()[0], 1);
}

#[test]
fn hidden_single_finds_nothing_on_an_empty_board() {
    let mut board = recording_board();
    assert!(!board.only_value_in_row(2));
    assert!(!board.only_value_in_column(2));
    assert!(!board.only_value_in_section(2));
    assert_eq!(board.get_possibilities(), vec![0u8; 729]);
}

#[test]
fn naked_pair_in_row_then_section() {
    let mut board = recording_board();
    rule_out_all(&mut board, &[3, 4, 5, 6, 7, 8, 9], &[0, 1]);
    assert!(board.handle_naked_pairs(2));
    let table = board.get_possibilities();
    for cell in 2..9 {
        assert_eq!(table[entry(1, cell)], 2);
        assert_eq!(table[entry(2, cell)], 2);
        assert_eq!(table[entry(3, cell)], 0);
    }
    assert_eq!(table[entry(1, 0)], 0);
    assert_eq!(table[entry(2, 1)], 0);
    assert_eq!(table[entry(1, 9)], 0);
    assert!(is_item(last_item(&board), 2, LogType::NakedPairRow, 0, 0));

    assert!(board.handle_naked_pairs(2));
    let table = board.get_possibilities();
    for cell in [9, 10, 11, 18, 19, 20] {
        assert_eq!(table[entry(1, cell)], 2);
        assert_eq!(table[entry(2, cell)], 2);
    }
    assert!(is_item(last_item(&board), 2, LogType::NakedPairSection, 0, 0));

    let table = board.get_possibilities();
    assert!(!board.handle_naked_pairs(2));
    assert_eq!(board.get_possibilities(), table);
    assert_eq!(board.get_solve_history().len(), 2);
}

#[test]
fn naked_pair_in_column() {
    let mut board = recording_board();
    rule_out_all(&mut board, &[1, 2, 3, 4, 5, 6, 7], &[4, 76]);
    assert!(board.handle_naked_pairs(2));
    let table = board.get_possibilities();
    for row in 1..8 {
        assert_eq!(table[entry(8, row * 9 + 4)], 2);
        assert_eq!(table[entry(9, row * 9 + 4)], 2);
    }
    assert_eq!(table[entry(8, 3)], 0);
    assert!(is_item(last_item(&board), 2, LogType::NakedPairColumn, 0, 4));
    assert!(!board.handle_naked_pairs(2));
}

#[test]
fn naked_pair_needs_a_shared_house() {
    let mut board = recording_board();
    rule_out_all(&mut board, &[3, 4, 5, 6, 7, 8, 9], &[0, 40]);
    assert!(!board.handle_naked_pairs(2));
    assert!(!board.try_naked_pair(House::Row, 0, 40, 2));
    assert!(board.get_solve_history().is_empty());
}

#[test]
fn pointing_pair_in_row() {
    let mut board = recording_board();
    rule_out_all(&mut board, &[1], &[9, 10, 11, 18, 19, 20]);
    assert!(board.pointing_row_reduction(2));
    let table = board.get_possibilities();
    for cell in 3..9 {
        assert_eq!(table[entry(1, cell)], 2);
    }
    for cell in 0..3 {
        assert_eq!(table[entry(1, cell)], 0);
    }
    assert_eq!(table[entry(2, 5)], 0);
    assert!(is_item(last_item(&board), 2, LogType::PointingPairTripleRow, 1, 0));
    assert!(!board.pointing_row_reduction(2));
}

#[test]
fn pointing_pair_in_column() {
    let mut board = recording_board();
    rule_out_all(&mut board, &[7], &[30, 32, 39, 41, 48, 50]);
    assert!(board.pointing_column_reduction(2));
    let table = board.get_possibilities();
    for row in [0, 1, 2, 6, 7, 8] {
        assert_eq!(table[entry(7, row * 9 + 4)], 2);
    }
    for row in 3..6 {
        assert_eq!(table[entry(7, row * 9 + 4)], 0);
    }
    assert!(is_item(last_item(&board), 2, LogType::PointingPairTripleColumn, 7, 4));
    assert!(!board.pointing_column_reduction(2));
}

#[test]
fn box_line_reduction_by_row() {
    let mut board = recording_board();
    rule_out_all(&mut board, &[1], &[3, 4, 5, 6, 7, 8]);
    assert!(board.row_box_reduction(2));
    let table = board.get_possibilities();
    for cell in [9, 10, 11, 18, 19, 20] {
        assert_eq!(table[entry(1, cell)], 2);
    }
    for cell in 0..3 {
        assert_eq!(table[entry(1, cell)], 0);
    }
    assert!(is_item(last_item(&board), 2, LogType::RowBox, 1, 0));
    assert!(!board.row_box_reduction(2));
}

#[test]
fn box_line_reduction_by_column() {
    let mut board = recording_board();
    rule_out_all(&mut board, &[5], &[8, 17, 26, 35, 44, 53]);
    assert!(board.col_box_reduction(2));
    let table = board.get_possibilities();
    for cell in [60, 61, 69, 70, 78, 79] {
        assert_eq!(table[entry(5, cell)], 2);
    }
    for cell in [62, 71, 80] {
        assert_eq!(table[entry(5, cell)], 0);
    }
    assert!(is_item(last_item(&board), 2, LogType::ColumnBox, 5, 8));
    assert!(!board.col_box_reduction(2));
}

#[test]
fn reduction_by_house_kinds() {
    let mut board = recording_board();
    rule_out_all(&mut board, &[1], &[9, 10, 11, 18, 19, 20]);
    assert_eq!(board.confinement(House::Section, 0, 0, House::Row), (true, 0));
    assert!(!board.confinement(House::Section, 0, 0, House::Column).0);
    assert!(board.intersection_reduction(House::Section, House::Row, 2));
    assert!(!board.rule_out_outside(House::Section, 0, 0, House::Row, 0, 2));
}

#[test]
fn hidden_pair_in_row() {
    let mut board = recording_board();
    rule_out_all(&mut board, &[1, 2], &[2, 3, 4, 5, 6, 7, 8]);
    assert!(board.hidden_pair_in_row(2));
    let table = board.get_possibilities();
    for cell in 0..2 {
        assert_eq!(table[entry(1, cell)], 0);
        assert_eq!(table[entry(2, cell)], 0);
        for value in 3..=9 {
            assert_eq!(table[entry(value, cell)], 2);
        }
    }
    assert_eq!(table[entry(3, 2)], 0);
    assert!(is_item(last_item(&board), 2, LogType::HiddenPairRow, 1, 0));
    assert!(!board.hidden_pair_in_row(2));
}

#[test]
fn hidden_pair_in_column() {
    let mut board = recording_board();
    rule_out_all(&mut board, &[4, 9], &[5, 14, 23, 32, 41, 50, 59]);
    assert!(board.hidden_pair_in_column(2));
    let table = board.get_possibilities();
    for cell in [68, 77] {
        for value in [1, 2, 3, 5, 6, 7, 8] {
            assert_eq!(table[entry(value, cell)], 2);
        }
        assert_eq!(table[entry(4, cell)], 0);
        assert_eq!(table[entry(9, cell)], 0);
    }
    assert!(is_item(last_item(&board), 2, LogType::HiddenPairColumn, 4, 68));
    assert!(!board.hidden_pair_in_column(2));
}

#[test]
fn hidden_pair_in_section() {
    let mut board = recording_board();
    rule_out_all(&mut board, &[3, 6], &[30, 31, 32, 39, 41, 48, 49]);
    assert!(board.hidden_pair_in_section(2));
    let table = board.get_possibilities();
    for cell in [40, 50] {
        for value in [1, 2, 4, 5, 7, 8, 9] {
            assert_eq!(table[entry(value, cell)], 2);
        }
        assert_eq!(table[entry(3, cell)], 0);
        assert_eq!(table[entry(6, cell)], 0);
    }
    assert!(is_item(last_item(&board), 2, LogType::HiddenPairSection, 3, 40));
    assert!(!board.hidden_pair_in_section(2));
}

#[test]
fn pair_places_finds_the_first_two() {
    let mut board = recording_board();
    rule_out_all(&mut board, &[1], &[0, 1, 3, 5, 6, 7, 8]);
    assert_eq!(board.pair_places(House::Row, 0, 0), (2, 4, 2));
    assert_eq!(board.pair_places(House::Row, 0, 1).2, 9);
    assert!(board.hidden_pair_in_house(House::Row, 2) == false);
}

#[test]
fn a_step_takes_the_first_technique_that_applies() {
    let mut board = recording_board();
    rule_out_all(&mut board, &[3, 4, 5, 6, 7, 8, 9], &[0, 1]);
    rule_out_all(&mut board, &[1, 2, 3, 4, 5, 6, 7, 8], &[80]);
    assert!(board.single_solve_move(2));
    assert_eq!(board.get_solution()[80], 9);
    assert!(is_item(last_item(&board), 2, LogType::Single, 9, 80));
    assert!(board.single_solve_move(2));
    assert!(is_item(last_item(&board), 2, LogType::NakedPairRow, 0, 0));
}

#[test]
fn a_step_that_finds_nothing_changes_nothing_and_finds_nothing_again() {
    let mut board = recording_board();
    rule_out_all(&mut board, &[3, 4, 5, 6, 7, 8, 9], &[0, 1]);
    let mut steps = 0;
    while board.single_solve_move(2) {
        steps += 1;
        assert!(steps < 729);
    }
    assert!(steps >= 2);
    let solution = board.get_solution();
    let table = board.get_possibilities();
    let history = board.get_solve_history().len();
    for _ in 0..3 {
        assert!(!board.single_solve_move(2));
        assert!(!board.only_possibility_for_cell(2));
        assert!(!board.handle_naked_pairs(2));
        assert_eq!(board.get_solution(), solution);
        assert_eq!(board.get_possibilities(), table);
        assert_eq!(board.get_solve_history().len(), history);
    }
}

#[test]
fn a_step_does_the_same_on_the_same_board() {
    let mut first = recording_board();
    let mut second = recording_board();
    for board in [&mut first, &mut second] {
        rule_out_all(board, &[3, 4, 5, 6, 7, 8, 9], &[0, 1]);
        rule_out_all(board, &[1], &[3, 4, 5, 6, 7, 8]);
    }
    for _ in 0..10 {
        let a = first.single_solve_move(2);
        let b = second.single_solve_move(2);
        assert_eq!(a, b);
        assert_eq!(first.get_solution(), second.get_solution());
        assert_eq!(first.get_possibilities(), second.get_possibilities());
    }
}
