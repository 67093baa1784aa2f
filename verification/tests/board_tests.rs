use qqwing::logitem::LogItem;
use qqwing::logtype::LogType;
use qqwing::{PrintStyle, QQWing, QQWingError};

const MONSTER: &str =
    "1.......2.9.4...5...6...7...5.9.3.......7.......85..4.7.....6...3...9.8...2.....1";

fn read(text: &str) -> Vec<u8> {
    text.chars().map(|c| c.to_digit(10).map(|d| d as u8).unwrap_or(0)).collect()
}

fn same_items(a: &Vec<LogItem>, b: &Vec<LogItem>) -> bool {
    a.len() == b.len()
        && a.iter().zip(b.iter()).all(|(x, y)| {
            x.round == y.round
                && x.log_type == y.log_type
                && x.value == y.value
                && x.position == y.position
        })
}

#[test]
fn new_board_is_empty() {
    let board = QQWing::new();
    assert!(!board.is_solved());
    assert!(!board.is_impossible());
    assert_eq!(board.get_puzzle(), vec![0u8; 81]);
    assert_eq!(board.get_solution(), vec![0u8; 81]);
    assert_eq!(board.get_solution_round(), vec![0u8; 81]);
    assert_eq!(board.get_possibilities(), vec![0u8; 729]);
    assert_eq!(board.get_given_count(), 0);
    assert!(board.get_solve_history().is_empty());
    assert!(board.print_style == PrintStyle::READABLE);
    for cell in 0..81 {
        assert_eq!(board.count_possibilities(cell), 9);
    }
}

#[test]
fn set_puzzle_takes_up_consistent_givens() {
    let mut board = QQWing::new();
    assert!(board.set_puzzle(read(MONSTER)));
    assert_eq!(board.get_puzzle(), read(MONSTER));
    assert_eq!(board.get_solution(), read(MONSTER));
    assert_eq!(board.get_given_count(), 21);
    let rounds = board.get_solution_round();
    for cell in 0..81 {
        assert_eq!(rounds[cell], if read(MONSTER)[cell] != 0 { 1 } else { 0 });
    }
}

#[test]
fn set_puzzle_uses_the_first_81_values() {
    let mut long = read(MONSTER);
    long.push(9);
    long.push(9);
    let mut board = QQWing::new();
    assert!(board.set_puzzle(long));
    assert_eq!(board.get_puzzle(), read(MONSTER));
}

#[test]
fn givens_rule_out_their_value_in_row_column_and_section() {
    let mut puzzle = vec![0u8; 81];
    puzzle[40] = 5;
    let mut board = QQWing::new();
    assert!(board.set_puzzle(puzzle));
    let table = board.get_possibilities();
    for cell in 0..81usize {
        let row = cell / 9;
        let column = cell % 9;
        let same_house = row == 4 || column == 4 || (row / 3 == 1 && column / 3 == 1);
        for value_index in 0..9usize {
            let entry = table[value_index + 9 * cell];
            let ruled_out = cell == 40 || (value_index == 4 && same_house);
            assert_eq!(entry, if ruled_out { 1 } else { 0 });
        }
    }
    assert_eq!(board.count_possibilities(40), 0);
    assert_eq!(board.count_possibilities(41), 8);
    assert_eq!(board.count_possibilities(0), 9);
}

#[test]
fn set_puzzle_stops_at_the_first_clash() {
    let mut puzzle = vec![0u8; 81];
    puzzle[0] = 5;
    puzzle[3] = 7;
    puzzle[8] = 5;
    puzzle[20] = 4;
    let mut board = QQWing::new();
    assert!(!board.set_puzzle(puzzle.clone()));
    assert_eq!(board.get_puzzle(), puzzle);
    let mut standing = vec![0u8; 81];
    standing[0] = 5;
    standing[3] = 7;
    assert_eq!(board.get_solution(), standing);
}

#[test]
fn clashes_in_column_and_section_are_found() {
    let mut column = vec![0u8; 81];
    column[4] = 3;
    column[76] = 3;
    assert!(!QQWing::new().set_puzzle(column));
    let mut section = vec![0u8; 81];
    section[30] = 8;
    section[50] = 8;
    assert!(!QQWing::new().set_puzzle(section));
    let mut fine = vec![0u8; 81];
    fine[30] = 8;
    fine[51] = 8;
    assert!(QQWing::new().set_puzzle(fine));
}

#[test]
fn givens_survive_set_puzzle_and_reset() {
    let mut board = QQWing::new();
    assert!(board.set_puzzle(read(MONSTER)));
    assert!(board.reset());
    assert_eq!(board.get_puzzle(), read(MONSTER));
    assert!(board.reset());
    assert_eq!(board.get_puzzle(), read(MONSTER));
    assert_eq!(board.get_solution(), read(MONSTER));
}

#[test]
fn reset_discards_what_was_worked_out() {
    let mut board = QQWing::new();
    board.set_record_history(true);
    assert!(board.set_puzzle(read(MONSTER)));
    assert!(board.solve());
    assert!(board.is_solved());
    assert!(board.reset());
    assert!(!board.is_solved());
    assert_eq!(board.get_solution(), read(MONSTER));
    assert_eq!(board.get_solve_history().len(), 21);
    assert!(board.get_solve_history().iter().all(|item| item.log_type == LogType::Given));
}

#[test]
fn givens_are_logged_in_order_when_recording() {
    let mut puzzle = vec![0u8; 81];
    puzzle[2] = 4;
    puzzle[40] = 9;
    let mut board = QQWing::new();
    board.set_record_history(true);
    assert!(board.set_puzzle(puzzle));
    let history = board.get_solve_history();
    let expected = vec![LogItem::new(1, LogType::Given, 4, 2), LogItem::new(1, LogType::Given, 9, 40)];
    assert!(same_items(&history, &expected));
    let mut silent = QQWing::new();
    let mut other = vec![0u8; 81];
    other[2] = 4;
    assert!(silent.set_puzzle(other));
    assert!(silent.get_solve_history().is_empty());
}

#[test]
fn mark_assigns_and_rules_out() {
    let mut board = QQWing::new();
    assert!(matches!(board.mark(10, 3, 6), Ok(true)));
    assert_eq!(board.get_solution()[10], 6);
    assert_eq!(board.get_solution_round()[10], 3);
    let table = board.get_possibilities();
    for value_index in 0..9usize {
        assert_eq!(table[value_index + 9 * 10], 3);
    }
    assert_eq!(table[5 + 9 * 17], 3);
    assert_eq!(table[5 + 9 * 1], 3);
    assert_eq!(table[5 + 9 * 73], 3);
    assert_eq!(table[5 + 9 * 20], 3);
    assert_eq!(table[4 + 9 * 17], 0);
    assert_eq!(table[5 + 9 * 30], 0);
}

#[test]
fn mark_keeps_earlier_stamps() {
    let mut board = QQWing::new();
    assert!(matches!(board.mark(0, 1, 5), Ok(true)));
    assert!(matches!(board.mark(8, 2, 6), Ok(true)));
    let table = board.get_possibilities();
    assert_eq!(table[4 + 9 * 8], 1);
    assert_eq!(table[5 + 9 * 8], 2);
    assert_eq!(table[5 + 9 * 0], 1);
    assert_eq!(table[5 + 9 * 4], 2);
    assert_eq!(table[4 + 9 * 4], 1);
}

#[test]
fn mark_refuses_a_cell_that_has_a_value() {
    let mut board = QQWing::new();
    assert!(matches!(board.mark(10, 1, 6), Ok(true)));
    let solution = board.get_solution();
    let table = board.get_possibilities();
    assert!(matches!(board.mark(10, 2, 7), Err(QQWingError::PositionAlreadyMarked)));
    assert_eq!(board.get_solution(), solution);
    assert_eq!(board.get_possibilities(), table);
}

#[test]
fn mark_refuses_a_value_that_was_ruled_out() {
    let mut board = QQWing::new();
    assert!(matches!(board.mark(10, 1, 6), Ok(true)));
    assert!(matches!(board.mark(11, 2, 6), Err(QQWingError::PositionAlreadyMarked)));
    assert_eq!(board.get_solution_round()[11], 0);
}

#[test]
fn rollback_undoes_a_mark_exactly() {
    let mut board = QQWing::new();
    board.set_record_history(true);
    assert!(board.set_puzzle(read(MONSTER)));
    let solution = board.get_solution();
    let rounds = board.get_solution_round();
    let table = board.get_possibilities();
    let instructions = board.get_solve_history();
    assert!(matches!(board.mark(1, 2, 7), Ok(true)));
    board.add_history_item(LogItem::new(2, LogType::Guess, 7, 1));
    assert_ne!(board.get_possibilities(), table);
    assert_ne!(board.get_solution(), solution);
    board.rollback_round(2);
    assert_eq!(board.get_solution(), solution);
    assert_eq!(board.get_solution_round(), rounds);
    assert_eq!(board.get_possibilities(), table);
    let history = board.get_solve_history();
    assert_eq!(history.len(), instructions.len() + 2);
    assert!(same_items(&history[..instructions.len()].to_vec(), &instructions));
    assert!(history[instructions.len()].log_type == LogType::Guess);
    assert!(history[instructions.len() + 1].log_type == LogType::Rollback);
    assert_eq!(history[instructions.len() + 1].round, 2);
}

#[test]
fn rollback_undoes_every_round_it_is_asked_for() {
    for round in 2..=20u8 {
        let mut board = QQWing::new();
        assert!(board.set_puzzle(read(MONSTER)));
        let solution = board.get_solution();
        let rounds = board.get_solution_round();
        let table = board.get_possibilities();
        assert!(matches!(board.mark(1, round, 7), Ok(true)));
        let open = board.get_possibilities().iter().position(|&stamp| stamp == 0).unwrap();
        assert!(board.rule_out(open, round));
        assert_eq!(board.get_possibilities()[open], round);
        board.rollback_round(round);
        assert_eq!(board.get_solution(), solution);
        assert_eq!(board.get_solution_round(), rounds);
        assert_eq!(board.get_possibilities(), table);
    }
}

#[test]
fn rollback_leaves_other_rounds_alone() {
    let mut board = QQWing::new();
    assert!(matches!(board.mark(0, 2, 5), Ok(true)));
    assert!(matches!(board.mark(40, 3, 6), Ok(true)));
    let solution = board.get_solution();
    let table = board.get_possibilities();
    assert!(matches!(board.mark(80, 4, 7), Ok(true)));
    board.rollback_round(4);
    assert_eq!(board.get_solution(), solution);
    assert_eq!(board.get_possibilities(), table);
    board.rollback_round(7);
    assert_eq!(board.get_solution(), solution);
    assert_eq!(board.get_possibilities(), table);
    board.rollback_round(3);
    assert_eq!(board.get_solution()[40], 0);
    assert_eq!(board.get_solution()[0], 5);
    assert_eq!(board.get_possibilities()[5 + 9 * 40], 0);
    assert_eq!(board.get_possibilities()[4 + 9 * 40], 0);
    assert_eq!(board.get_possibilities()[4 + 9 * 8], 2);
}

#[test]
fn rollback_drops_the_trailing_steps_of_its_round() {
    let mut board = QQWing::new();
    board.set_record_history(true);
    assert!(matches!(board.mark(0, 2, 5), Ok(true)));
    board.add_history_item(LogItem::new(2, LogType::Single, 5, 0));
    assert!(matches!(board.mark(1, 3, 6), Ok(true)));
    board.add_history_item(LogItem::new(3, LogType::Guess, 6, 1));
    assert!(matches!(board.mark(2, 3, 7), Ok(true)));
    board.add_history_item(LogItem::new(3, LogType::Single, 7, 2));
    board.rollback_round(3);
    let mut all_cells_but_first = board.get_solution();
    all_cells_but_first[0] = 0;
    assert_eq!(all_cells_but_first, vec![0u8; 81]);
    assert_eq!(board.get_single_count(), 1);
    assert_eq!(board.get_guess_count(), 0);
    assert_eq!(board.get_backtrack_count(), 1);
    assert_eq!(board.get_solve_history().len(), 4);
}

#[test]
fn history_is_kept_only_while_recording() {
    let mut board = QQWing::new();
    board.add_history_item(LogItem::new(2, LogType::Single, 5, 0));
    assert!(board.get_solve_history().is_empty());
    board.set_log_history(true);
    board.add_history_item(LogItem::new(2, LogType::Single, 5, 0));
    assert!(board.get_solve_history().is_empty());
    board.set_record_history(true);
    board.add_history_item(LogItem::new(2, LogType::Single, 5, 0));
    assert_eq!(board.get_solve_history().len(), 1);
    assert_eq!(board.get_single_count(), 1);
}

#[test]
fn a_cell_without_possible_value_makes_the_board_impossible() {
    let mut puzzle = vec![0u8; 81];
    for column in 0..8 {
        puzzle[column] = column as u8 + 1;
    }
    puzzle[17] = 9;
    let mut board = QQWing::new();
    assert!(board.set_puzzle(puzzle));
    assert_eq!(board.count_possibilities(8), 0);
    assert!(board.is_impossible());
    assert!(!board.is_solved());
}

#[test]
fn possibilities_are_compared_and_removed() {
    let mut board = QQWing::new();
    assert!(board.are_possibilities_same(0, 1));
    assert!(board.rule_out(QQWing::get_possibility_index(2, 0), 1));
    assert!(!board.rule_out(QQWing::get_possibility_index(2, 0), 5));
    assert_eq!(board.get_possibilities()[2], 1);
    assert!(!board.are_possibilities_same(0, 1));
    assert!(board.rule_out(QQWing::get_possibility_index(2, 1), 1));
    assert!(board.are_possibilities_same(0, 1));
    for value_index in 3..9 {
        board.rule_out(QQWing::get_possibility_index(value_index, 0), 1);
    }
    assert_eq!(board.count_possibilities(0), 2);
    assert!(board.remove_possibilities_in_one_from_two(0, 5, 2));
    let table = board.get_possibilities();
    assert_eq!(table[0 + 9 * 5], 2);
    assert_eq!(table[1 + 9 * 5], 2);
    assert_eq!(table[2 + 9 * 5], 0);
    assert_eq!(board.count_possibilities(5), 7);
    assert!(!board.remove_possibilities_in_one_from_two(0, 5, 2));
}

#[test]
fn settings_are_kept() {
    let mut board = QQWing::new();
    board.set_print_style(PrintStyle::CSV);
    assert!(board.print_style == PrintStyle::CSV);
    board.set_print_style(PrintStyle::ONELINE);
    assert!(board.print_style == PrintStyle::ONELINE);
}
