use qqwing::difficulty::Difficulty;
use qqwing::logitem::LogItem;
use qqwing::logtype::LogType;
use qqwing::QQWing;

fn board_with_steps(kinds: &[LogType]) -> QQWing {
    let mut board = QQWing::new();
    board.set_record_history(true);
    for (i, &kind) in kinds.iter().enumerate() {
        board.add_history_item(LogItem::new(2, kind, 1, i));
    }
    board
}

#[test]
fn log_items_are_counted_by_kind() {
    let items = vec![
        LogItem::new(1, LogType::Given, 1, 0),
        LogItem::new(2, LogType::Single, 2, 1),
        LogItem::new(2, LogType::Single, 3, 2),
        LogItem::new(3, LogType::Guess, 4, 3),
    ];
    assert_eq!(QQWing::get_log_count(&items, LogType::Given), 1);
    assert_eq!(QQWing::get_log_count(&items, LogType::Single), 2);
    assert_eq!(QQWing::get_log_count(&items, LogType::Guess), 1);
    assert_eq!(QQWing::get_log_count(&items, LogType::Rollback), 0);
    assert_eq!(QQWing::get_log_count(&Vec::new(), LogType::Given), 0);
    assert_eq!(QQWing::copy_log(&items).len(), 4);
    assert_eq!(QQWing::copy_log(&items)[3].value, 4);
}

#[test]
fn techniques_are_counted_by_family() {
    let board = board_with_steps(&[
        LogType::Single,
        LogType::HiddenSingleRow,
        LogType::HiddenSingleColumn,
        LogType::HiddenSingleColumn,
        LogType::HiddenSingleSection,
        LogType::NakedPairRow,
        LogType::NakedPairColumn,
        LogType::NakedPairSection,
        LogType::NakedPairSection,
        LogType::HiddenPairRow,
        LogType::HiddenPairColumn,
        LogType::HiddenPairSection,
        LogType::PointingPairTripleRow,
        LogType::PointingPairTripleColumn,
        LogType::RowBox,
        LogType::ColumnBox,
        LogType::ColumnBox,
        LogType::Guess,
        LogType::Given,
    ]);
    assert_eq!(board.get_single_count(), 1);
    assert_eq!(board.get_hidden_single_count(), 4);
    assert_eq!(board.get_naked_pair_count(), 4);
    assert_eq!(board.get_hidden_pair_count(), 3);
    assert_eq!(board.get_pointing_pair_triple_count(), 2);
    assert_eq!(board.get_box_line_reduction_count(), 3);
    assert_eq!(board.get_guess_count(), 1);
    assert_eq!(board.get_backtrack_count(), 0);
}

#[test]
fn difficulty_is_that_of_the_hardest_technique() {
    assert!(board_with_steps(&[]).get_difficulty() == Difficulty::UNKNOWN);
    assert!(board_with_steps(&[LogType::Given]).get_difficulty() == Difficulty::UNKNOWN);
    assert!(board_with_steps(&[LogType::Rollback]).get_difficulty() == Difficulty::UNKNOWN);
    assert!(board_with_steps(&[LogType::Given, LogType::Single]).get_difficulty() == Difficulty::SIMPLE);
    for kind in [LogType::HiddenSingleRow, LogType::HiddenSingleColumn, LogType::HiddenSingleSection] {
        assert!(board_with_steps(&[LogType::Single, kind]).get_difficulty() == Difficulty::EASY);
    }
    for kind in [
        LogType::NakedPairRow,
        LogType::NakedPairColumn,
        LogType::NakedPairSection,
        LogType::HiddenPairRow,
        LogType::HiddenPairColumn,
        LogType::HiddenPairSection,
        LogType::PointingPairTripleRow,
        LogType::PointingPairTripleColumn,
        LogType::RowBox,
        LogType::ColumnBox,
    ] {
        let board = board_with_steps(&[LogType::Single, LogType::HiddenSingleRow, kind]);
        assert!(board.get_difficulty() == Difficulty::MEDIUM);
    }
    let board = board_with_steps(&[LogType::Single, LogType::RowBox, LogType::Guess]);
    assert!(board.get_difficulty() == Difficulty::EXPERT);
}

#[test]
fn difficulty_goes_by_the_steps_that_stand() {
    let mut board = QQWing::new();
    board.set_record_history(true);
    board.add_history_item(LogItem::new(2, LogType::Single, 1, 0));
    board.add_history_item(LogItem::new(3, LogType::Guess, 1, 1));
    assert!(board.get_difficulty() == Difficulty::EXPERT);
    board.rollback_round(3);
    assert!(board.get_difficulty() == Difficulty::SIMPLE);
    assert_eq!(board.get_backtrack_count(), 1);
    assert_eq!(board.get_solve_history().len(), 3);
}

#[test]
fn solve_instructions_are_given_for_a_solved_board_only() {
    let mut board = QQWing::new();
    board.set_record_history(true);
    board.add_history_item(LogItem::new(2, LogType::Single, 1, 0));
    assert!(board.get_solve_instructions().is_empty());
    assert_eq!(board.get_solve_history().len(), 1);
    let solved =
        "174385962293467158586192734451923876928674315367851249719548623635219487842736591";
    assert!(board.set_puzzle(solved.chars().map(|c| c.to_digit(10).unwrap() as u8).collect()));
    assert_eq!(board.get_solve_instructions().len(), 81);
    assert_eq!(board.get_solve_history().len(), 81);
}

#[test]
fn known_puzzle_needs_guesses() {
    let monster =
        "1.......2.9.4...5...6...7...5.9.3.......7.......85..4.7.....6...3...9.8...2.....1";
    let mut board = QQWing::new();
    board.set_record_history(true);
    assert!(board.set_puzzle(
        monster.chars().map(|c| c.to_digit(10).map(|d| d as u8).unwrap_or(0)).collect()
    ));
    assert!(board.solve());
    assert_eq!(
        board.get_guess_count(),
        board.get_solve_instructions().iter().filter(|item| item.log_type == LogType::Guess).count()
    );
    assert_eq!(board.get_difficulty() == Difficulty::EXPERT, board.get_guess_count() > 0);
}
