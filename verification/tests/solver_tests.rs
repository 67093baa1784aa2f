use qqwing::difficulty::Difficulty;
use qqwing::logtype::LogType;
use qqwing::QQWing;

const MONSTER: &str =
    "1.......2.9.4...5...6...7...5.9.3.......7.......85..4.7.....6...3...9.8...2.....1";

const MONSTER_SOLVED: &str =
    "174385962293467158586192734451923876928674315367851249719548623635219487842736591";

const DIAGONAL_BLANK: &str =
    ".743859622.346715858.192734451.238769286.431536785.249719548.236352194.784273659.";

const TWO_SOLUTIONS: &str =
    "17..8596229..67158586192734451923876928674315367851249719548623635219487842736591";

fn read(text: &str) -> Vec<u8> {
    text.chars().map(|c| c.to_digit(10).map(|d| d as u8).unwrap_or(0)).collect()
}

fn is_valid_grid(grid: &Vec<u8>) -> bool {
    if grid.len() != 81 {
        return false;
    }
    for unit in 0..9 {
        let mut row = [0u8; 10];
        let mut column = [0u8; 10];
        let mut section = [0u8; 10];
        for index in 0..9 {
            let r = grid[unit * 9 + index] as usize;
            let c = grid[index * 9 + unit] as usize;
            let s = grid[(unit / 3 * 3 + index / 3) * 9 + unit % 3 * 3 + index % 3] as usize;
            if r < 1 || r > 9 || c < 1 || c > 9 || s < 1 || s > 9 {
                return false;
            }
            row[r] += 1;
            column[c] += 1;
            section[s] += 1;
        }
        for value in 1..10 {
            if row[value] != 1 || column[value] != 1 || section[value] != 1 {
                return false;
            }
        }
    }
    true
}

#[test]
fn solves_the_known_puzzle_to_its_one_grid() {
    let mut board = QQWing::new();
    board.set_record_history(true);
    assert!(board.set_puzzle(read(MONSTER)));
    assert!(board.solve());
    assert!(board.is_solved());
    assert_eq!(board.get_solution(), read(MONSTER_SOLVED));
    assert_eq!(board.get_puzzle(), read(MONSTER));
    assert!(board.has_unique_solution());
}

#[test]
fn solves_the_known_puzzle_whatever_the_order() {
    let mut board = QQWing::new();
    for _ in 0..20 {
        assert!(board.set_puzzle(read(MONSTER)));
        assert!(board.solve());
        assert_eq!(board.get_solution(), read(MONSTER_SOLVED));
    }
}

#[test]
fn solves_by_logic_alone() {
    let mut board = QQWing::new();
    board.set_record_history(true);
    assert!(board.set_puzzle(read(DIAGONAL_BLANK)));
    assert!(board.solve());
    assert_eq!(board.get_solution(), read(MONSTER_SOLVED));
    assert_eq!(board.get_guess_count(), 0);
    assert_eq!(board.get_backtrack_count(), 0);
    assert!(board.get_difficulty() != Difficulty::EXPERT);
    assert!(board.get_difficulty() == Difficulty::SIMPLE);
    assert_eq!(board.get_single_count(), 9);
    assert_eq!(board.get_given_count(), 72);
}

#[test]
fn solved_board_holds_each_value_once_in_each_house() {
    let mut board = QQWing::new();
    for puzzle in [MONSTER, DIAGONAL_BLANK, TWO_SOLUTIONS] {
        assert!(board.set_puzzle(read(puzzle)));
        assert!(board.solve());
        assert!(is_valid_grid(&board.get_solution()));
        let solution = board.get_solution();
        let givens = read(puzzle);
        for cell in 0..81 {
            assert!(givens[cell] == 0 || givens[cell] == solution[cell]);
        }
    }
}

#[test]
fn solves_the_empty_puzzle() {
    let mut board = QQWing::new();
    for _ in 0..10 {
        board.clear_puzzle();
        assert!(board.solve());
        assert!(board.is_solved());
        assert!(is_valid_grid(&board.get_solution()));
    }
}

#[test]
fn a_complete_grid_is_solved_as_it_stands() {
    let mut board = QQWing::new();
    assert!(board.set_puzzle(read(MONSTER_SOLVED)));
    assert!(board.is_solved());
    assert!(board.solve());
    assert_eq!(board.get_solution(), read(MONSTER_SOLVED));
}

#[test]
fn an_impossible_puzzle_is_not_solved() {
    let mut puzzle = vec![0u8; 81];
    for column in 0..8 {
        puzzle[column] = column as u8 + 1;
    }
    puzzle[17] = 9;
    let mut board = QQWing::new();
    assert!(board.set_puzzle(puzzle.clone()));
    assert!(!board.solve());
    assert!(!board.is_solved());
    assert_eq!(board.get_puzzle(), puzzle);
    assert!(board.get_solve_instructions().is_empty());
}

#[test]
fn a_puzzle_that_fails_late_is_not_solved() {
    let mut puzzle = read(MONSTER);
    puzzle[1] = 4;
    let mut board = QQWing::new();
    board.set_record_history(true);
    assert!(board.set_puzzle(puzzle));
    assert!(!board.solve());
    assert!(!board.is_solved());
    assert!(board.has_no_solution());
}

#[test]
fn solving_after_a_clash_works_on_the_givens_that_stand() {
    let mut puzzle = vec![0u8; 81];
    puzzle[0] = 5;
    puzzle[8] = 5;
    let mut board = QQWing::new();
    assert!(!board.set_puzzle(puzzle));
    assert!(board.solve());
    let solution = board.get_solution();
    assert!(is_valid_grid(&solution));
    assert_eq!(solution[0], 5);
    assert_ne!(solution[8], 5);
}

#[test]
fn guess_cell_is_the_free_cell_with_fewest_values() {
    let mut board = QQWing::new();
    assert_eq!(board.find_position_with_fewest_possibilities(), 0);
    for value_index in 0..6 {
        board.rule_out(QQWing::get_possibility_index(value_index, 30), 1);
    }
    for value_index in 0..7 {
        board.rule_out(QQWing::get_possibility_index(value_index, 60), 1);
    }
    for value_index in 0..7 {
        board.rule_out(QQWing::get_possibility_index(value_index, 45), 1);
    }
    assert_eq!(board.find_position_with_fewest_possibilities(), 45);
    assert!(matches!(board.mark(45, 1, 9), Ok(true)));
    assert_eq!(board.find_position_with_fewest_possibilities(), 60);
}

#[test]
fn guess_tries_the_possible_values_in_turn() {
    let mut board = QQWing::new();
    board.set_record_history(true);
    for value_index in [0, 1, 2, 4, 5, 7, 8] {
        board.rule_out(QQWing::get_possibility_index(value_index, 30), 1);
    }
    assert!(!board.guess(3, 2));
    assert_eq!(board.get_solution()[30], 0);
    assert!(board.guess(3, 1));
    assert_eq!(board.get_solution()[30], 7);
    assert_eq!(board.get_solution_round()[30], 3);
    board.rollback_round(3);
    assert_eq!(board.get_solution()[30], 0);
    assert!(board.guess(3, 0));
    assert_eq!(board.get_solution()[30], 4);
    let history = board.get_solve_history();
    assert!(history[0].log_type == LogType::Guess);
    assert_eq!(history[0].value, 7);
    assert_eq!(history[0].position, 30);
    assert!(history[1].log_type == LogType::Rollback);
    assert!(history[2].log_type == LogType::Guess);
    assert_eq!(history[2].value, 4);
}

#[test]
fn solve_round_fills_the_board_from_where_it_stands() {
    let mut board = QQWing::new();
    assert!(board.set_puzzle(read(DIAGONAL_BLANK)));
    assert!(board.solve_round(2));
    assert_eq!(board.get_solution(), read(MONSTER_SOLVED));
    let rounds = board.get_solution_round();
    for cell in 0..81 {
        assert_eq!(rounds[cell], if cell % 10 == 0 { 2 } else { 1 });
    }
}

#[test]
fn solve_instructions_rebuild_the_solution() {
    let mut board = QQWing::new();
    board.set_record_history(true);
    assert!(board.set_puzzle(read(MONSTER)));
    assert!(board.solve());
    let mut grid = vec![0u8; 81];
    for item in board.get_solve_instructions() {
        let marks = matches!(
            item.log_type,
            LogType::Given
                | LogType::Single
                | LogType::HiddenSingleRow
                | LogType::HiddenSingleColumn
                | LogType::HiddenSingleSection
                | LogType::Guess
        );
        if marks {
            assert_eq!(grid[item.position], 0);
            grid[item.position] = item.value as u8;
        }
        assert!(item.log_type != LogType::Rollback);
    }
    assert_eq!(grid, read(MONSTER_SOLVED));
    assert!(board.get_solve_history().len() >= board.get_solve_instructions().len());
    assert_eq!(
        board.get_backtrack_count(),
        board.get_solve_history().iter().filter(|item| item.log_type == LogType::Rollback).count()
    );
}

#[test]
fn nothing_is_recorded_unless_asked_for() {
    let mut board = QQWing::new();
    assert!(board.set_puzzle(read(DIAGONAL_BLANK)));
    assert!(board.solve());
    assert!(board.get_solve_history().is_empty());
    assert!(board.get_solve_instructions().is_empty());
    assert!(board.get_difficulty() == Difficulty::UNKNOWN);
}

const ONE_BLANK: &str =
    ".74385962293467158586192734451923876928674315367851249719548623635219487842736591";

#[test]
fn one_blank_is_filled_by_one_single_in_round_two() {
    let mut board = QQWing::new();
    board.set_record_history(true);
    assert!(board.set_puzzle(read(ONE_BLANK)));
    assert!(board.solve());
    assert_eq!(board.get_solution(), read(MONSTER_SOLVED));
    let steps = board.get_solve_instructions();
    assert_eq!(steps.len(), 81);
    for (k, item) in steps.iter().take(80).enumerate() {
        assert!(item.log_type == LogType::Given);
        assert_eq!(item.round, 1);
        assert_eq!(item.position, k + 1);
    }
    let last = steps[80];
    assert!(last.log_type == LogType::Single);
    assert_eq!(last.get_round(), 2);
    assert_eq!(last.get_value(), 1);
    assert_eq!(last.get_row(), 1);
    assert_eq!(last.get_column(), 1);
    assert!(board.get_difficulty() == Difficulty::SIMPLE);
    assert_eq!(board.get_solve_history().len(), 81);
    assert_eq!(board.get_backtrack_count(), 0);
}

#[test]
fn steps_follow_the_rounds() {
    let mut board = QQWing::new();
    board.set_record_history(true);
    for _ in 0..5 {
        assert!(board.set_puzzle(read(MONSTER)));
        assert!(board.solve());
        let steps = board.get_solve_instructions();
        let mut in_force = 2;
        let mut givens_over = false;
        for item in steps {
            if item.log_type == LogType::Given {
                assert!(!givens_over);
                assert_eq!(item.round, 1);
            } else if item.log_type == LogType::Guess {
                givens_over = true;
                assert_eq!(item.round, in_force + 1);
                in_force += 2;
            } else {
                givens_over = true;
                assert_eq!(item.round, in_force);
            }
        }
        assert_eq!(board.get_guess_count(), (in_force as usize - 2) / 2);
    }
}

#[test]
fn a_guess_is_made_only_where_no_technique_applies() {
    let mut board = QQWing::new();
    board.set_record_history(true);
    assert!(board.set_puzzle(read(MONSTER)));
    assert!(board.solve());
    let steps = board.get_solve_instructions();
    let mut replayed = QQWing::new();
    replayed.set_record_history(true);
    assert!(replayed.set_puzzle(read(MONSTER)));
    for item in steps.iter().skip(21) {
        if item.log_type == LogType::Guess {
            let mut probe = QQWing::new();
            assert!(probe.set_puzzle(read(MONSTER)));
            for cell in 0..81 {
                let value = replayed.get_solution()[cell];
                if value != 0 && probe.get_solution()[cell] == 0 {
                    assert!(matches!(probe.mark(cell, item.round - 1, value), Ok(true)));
                }
            }
            let table = replayed.get_possibilities();
            for entry in 0..729 {
                if table[entry] != 0 {
                    probe.rule_out(entry, item.round - 1);
                }
            }
            assert!(!probe.single_solve_move(item.round));
            assert!(matches!(replayed.mark(item.position, item.round, item.value as u8), Ok(true)));
        } else {
            assert!(replayed.single_solve_move(item.round));
        }
    }
    assert!(replayed.is_solved());
    assert_eq!(replayed.get_solution(), board.get_solution());
}
