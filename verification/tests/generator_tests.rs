use qqwing::symmetry::Symmetry;
use qqwing::QQWing;

fn is_valid_grid(grid: &Vec<u8>) -> bool {
    for unit in 0..9 {
        let mut row = [0u8; 10];
        let mut column = [0u8; 10];
        let mut section = [0u8; 10];
        for index in 0..9 {
            let r = grid[unit * 9 + index] as usize;
            let c = grid[index * 9 + unit] as usize;
            let s = grid[(unit / 3 * 3 + index / 3) * 9 + unit % 3 * 3 + index % 3] as usize;
            if r < 1 || r > 9 || c < 1 || c > 9 || s < 1 || s > 9 {
                return false;
            }
            row[r] += 1;
            column[c] += 1;
            section[s] += 1;
        }
        for value in 1..10 {
            if row[value] != 1 || column[value] != 1 || section[value] != 1 {
                return false;
            }
        }
    }
    true
}

fn generate_and_check(board: &mut QQWing, times: usize) {
    for _ in 0..times {
        assert!(board.generate_puzzle());
        assert!(board.has_unique_solution());
        assert!(board.get_given_count() < 81);
        let puzzle = board.get_puzzle();
        assert_eq!(board.get_solution(), puzzle);
        assert!(puzzle.iter().all(|&value| value <= 9));
    }
}

#[test]
fn generated_puzzles_have_one_solution_and_blanks_first_quarter() {
    generate_and_check(&mut QQWing::new(), 25);
}

#[test]
fn generated_puzzles_have_one_solution_and_blanks_second_quarter() {
    generate_and_check(&mut QQWing::new(), 25);
}

#[test]
fn generated_puzzles_have_one_solution_and_blanks_third_quarter() {
    generate_and_check(&mut QQWing::new(), 25);
}

#[test]
fn generated_puzzles_have_one_solution_and_blanks_fourth_quarter() {
    generate_and_check(&mut QQWing::new(), 25);
}

#[test]
fn generated_puzzle_solves_to_a_valid_grid() {
    let mut board = QQWing::new();
    for _ in 0..5 {
        assert!(board.generate_puzzle());
        let puzzle = board.get_puzzle();
        assert!(board.solve());
        let solution = board.get_solution();
        assert!(is_valid_grid(&solution));
        for cell in 0..81 {
            assert!(puzzle[cell] == 0 || puzzle[cell] == solution[cell]);
        }
        assert_eq!(board.get_puzzle(), puzzle);
    }
}

#[test]
fn generated_puzzle_needs_every_given() {
    let mut board = QQWing::new();
    assert!(board.generate_puzzle());
    let puzzle = board.get_puzzle();
    for cell in 0..81 {
        if puzzle[cell] != 0 {
            let mut less = puzzle.clone();
            less[cell] = 0;
            let mut other = QQWing::new();
            assert!(other.set_puzzle(less));
            assert!(other.has_multiple_solutions());
        }
    }
}

#[test]
fn generated_puzzles_differ() {
    let mut board = QQWing::new();
    assert!(board.generate_puzzle());
    let first = board.get_puzzle();
    assert!(board.generate_puzzle());
    let second = board.get_puzzle();
    let mut fresh = QQWing::new();
    assert!(fresh.generate_puzzle());
    let third = fresh.get_puzzle();
    assert!(first != second || second != third);
}

fn partners(symmetry: Symmetry, cell: usize) -> Vec<usize> {
    let row = cell / 9;
    let column = cell % 9;
    match symmetry {
        Symmetry::ROTATE90 => {
            vec![(8 - column) * 9 + row, (8 - row) * 9 + (8 - column), column * 9 + (8 - row)]
        }
        Symmetry::ROTATE180 => vec![(8 - row) * 9 + (8 - column)],
        Symmetry::MIRROR => vec![row * 9 + (8 - column)],
        Symmetry::FLIP => vec![(8 - row) * 9 + column],
        _ => Vec::new(),
    }
}

#[test]
fn symmetric_puzzles_keep_their_symmetry() {
    let mut board = QQWing::new();
    for symmetry in [Symmetry::ROTATE90, Symmetry::ROTATE180, Symmetry::MIRROR, Symmetry::FLIP] {
        for _ in 0..5 {
            assert!(board.generate_puzzle_symmetry(symmetry));
            let puzzle = board.get_puzzle();
            for cell in 0..81 {
                for other in partners(symmetry, cell) {
                    assert_eq!(puzzle[cell] != 0, puzzle[other] != 0);
                }
            }
            assert!(board.has_unique_solution());
            assert!(board.get_given_count() < 81);
        }
    }
}

#[test]
fn symmetric_puzzle_needs_every_given_with_its_partners() {
    let mut board = QQWing::new();
    for symmetry in [Symmetry::ROTATE180, Symmetry::ROTATE90] {
        assert!(board.generate_puzzle_symmetry(symmetry));
        let puzzle = board.get_puzzle();
        for cell in 0..81 {
            if puzzle[cell] != 0 {
                let mut less = puzzle.clone();
                less[cell] = 0;
                for other in partners(symmetry, cell) {
                    less[other] = 0;
                }
                let mut other = QQWing::new();
                assert!(other.set_puzzle(less));
                assert!(other.has_multiple_solutions());
            }
        }
    }
}

#[test]
fn quarter_turn_and_random_symmetry_give_puzzles_with_one_solution() {
    let mut board = QQWing::new();
    for symmetry in [Symmetry::ROTATE90, Symmetry::RANDOM, Symmetry::NONE] {
        assert!(board.generate_puzzle_symmetry(symmetry));
        assert_eq!(board.count_solutions_limited(), 1);
        for _ in 0..5 {
            assert!(board.generate_puzzle_symmetry(symmetry));
            assert!(board.has_unique_solution());
            assert_eq!(board.count_total_solutions(), 1);
        }
    }
}

#[test]
fn generating_keeps_the_settings_and_leaves_no_history() {
    let mut board = QQWing::new();
    board.set_record_history(true);
    board.set_log_history(true);
    assert!(board.generate_puzzle());
    assert!(board.get_solve_history().is_empty());
    assert!(!board.is_solved());
    assert!(board.solve());
    assert!(!board.get_solve_history().is_empty());
    assert!(board.get_solve_instructions().len() >= 81);
}

#[test]
fn removing_a_given_that_is_not_needed() {
    let solved =
        "174385962293467158586192734451923876928674315367851249719548623635219487842736591";
    let grid: Vec<u8> = solved.chars().map(|c| c.to_digit(10).unwrap() as u8).collect();
    let mut board = QQWing::new();
    assert!(board.set_puzzle(grid.clone()));
    assert!(board.remove_if_not_needed(40, Symmetry::NONE));
    let mut expected = grid.clone();
    expected[40] = 0;
    assert_eq!(board.get_puzzle(), expected);
    assert!(board.remove_if_not_needed(0, Symmetry::ROTATE180));
    expected[0] = 0;
    expected[80] = 0;
    assert_eq!(board.get_puzzle(), expected);
    assert!(board.remove_if_not_needed(1, Symmetry::ROTATE90));
    expected[1] = 0;
    expected[9 * 7] = 0;
    expected[9 * 8 + 7] = 0;
    expected[9 + 8] = 0;
    assert_eq!(board.get_puzzle(), expected);
    assert!(board.remove_if_not_needed(2, Symmetry::MIRROR));
    expected[2] = 0;
    expected[6] = 0;
    assert_eq!(board.get_puzzle(), expected);
    assert!(board.remove_if_not_needed(3, Symmetry::FLIP));
    expected[3] = 0;
    expected[75] = 0;
    assert_eq!(board.get_puzzle(), expected);
}

#[test]
fn keeping_a_given_that_is_needed() {
    let two = "17..8596229..67158586192734451923876928674315367851249719548623635219487842736591";
    let mut puzzle: Vec<u8> =
        two.chars().map(|c| c.to_digit(10).map(|d| d as u8).unwrap_or(0)).collect();
    puzzle[2] = 4;
    let mut board = QQWing::new();
    assert!(board.set_puzzle(puzzle.clone()));
    assert!(board.has_unique_solution());
    assert!(!board.remove_if_not_needed(2, Symmetry::NONE));
    assert_eq!(board.get_puzzle(), puzzle);
    assert!(!board.remove_if_not_needed(2, Symmetry::ROTATE90));
    assert_eq!(board.get_puzzle(), puzzle);
}

#[test]
fn symmetry_is_picked_by_number() {
    assert!(QQWing::symmetry_for(0) == Symmetry::ROTATE90);
    assert!(QQWing::symmetry_for(1) == Symmetry::ROTATE180);
    assert!(QQWing::symmetry_for(2) == Symmetry::MIRROR);
    assert!(QQWing::symmetry_for(3) == Symmetry::FLIP);
    assert!(QQWing::symmetry_for(4) == Symmetry::RANDOM);
    assert!(QQWing::symmetry_for(5) == Symmetry::ROTATE90);
    assert!(QQWing::symmetry_for(4294967295) == Symmetry::ROTATE90);
    for _ in 0..50 {
        assert!(QQWing::get_random_symmetry() != Symmetry::NONE);
    }
}

#[test]
fn rolling_back_logic_keeps_the_guesses() {
    let mut board = QQWing::new();
    board.clear_puzzle();
    assert!(board.solve());
    let solution = board.get_solution();
    let rounds = board.get_solution_round();
    let stamps = board.get_possibilities();
    assert!(rounds.iter().any(|&round| round % 2 == 0 && round >= 2));
    board.rollback_non_guesses();
    let kept = board.get_solution();
    let kept_rounds = board.get_solution_round();
    for cell in 0..81 {
        let rolled = rounds[cell] % 2 == 0 && rounds[cell] >= 2;
        assert_eq!(kept[cell], if rolled { 0 } else { solution[cell] });
        assert_eq!(kept_rounds[cell], if rolled { 0 } else { rounds[cell] });
        assert!(kept_rounds[cell] == 0 || kept_rounds[cell] % 2 == 1);
    }
    let kept_stamps = board.get_possibilities();
    for entry in 0..729 {
        let rolled = stamps[entry] % 2 == 0 && stamps[entry] >= 2;
        assert_eq!(kept_stamps[entry], if rolled { 0 } else { stamps[entry] });
    }
    assert!(kept.iter().any(|&value| value != 0));
    let mut other = QQWing::new();
    assert!(other.set_puzzle(kept));
    assert!(other.has_unique_solution());
}
