use qqwing::QQWing;

const MONSTER: &str =
    "1.......2.9.4...5...6...7...5.9.3.......7.......85..4.7.....6...3...9.8...2.....1";

const MONSTER_SOLVED: &str =
    "174385962293467158586192734451923876928674315367851249719548623635219487842736591";

const TWO_SOLUTIONS: &str =
    "17..8596229..67158586192734451923876928674315367851249719548623635219487842736591";

fn read(text: &str) -> Vec<u8> {
    text.chars().map(|c| c.to_digit(10).map(|d| d as u8).unwrap_or(0)).collect()
}

fn impossible_puzzle() -> Vec<u8> {
    let mut puzzle = vec![0u8; 81];
    for column in 0..8 {
        puzzle[column] = column as u8 + 1;
    }
    puzzle[17] = 9;
    puzzle
}

fn board_with(puzzle: Vec<u8>) -> QQWing {
    let mut board = QQWing::new();
    assert!(board.set_puzzle(puzzle));
    board
}

#[test]
fn empty_puzzle_has_multiple_solutions() {
    let mut board = QQWing::new();
    assert!(board.set_puzzle(vec![0u8; 81]));
    assert_eq!(board.count_solutions_limited(), 2);
    assert!(board.has_multiple_solutions());
    assert!(!board.has_unique_solution());
    assert!(!board.has_no_solution());
    assert_eq!(board.count_solutions_limited(), 2);
    assert_eq!(board.count_solutions(true), 2);
}

#[test]
fn empty_puzzle_has_multiple_solutions_whatever_the_order() {
    let mut board = QQWing::new();
    for _ in 0..20 {
        board.shuffle_random_arrays();
        assert_eq!(board.count_solutions_limited(), 2);
        assert!(board.has_multiple_solutions());
    }
}

#[test]
fn known_puzzle_has_one_solution() {
    let mut board = board_with(read(MONSTER));
    assert_eq!(board.count_total_solutions(), 1);
    assert_eq!(board.count_solutions_limited(), 1);
    assert!(board.has_unique_solution());
    assert!(!board.has_multiple_solutions());
    assert!(!board.has_no_solution());
}

#[test]
fn complete_grid_has_one_solution() {
    let mut board = board_with(read(MONSTER_SOLVED));
    assert_eq!(board.count_total_solutions(), 1);
    assert!(board.has_unique_solution());
}

#[test]
fn two_solutions_are_counted() {
    let mut board = board_with(read(TWO_SOLUTIONS));
    assert_eq!(board.count_total_solutions(), 2);
    assert_eq!(board.count_solutions_limited(), 2);
    assert!(board.has_multiple_solutions());
    assert!(!board.has_unique_solution());
    assert!(!board.has_no_solution());
}

#[test]
fn more_solutions_are_counted_in_full() {
    let mut puzzle = read(MONSTER_SOLVED);
    for cell in 0..18 {
        puzzle[cell] = 0;
    }
    let mut expected = 0;
    let mut grid = puzzle.clone();
    count_by_hand(&mut grid, &mut expected);
    assert_eq!(expected, 4);
    let mut board = board_with(puzzle);
    assert_eq!(board.count_total_solutions(), expected);
    assert_eq!(board.count_solutions_limited(), 2);
    assert!(board.has_multiple_solutions());
}

fn fits(grid: &Vec<u8>, cell: usize, value: u8) -> bool {
    let row = cell / 9;
    let column = cell % 9;
    for k in 0..9 {
        if grid[row * 9 + k] == value || grid[k * 9 + column] == value {
            return false;
        }
        let other = (row / 3 * 3 + k / 3) * 9 + column / 3 * 3 + k % 3;
        if grid[other] == value {
            return false;
        }
    }
    true
}

fn count_by_hand(grid: &mut Vec<u8>, count: &mut u32) {
    match grid.iter().position(|&v| v == 0) {
        None => *count += 1,
        Some(cell) => {
            for value in 1..=9 {
                if fits(grid, cell, value) {
                    grid[cell] = value;
                    count_by_hand(grid, count);
                    grid[cell] = 0;
                }
            }
        }
    }
}

#[test]
fn impossible_puzzle_has_no_solution() {
    let mut board = board_with(impossible_puzzle());
    assert_eq!(board.count_total_solutions(), 0);
    assert_eq!(board.count_solutions_limited(), 0);
    assert!(board.has_no_solution());
    assert!(!board.has_unique_solution());
    assert!(!board.has_multiple_solutions());
}

#[test]
fn unique_and_total_count_agree() {
    let mut dead = read(MONSTER);
    dead[1] = 4;
    let puzzles =
        vec![read(MONSTER), read(MONSTER_SOLVED), read(TWO_SOLUTIONS), impossible_puzzle(), dead];
    for puzzle in puzzles {
        let mut board = board_with(puzzle);
        for _ in 0..3 {
            board.shuffle_random_arrays();
            let unique = board.has_unique_solution();
            let total = board.count_total_solutions();
            assert_eq!(unique, total == 1);
            assert_eq!(board.has_no_solution(), total == 0);
            assert_eq!(board.has_multiple_solutions(), total > 1);
            assert_eq!(board.count_solutions_limited(), total.min(2));
            assert_eq!(board.count_total_solutions(), total);
        }
    }
}

#[test]
fn counting_leaves_the_board_with_its_givens() {
    let mut board = board_with(read(MONSTER));
    let solution = board.get_solution();
    let rounds = board.get_solution_round();
    let table = board.get_possibilities();
    assert_eq!(board.count_total_solutions(), 1);
    assert_eq!(board.get_puzzle(), read(MONSTER));
    assert_eq!(board.get_solution(), solution);
    assert_eq!(board.get_solution_round(), rounds);
    assert_eq!(board.get_possibilities(), table);
    assert!(board.get_solve_history().is_empty());
}

#[test]
fn counting_discards_a_solution_and_keeps_the_settings() {
    let mut board = QQWing::new();
    board.set_record_history(true);
    board.set_log_history(true);
    assert!(board.set_puzzle(read(MONSTER)));
    assert!(board.solve());
    assert!(board.has_unique_solution());
    assert!(!board.is_solved());
    assert_eq!(board.get_solution(), read(MONSTER));
    assert!(board.get_solve_history().is_empty());
    assert!(board.solve());
    assert!(!board.get_solve_history().is_empty());
}

#[test]
fn counting_a_round_rolls_it_back() {
    let mut board = board_with(read(TWO_SOLUTIONS));
    let solution = board.get_solution();
    let table = board.get_possibilities();
    assert_eq!(board.count_solutions_round(2, false), 2);
    assert_eq!(board.get_solution(), solution);
    assert_eq!(board.get_possibilities(), table);
    assert_eq!(board.count_solutions_round(2, true), 2);
    assert_eq!(board.get_solution(), solution);
    assert_eq!(board.get_possibilities(), table);
}
