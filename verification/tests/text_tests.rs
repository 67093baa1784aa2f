use qqwing::difficulty::Difficulty;
use qqwing::logitem::LogItem;
use qqwing::logtype::LogType;
use qqwing::text::{difficulty_str, digit_str, log_type_str, number_text, read_puzzle};
use qqwing::{PrintStyle, QQWing};

const MONSTER: &str =
    "1.......2.9.4...5...6...7...5.9.3.......7.......85..4.7.....6...3...9.8...2.....1";

const DIAGONAL_BLANK: &str =
    ".743859622.346715858.192734451.238769286.431536785.249719548.236352194.784273659.";

fn read(text: &str) -> Vec<u8> {
    text.chars().map(|c| c.to_digit(10).map(|d| d as u8).unwrap_or(0)).collect()
}

fn board_with(puzzle: &str, style: PrintStyle) -> QQWing {
    let mut board = QQWing::new();
    board.set_print_style(style);
    assert!(board.set_puzzle(read(puzzle)));
    board
}

#[test]
fn numbers_are_written_in_decimal() {
    assert_eq!(number_text(0), "0");
    assert_eq!(number_text(7), "7");
    assert_eq!(number_text(9), "9");
    assert_eq!(number_text(10), "10");
    assert_eq!(number_text(81), "81");
    assert_eq!(number_text(100), "100");
    assert_eq!(number_text(255), "255");
    assert_eq!(number_text(4294967295), "4294967295");
    for n in 0..2000usize {
        assert_eq!(number_text(n), n.to_string());
    }
    assert_eq!(number_text(usize::MAX), usize::MAX.to_string());
    for d in 0..10usize {
        assert_eq!(digit_str(d), d.to_string());
    }
}

#[test]
fn names_are_those_of_the_variants() {
    let kinds = [
        LogType::Given,
        LogType::Single,
        LogType::HiddenSingleRow,
        LogType::HiddenSingleColumn,
        LogType::HiddenSingleSection,
        LogType::Guess,
        LogType::Rollback,
        LogType::NakedPairRow,
        LogType::NakedPairColumn,
        LogType::NakedPairSection,
        LogType::PointingPairTripleRow,
        LogType::PointingPairTripleColumn,
        LogType::RowBox,
        LogType::ColumnBox,
        LogType::HiddenPairRow,
        LogType::HiddenPairColumn,
        LogType::HiddenPairSection,
    ];
    for kind in kinds {
        assert_eq!(log_type_str(kind), format!("{:?}", kind));
    }
    let difficulties = [
        Difficulty::UNKNOWN,
        Difficulty::SIMPLE,
        Difficulty::EASY,
        Difficulty::MEDIUM,
        Difficulty::EXPERT,
    ];
    for difficulty in difficulties {
        assert_eq!(difficulty_str(difficulty), format!("{:?}", difficulty));
    }
}

#[test]
fn log_item_as_text() {
    assert_eq!(
        LogItem::new(1, LogType::Given, 5, 0).to_text(),
        "Round: 1 - Given (Row: 1 - Column: 1 - Value: 5)"
    );
    assert_eq!(
        LogItem::new(12, LogType::HiddenSingleSection, 9, 80).to_text(),
        "Round: 12 - HiddenSingleSection (Row: 9 - Column: 9 - Value: 9)"
    );
    assert_eq!(
        LogItem::new(2, LogType::NakedPairRow, 0, 17).to_text(),
        "Round: 2 - NakedPairRow (Row: 2 - Column: 9 - Value: 0)"
    );
    assert_eq!(
        LogItem::new(3, LogType::Rollback, 4294967295, 4294967295).to_text(),
        "Round: 3 - Rollback (Row: 255 - Column: 255 - Value: 4294967295)"
    );
}

#[test]
fn puzzle_in_readable_style() {
    let board = board_with(MONSTER, PrintStyle::READABLE);
    let expected = " 1 . . | . . . | . . 2\n . 9 . | 4 . . | . 5 .\n . . 6 | . . . | 7 . .\n\
                    -------|-------|-------\n . 5 . | 9 . 3 | . . .\n . . . | . 7 . | . . .\n . . . | 8 5 . | . 4 .\n\
                    -------|-------|-------\n 7 . . | . . . | 6 . .\n . 3 . | . . 9 | . 8 .\n . . 2 | . . . | . . 1\n\n";
    assert_eq!(board.get_puzzle_string(), expected);
    assert_eq!(board.get_solution_string(), expected);
}

#[test]
fn puzzle_in_compact_style() {
    let board = board_with(MONSTER, PrintStyle::COMPACT);
    let expected = "1.......2\n.9.4...5.\n..6...7..\n.5.9.3...\n....7....\n...85..4.\n7.....6..\n.3...9.8.\n..2.....1\n\n";
    assert_eq!(board.get_puzzle_string(), expected);
}

#[test]
fn puzzle_on_one_line() {
    let board = board_with(MONSTER, PrintStyle::ONELINE);
    assert_eq!(board.get_puzzle_string(), format!("{}\n", MONSTER));
    let board = board_with(MONSTER, PrintStyle::CSV);
    assert_eq!(board.get_puzzle_string(), format!("{},", MONSTER));
}

#[test]
fn any_grid_can_be_written() {
    let mut board = QQWing::new();
    board.set_print_style(PrintStyle::ONELINE);
    let mut grid = [0u8; 81];
    grid[0] = 10;
    grid[1] = 255;
    grid[80] = 3;
    let text = board.puzzle_to_string(grid);
    assert_eq!(text, format!("10255{}3\n", ".".repeat(78)));
}

#[test]
fn solution_is_written_like_the_puzzle() {
    let mut board = board_with(DIAGONAL_BLANK, PrintStyle::ONELINE);
    assert!(board.solve());
    assert_eq!(
        board.get_solution_string(),
        "174385962293467158586192734451923876928674315367851249719548623635219487842736591\n"
    );
    assert_eq!(board.get_puzzle_string(), format!("{}\n", DIAGONAL_BLANK));
}

#[test]
fn history_that_was_not_recorded() {
    let mut board = QQWing::new();
    assert_eq!(board.history_to_string(Vec::new()), "History was not recorded.\n\n");
    assert_eq!(board.get_solve_history_string(), "History was not recorded.\n\n");
    board.set_print_style(PrintStyle::CSV);
    assert_eq!(board.history_to_string(Vec::new()), "History was not recorded. -- ,");
    let items = vec![LogItem::new(1, LogType::Given, 5, 0)];
    assert_eq!(
        board.history_to_string(items),
        "History was not recorded. -- 1. Round: 1 - Given (Row: 1 - Column: 1 - Value: 5) -- ,"
    );
}

#[test]
fn history_as_text() {
    let mut puzzle = vec![0u8; 81];
    puzzle[2] = 4;
    puzzle[40] = 9;
    let mut board = QQWing::new();
    board.set_record_history(true);
    assert!(board.set_puzzle(puzzle));
    assert_eq!(
        board.get_solve_history_string(),
        "1. Round: 1 - Given (Row: 1 - Column: 3 - Value: 4)\n\
         2. Round: 1 - Given (Row: 5 - Column: 5 - Value: 9)\n\n"
    );
    board.set_print_style(PrintStyle::CSV);
    assert_eq!(
        board.get_solve_history_string(),
        "1. Round: 1 - Given (Row: 1 - Column: 3 - Value: 4) -- \
         2. Round: 1 - Given (Row: 5 - Column: 5 - Value: 9) -- ,"
    );
    assert_eq!(
        board.get_solve_instructions_string(),
        "No solve instructions - Puzzle is not possible to solve."
    );
}

#[test]
fn history_numbers_its_items() {
    let mut board = QQWing::new();
    board.set_record_history(true);
    let mut items = Vec::new();
    for i in 0..12 {
        items.push(LogItem::new(2, LogType::Single, 1, i));
    }
    let text = board.history_to_string(items);
    assert!(text.starts_with("1. Round: 2 - Single (Row: 1 - Column: 1 - Value: 1)\n2. "));
    assert!(text.contains("\n10. Round: 2 - Single (Row: 2 - Column: 1 - Value: 1)\n11. "));
    assert!(text.ends_with("12. Round: 2 - Single (Row: 2 - Column: 3 - Value: 1)\n\n"));
}

#[test]
fn solve_instructions_as_text() {
    let mut board = board_with(DIAGONAL_BLANK, PrintStyle::ONELINE);
    board.set_record_history(true);
    assert!(board.solve());
    let text = board.get_solve_instructions_string();
    assert!(text.starts_with("1. Round: 1 - Given (Row: 1 - Column: 2 - Value: 7)\n"));
    assert!(text.contains("\n72. Round: 1 - Given (Row: 9 - Column: 8 - Value: 9)\n"));
    assert!(text.contains("\n73. Round: 2 - Single (Row: 1 - Column: 1 - Value: 1)\n"));
    assert!(text.ends_with("81. Round: 2 - Single (Row: 9 - Column: 9 - Value: 1)\n\n"));
    assert_eq!(text, board.get_solve_history_string());
}

#[test]
fn statistics_as_text() {
    let mut board = board_with(DIAGONAL_BLANK, PrintStyle::READABLE);
    board.set_record_history(true);
    assert!(board.solve());
    assert_eq!(
        board.get_stats(),
        "Difficulty: SIMPLE\n\
         Number of Givens: 72\n\
         Number of Singles: 9\n\
         Number of Hidden Singles: 0\n\
         Number of Naked Pairs: 0\n\
         Number of Hidden Pairs: 0\n\
         Number of Pointing Pairs/Triples: 0\n\
         Number of Box/Line Intersections: 0\n\
         Number of Guesses: 0\n\
         Number of Backtracks: 0\n"
    );
    board.set_print_style(PrintStyle::CSV);
    assert_eq!(board.get_stats(), "SIMPLE,72,9,0,0,0,0,0,0,0,");
}

#[test]
fn statistics_of_an_untouched_board() {
    let board = QQWing::new();
    assert!(board.get_stats().starts_with("Difficulty: UNKNOWN\nNumber of Givens: 0\n"));
}

#[test]
fn puzzle_is_read_digit_by_digit() {
    assert_eq!(read_puzzle(""), Vec::<u8>::new());
    assert_eq!(read_puzzle("0123456789"), vec![0, 1, 2, 3, 4, 5, 6, 7, 8, 9]);
    assert_eq!(read_puzzle("1.a 9"), vec![1, 0, 0, 0, 9]);
    assert_eq!(read_puzzle("4\u{0663}\u{00e9}7"), vec![4, 0, 0, 7]);
    let values = read_puzzle(MONSTER);
    assert_eq!(values.len(), 81);
    assert_eq!(values, read(MONSTER));
    let mut board = QQWing::new();
    assert!(board.set_puzzle(values));
    assert_eq!(board.get_given_count(), 21);
}

#[test]
fn statistics_of_the_grid_with_one_blank() {
    let one_blank =
        ".74385962293467158586192734451923876928674315367851249719548623635219487842736591";
    let mut board = QQWing::new();
    board.set_record_history(true);
    board.set_print_style(PrintStyle::CSV);
    assert!(board.set_puzzle(read(one_blank)));
    assert!(board.solve());
    assert_eq!(board.get_stats(), "SIMPLE,80,1,0,0,0,0,0,0,0,");
}
