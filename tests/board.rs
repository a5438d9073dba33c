use std::collections::HashSet;

use sudoku::board::{SudokuBoard, CONFLICT, UNSOLVED};
use sudoku::cell::{CellValue, SudokuCell};

const SHIFTED: &str = "123456789\n\
                       456789123\n\
                       789123456\n\
                       234567891\n\
                       567891234\n\
                       891234567\n\
                       345678912\n\
                       678912345\n\
                       912345678";

const SHIFTED_BOXED: &str = "┌───────┬───────┬───────┐\n\
    │ 1 2 3 │ 4 5 6 │ 7 8 9 │\n\
    │ 4 5 6 │ 7 8 9 │ 1 2 3 │\n\
    │ 7 8 9 │ 1 2 3 │ 4 5 6 │\n\
    ├───────┼───────┼───────┤\n\
    │ 2 3 4 │ 5 6 7 │ 8 9 1 │\n\
    │ 5 6 7 │ 8 9 1 │ 2 3 4 │\n\
    │ 8 9 1 │ 2 3 4 │ 5 6 7 │\n\
    ├───────┼───────┼───────┤\n\
    │ 3 4 5 │ 6 7 8 │ 9 1 2 │\n\
    │ 6 7 8 │ 9 1 2 │ 3 4 5 │\n\
    │ 9 1 2 │ 3 4 5 │ 6 7 8 │\n\
    └───────┴───────┴───────┘\n";

const PUZZLE: &str = "53__7____\n\
                      6__195___\n\
                      _98____6_\n\
                      8___6___3\n\
                      4__8_3__1\n\
                      7___2___6\n\
                      _6____28_\n\
                      ___419__5\n\
                      ____8__79";

const PUZZLE_SOLVED: &str = "534678912\n\
                             672195348\n\
                             198342567\n\
                             859761423\n\
                             426853791\n\
                             713924856\n\
                             961537284\n\
                             287419635\n\
                             345286179\n";

fn all_values(board: &SudokuBoard) -> Vec<CellValue> {
    let mut values = Vec::new();
    for r in 0..9 {
        for c in 0..9 {
            values.push(board.value(r, c));
        }
    }
    values
}

#[test]
fn board_test_from() {
    let board = SudokuBoard::from(SHIFTED);
    assert_eq!(board.value(0, 0), SudokuCell::One);
    assert_eq!(board.value(0, 1), SudokuCell::Two);
    assert_eq!(board.value(0, 2), SudokuCell::Three);
    assert_eq!(board.value(8, 8), SudokuCell::Eight);
}

#[test]
fn test_from_bad_input() {
    let input = "qwerty\n\n\n\tkj";
    let board = SudokuBoard::from(input);
    assert_eq!(board.value(0, 0), SudokuCell::Empty);
}

#[test]
fn non_digit_input_gives_an_all_empty_board() {
    let board = SudokuBoard::from("qwerty\n\n\n\tkj");
    assert!(all_values(&board).iter().all(|v| *v == CellValue::Empty));
    let board = SudokuBoard::from("");
    assert!(all_values(&board).iter().all(|v| *v == CellValue::Empty));
    assert_eq!(board, SudokuBoard::default());
}

#[test]
fn board_test_display() {
    let board = SudokuBoard::from(SHIFTED);
    assert_eq!(board.to_string(), SHIFTED_BOXED);
}

#[test]
fn test_exclusive_possible_values() {
    let input = "_________\n\
                 ______1__\n\
                 ___1_____\n\
                 ________1\n\
                 _____1___\n\
                 __1______\n\
                 _______1_\n\
                 ____1____\n\
                 _1_______";
    let board = SudokuBoard::from(input);
    let possibilities: HashSet<SudokuCell> =
        board.possible_values(0, 0).unwrap().into_iter().collect();
    let expected: HashSet<SudokuCell> = vec![SudokuCell::One].into_iter().collect();
    assert_eq!(possibilities, expected);
}

#[test]
fn test_rcs_possible_values() {
    let input = "__3______\n\
                 4_5___1__\n\
                 7________\n\
                 _________\n\
                 _________\n\
                 _________\n\
                 _2_______\n\
                 _________\n\
                 9_______8";
    let board = SudokuBoard::from(input);
    let possibilities: HashSet<SudokuCell> =
        board.possible_values(0, 0).unwrap().into_iter().collect();
    let expected: HashSet<SudokuCell> = vec![
        SudokuCell::One,
        SudokuCell::Two,
        SudokuCell::Six,
        SudokuCell::Eight,
    ]
    .into_iter()
    .collect();
    assert_eq!(possibilities, expected);
}

#[test]
fn possible_values_come_in_ascending_order() {
    let board = SudokuBoard::from("__3______\n4_5___1__\n7________\n\n\n\n_2_______\n\n9_______8");
    assert_eq!(
        board.possible_values(0, 0),
        Some(vec![CellValue::One, CellValue::Two, CellValue::Six, CellValue::Eight])
    );
    let empty = SudokuBoard::default();
    assert_eq!(
        empty.possible_values(4, 4),
        Some((1..=9u8).map(CellValue::from).collect::<Vec<_>>())
    );
}

#[test]
fn two_forced_values_are_a_conflict() {
    // Both 1 and 2 are ruled out for every peer of the top-left square.
    let input = "_________\n\
                 ____1__2_\n\
                 ____2__1_\n\
                 _________\n\
                 _12______\n\
                 _________\n\
                 _________\n\
                 _21______\n\
                 _________";
    let mut board = SudokuBoard::from(input);
    assert_eq!(board.possible_values(0, 0), None);
    let before = board.clone();
    assert_eq!(board.solve(), Err((1, CONFLICT)));
    assert_eq!(board, before);
}

#[test]
fn solved_board_solves_at_once_and_stays() {
    let mut board = SudokuBoard::from(SHIFTED);
    let before = board.clone();
    assert_eq!(board.solve(), Ok(0));
    assert_eq!(board, before);
    assert_eq!(board.to_string(), SHIFTED_BOXED);
}

#[test]
fn solve_fills_an_easy_puzzle() {
    let mut board = SudokuBoard::from(PUZZLE);
    let result = board.solve();
    assert!(matches!(result, Ok(n) if n >= 51));
    assert!(board.is_solved());
    assert_eq!(board.puzzle_text(), PUZZLE_SOLVED);
}

#[test]
fn solve_with_steps_reports_each_fill() {
    let start = SudokuBoard::from(PUZZLE);
    let mut board = start.clone();
    let (result, steps) = board.solve_with_steps();
    assert!(result.is_ok());
    assert_eq!(steps.len(), 51);
    let mut replay = start.clone();
    for (r, c, v) in steps {
        assert_eq!(replay.value(r, c), CellValue::Empty);
        assert_eq!(replay.possible_values(r, c), Some(vec![v]));
        replay.set_value(r, c, v);
    }
    assert_eq!(replay, board);
}

#[test]
fn empty_board_stalls_after_one_pass() {
    let mut board = SudokuBoard::default();
    assert_eq!(board.solve(), Err((81, UNSOLVED)));
    assert_eq!(board, SudokuBoard::default());
}

#[test]
fn solving_twice_changes_nothing() {
    let mut stalled = SudokuBoard::default();
    let first = stalled.solve();
    let after_first = stalled.clone();
    let second = stalled.solve();
    assert_eq!(stalled, after_first);
    assert!(first.is_err() && second.is_err());
    assert_eq!(second, Err((81, UNSOLVED)));

    let mut board = SudokuBoard::from(PUZZLE);
    assert!(board.solve().is_ok());
    let after_first = board.clone();
    assert_eq!(board.solve(), Ok(0));
    assert_eq!(board, after_first);
}

#[test]
fn puzzle_text_reads_back_as_the_same_board() {
    let board = SudokuBoard::from(PUZZLE);
    let text = board.puzzle_text();
    assert_eq!(
        text,
        "53__7____\n6__195___\n_98____6_\n8___6___3\n4__8_3__1\n7___2___6\n_6____28_\n___419__5\n____8__79\n"
    );
    assert_eq!(SudokuBoard::from(text.as_str()), board);
    let empty = SudokuBoard::default();
    assert_eq!(SudokuBoard::from(empty.puzzle_text().as_str()), empty);
}

#[test]
fn parse_reads_nine_lines_of_nine_characters() {
    let board = SudokuBoard::from("1234567891\n0_x\r\n\n\n\n\n\n\n\n987654321");
    assert_eq!(board.value(0, 8), CellValue::Nine);
    assert_eq!(board.value(1, 0), CellValue::Empty);
    assert_eq!(board.value(1, 1), CellValue::Empty);
    assert_eq!(board.value(1, 2), CellValue::Empty);
    // The tenth line is not read.
    assert!(all_values(&board)[9..].iter().all(|v| *v == CellValue::Empty));
    let board = SudokuBoard::parse("\r\n_5");
    assert_eq!(board.value(1, 1), CellValue::Five);
    assert!(!board.verbose);
}

#[test]
fn set_value_writes_one_square() {
    let mut board = SudokuBoard::default();
    board.set_value(3, 7, CellValue::Four);
    assert_eq!(board.value(3, 7), CellValue::Four);
    assert_eq!(board.value(7, 3), CellValue::Empty);
    assert!(!board.is_solved());
    assert!(SudokuBoard::from(SHIFTED).is_solved());
}
