use std::collections::HashSet;

use sudoku::cell::{value_set, Cell, CellValue, SudokuCell};

#[test]
fn cell_test_from() {
    assert_eq!(SudokuCell::from(0), SudokuCell::Empty);
    assert_eq!(SudokuCell::from(1), SudokuCell::One);
    assert_eq!(SudokuCell::from(2), SudokuCell::Two);
    assert_eq!(SudokuCell::from(3), SudokuCell::Three);
    assert_eq!(SudokuCell::from(4), SudokuCell::Four);
    assert_eq!(SudokuCell::from(5), SudokuCell::Five);
    assert_eq!(SudokuCell::from(6), SudokuCell::Six);
    assert_eq!(SudokuCell::from(7), SudokuCell::Seven);
    assert_eq!(SudokuCell::from(8), SudokuCell::Eight);
    assert_eq!(SudokuCell::from(9), SudokuCell::Nine);
}

#[test]
fn cell_test_display() {
    assert_eq!(SudokuCell::Empty.to_string(), "_");
    assert_eq!(SudokuCell::One.to_string(), "1");
    assert_eq!(SudokuCell::Two.to_string(), "2");
    assert_eq!(SudokuCell::Three.to_string(), "3");
    assert_eq!(SudokuCell::Four.to_string(), "4");
    assert_eq!(SudokuCell::Five.to_string(), "5");
    assert_eq!(SudokuCell::Six.to_string(), "6");
    assert_eq!(SudokuCell::Seven.to_string(), "7");
    assert_eq!(SudokuCell::Eight.to_string(), "8");
    assert_eq!(SudokuCell::Nine.to_string(), "9");
}

#[test]
fn test_from_iter() {
    let values = vec![
        SudokuCell::Empty,
        SudokuCell::One,
        SudokuCell::Two,
        SudokuCell::Empty,
        SudokuCell::Four,
        SudokuCell::Five,
        SudokuCell::Empty,
        SudokuCell::Seven,
        SudokuCell::Eight,
    ];
    let set: HashSet<SudokuCell> = value_set(&values).into_iter().collect();
    let expected: HashSet<SudokuCell> = vec![
        SudokuCell::One,
        SudokuCell::Two,
        SudokuCell::Four,
        SudokuCell::Five,
        SudokuCell::Seven,
        SudokuCell::Eight,
    ]
    .into_iter()
    .collect();
    assert_eq!(set, expected);
}

#[test]
fn from_maps_out_of_range_numbers_to_empty() {
    for n in 10..=255u8 {
        assert_eq!(CellValue::from(n), CellValue::Empty);
    }
    for n in 1..=9u8 {
        assert_eq!(CellValue::from(n).to_digit(), n);
    }
    assert_eq!(CellValue::Empty.to_digit(), 0);
}

#[test]
fn value_set_is_ascending_without_duplicates() {
    let values = vec![
        CellValue::Nine,
        CellValue::Three,
        CellValue::Empty,
        CellValue::Nine,
        CellValue::One,
        CellValue::Three,
    ];
    assert_eq!(
        value_set(&values),
        vec![CellValue::One, CellValue::Three, CellValue::Nine]
    );
    assert_eq!(value_set(&[]), Vec::<CellValue>::new());
    assert_eq!(value_set(&[CellValue::Empty, CellValue::Empty]), Vec::<CellValue>::new());
}

#[test]
fn symbol_and_emptiness() {
    assert_eq!(CellValue::Empty.symbol(), "_");
    assert_eq!(CellValue::Seven.symbol(), "7");
    assert!(CellValue::Empty.is_empty());
    assert!(!CellValue::Five.is_empty());
    assert_eq!(Cell::default().value, CellValue::Empty);
    assert_eq!(CellValue::default(), CellValue::Empty);
}
