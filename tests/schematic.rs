use std::str::FromStr;

use advent::error::GenericError;
use advent::schematic::{sum_gear_ratios, sum_part_numbers, Number, Row, Symbol};

const EXAMPLE: [&str; 10] = [
    "467..114..",
    "...*......",
    "..35..633.",
    "......#...",
    "617*......",
    ".....+.58.",
    "..592.....",
    "......755.",
    "...$.*....",
    ".664.598..",
];

fn example_rows() -> Vec<Row> {
    EXAMPLE.iter().map(|l| Row::from_str(l).unwrap()).collect()
}

#[test]
fn test_parsing_single_line() {
    let mut test_row = Row::new();
    test_row.numbers.push(Number::new(58, 7, 8));
    test_row.symbols.push(Symbol::new('+', 5));
    assert_eq!(Row::from_str(".....+.58.").unwrap(), test_row);
}

#[test]
fn test_part_1_example() {
    assert_eq!(sum_part_numbers(&example_rows()), Ok(4361));
}

#[test]
fn test_part_2_example() {
    assert_eq!(sum_gear_ratios(&example_rows()), Ok(467835));
}

#[test]
fn number_adjacency_includes_diagonals() {
    let n = Number::new(35, 2, 3);
    assert!(n.is_index_adjacent(1));
    assert!(n.is_index_adjacent(4));
    assert!(!n.is_index_adjacent(0));
    assert!(!n.is_index_adjacent(5));
}

#[test]
fn row_queries() {
    let row = Row::from_str("617*......").unwrap();
    assert!(row.is_number_adjacent_to_symbol(&Number::new(617, 0, 2)));
    assert!(!row.is_number_adjacent_to_symbol(&Number::new(1, 6, 6)));
    let numbers = Row::from_str("..35..633.").unwrap();
    let mut out = vec![Number::new(1, 0, 0)];
    numbers.collect_numbers_symbol_is_adjacent_to(&Symbol::new('*', 3), &mut out);
    assert_eq!(out, vec![Number::new(1, 0, 0), Number::new(35, 2, 3)]);
}

#[test]
fn number_too_large_is_rejected() {
    assert_eq!(Row::from_str("..99999999999.."), Err(GenericError::InvalidInput));
    assert_eq!(Row::from_str("4294967295").unwrap().numbers, vec![Number::new(4294967295, 0, 9)]);
}

#[test]
fn part_sum_of_largest_numbers() {
    let mut rows = vec![];
    for _ in 0..5 {
        rows.push(Row::from_str("4294967295*").unwrap());
    }
    assert_eq!(sum_part_numbers(&rows), Ok(5 * 4294967295));
}
