//! Tests for the relay range parser.

use smart_relay::{parse_range, RangeError};

#[test]
fn mixed_expression_is_sorted_and_deduped() {
    assert_eq!(parse_range("1-3,7,9-11"), Ok(vec![1, 2, 3, 7, 9, 10, 11]));
}

#[test]
fn overlapping_intervals_dedupe() {
    assert_eq!(parse_range("1-5,3-7"), Ok(vec![1, 2, 3, 4, 5, 6, 7]));
}

#[test]
fn repeated_ids_dedupe() {
    assert_eq!(parse_range("4,4,4"), Ok(vec![4]));
}

#[test]
fn unsorted_input_is_sorted() {
    assert_eq!(parse_range("18,1,9"), Ok(vec![1, 9, 18]));
}

#[test]
fn single_id() {
    assert_eq!(parse_range("18"), Ok(vec![18]));
}

#[test]
fn whole_bank() {
    let all: Vec<u8> = (1..=18).collect();
    assert_eq!(parse_range("1-18"), Ok(all));
}

#[test]
fn zero_is_out_of_domain() {
    assert_eq!(parse_range("0-3"), Err(RangeError::InvalidValue));
    assert_eq!(parse_range("0"), Err(RangeError::InvalidValue));
}

#[test]
fn ids_above_eighteen_are_out_of_domain() {
    assert_eq!(parse_range("19"), Err(RangeError::InvalidValue));
    assert_eq!(parse_range("1,200"), Err(RangeError::InvalidValue));
    assert_eq!(parse_range("17-20"), Err(RangeError::InvalidValue));
}

#[test]
fn non_numeric_input_is_malformed() {
    assert_eq!(parse_range("a,b"), Err(RangeError::InvalidRange));
    assert_eq!(parse_range("1,x"), Err(RangeError::InvalidRange));
}

#[test]
fn reversed_interval_is_malformed() {
    assert_eq!(parse_range("5-2"), Err(RangeError::InvalidRange));
}

#[test]
fn empty_and_fragmentary_input_is_malformed() {
    assert_eq!(parse_range(""), Err(RangeError::InvalidRange));
    assert_eq!(parse_range(","), Err(RangeError::InvalidRange));
    assert_eq!(parse_range("1,"), Err(RangeError::InvalidRange));
    assert_eq!(parse_range("3-"), Err(RangeError::InvalidRange));
    assert_eq!(parse_range("-3"), Err(RangeError::InvalidRange));
    assert_eq!(parse_range("1-2-3"), Err(RangeError::InvalidRange));
}

#[test]
fn values_too_large_for_a_byte_are_malformed() {
    assert_eq!(parse_range("300"), Err(RangeError::InvalidRange));
    assert_eq!(parse_range("1-99999"), Err(RangeError::InvalidRange));
}

#[test]
fn whitespace_is_not_part_of_the_grammar() {
    assert_eq!(parse_range("1, 2"), Err(RangeError::InvalidRange));
}
