use crossmath::cell::{blank_cell, blank_cells, cell_is_blank};
use crossmath::decimal::{decimal_string, parse_number};

#[test]
fn decimal_string_of_numbers() {
    assert_eq!(decimal_string(0), "0");
    assert_eq!(decimal_string(7), "7");
    assert_eq!(decimal_string(10), "10");
    assert_eq!(decimal_string(198), "198");
    assert_eq!(decimal_string(1_000_000), "1000000");
    assert_eq!(decimal_string(u32::MAX), "4294967295");
}

#[test]
fn parse_number_reads_digits_only() {
    assert_eq!(parse_number("0"), Some(0));
    assert_eq!(parse_number("42"), Some(42));
    assert_eq!(parse_number("007"), Some(7));
    assert_eq!(parse_number("4294967295"), Some(u32::MAX));
    assert_eq!(parse_number("4294967296"), None);
    assert_eq!(parse_number("99999999999999999999999999"), None);
    assert_eq!(parse_number(""), None);
    assert_eq!(parse_number(" "), None);
    assert_eq!(parse_number("+"), None);
    assert_eq!(parse_number("-"), None);
    assert_eq!(parse_number("="), None);
    assert_eq!(parse_number("+5"), None);
    assert_eq!(parse_number("5 "), None);
    assert_eq!(parse_number("1a"), None);
    assert_eq!(parse_number("٣"), None);
}

#[test]
fn parse_number_reads_back_what_was_written() {
    for n in (0..2000u32).chain([65_535, 65_536, 999_999_999, 1_000_000_000, u32::MAX - 1]) {
        assert_eq!(parse_number(&decimal_string(n)), Some(n));
        assert_eq!(decimal_string(n), n.to_string());
    }
}

#[test]
fn blank_cells_are_single_spaces() {
    assert_eq!(blank_cell(), " ");
    assert!(cell_is_blank(" "));
    assert!(!cell_is_blank(""));
    assert!(!cell_is_blank("  "));
    assert!(!cell_is_blank("7"));
    assert!(!cell_is_blank("="));
    let cells = blank_cells(6);
    assert_eq!(cells.len(), 6);
    assert!(cells.iter().all(|c| c == " "));
    assert!(blank_cells(0).is_empty());
}
