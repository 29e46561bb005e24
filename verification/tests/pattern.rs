//! Pattern parsing.
use pe_sigscan::{ParseErrorKind, Pattern};

#[test]
fn parse_basic() {
    let p = Pattern::from_ida("48 8B 05").unwrap();
    assert_eq!(p.as_slice(), &[Some(0x48), Some(0x8B), Some(0x05)]);
}

#[test]
fn parse_with_wildcards() {
    let p = Pattern::from_ida("48 ?? 05 ??").unwrap();
    assert_eq!(p.as_slice(), &[Some(0x48), None, Some(0x05), None]);
}

#[test]
fn parse_single_question_wildcard() {
    let p = Pattern::from_ida("48 ? 05").unwrap();
    assert_eq!(p.as_slice(), &[Some(0x48), None, Some(0x05)]);
}

#[test]
fn parse_case_insensitive() {
    let upper = Pattern::from_ida("AB CD EF").unwrap();
    let lower = Pattern::from_ida("ab cd ef").unwrap();
    let mixed = Pattern::from_ida("aB Cd eF").unwrap();
    assert_eq!(upper.as_slice(), lower.as_slice());
    assert_eq!(lower.as_slice(), mixed.as_slice());
}

#[test]
fn parse_extra_whitespace_ok() {
    let p = Pattern::from_ida("  48\t8B\n??\r\n05  ").unwrap();
    assert_eq!(p.as_slice(), &[Some(0x48), Some(0x8B), None, Some(0x05)]);
}

#[test]
fn parse_empty_errors() {
    let err = Pattern::from_ida("").unwrap_err();
    assert_eq!(err.kind, ParseErrorKind::Empty);
}

#[test]
fn parse_invalid_hex_errors() {
    // Both nibbles invalid — exercises the high-nibble `?` propagation
    // in `parse_hex_byte` (`hex_digit(bytes[0])` returns None first).
    let err = Pattern::from_ida("48 ZZ 05").unwrap_err();
    assert_eq!(err.token_index, 1);
    assert_eq!(err.kind, ParseErrorKind::InvalidHexDigit);
}

#[test]
fn parse_invalid_low_nibble_only() {
    // High nibble VALID (`1`), low nibble INVALID (`Z`). Exercises the
    // low-nibble `?` propagation in `parse_hex_byte` — the high-nibble
    // path succeeded, then `hex_digit(bytes[1])` returns None and the
    // error propagates. Without this test, the low-nibble `?` line is
    // unreachable by any other input shape.
    let err = Pattern::from_ida("48 1Z 05").unwrap_err();
    assert_eq!(err.token_index, 1);
    assert_eq!(err.kind, ParseErrorKind::InvalidHexDigit);
}

#[test]
fn parse_invalid_length_errors() {
    let err = Pattern::from_ida("48 8 05").unwrap_err();
    assert_eq!(err.token_index, 1);
    assert_eq!(err.kind, ParseErrorKind::InvalidLength);
}

#[test]
fn pattern_new_from_vec() {
    let p = Pattern::new(vec![Some(0x48), None, Some(0x89)]);
    assert_eq!(p.len(), 3);
    assert_eq!(p.as_slice()[1], None);
}

#[test]
fn pattern_is_empty() {
    let p = Pattern::new(vec![]);
    assert!(p.is_empty());
    assert_eq!(p.len(), 0);
}
