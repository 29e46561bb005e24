//! Patterns and errors as a caller sees them.
use pe_sigscan::{ParseErrorKind, ParsePatternError, Pattern};

// -- error display ---------------------------------------------------

#[test]
fn error_display_empty() {
    let e = ParsePatternError {
        token_index: 0,
        kind: ParseErrorKind::Empty,
    };
    let s = e.message();
    assert!(s.contains("no tokens"), "got: {s}");
}

#[test]
fn error_display_invalid_length() {
    let e = ParsePatternError {
        token_index: 3,
        kind: ParseErrorKind::InvalidLength,
    };
    let s = e.message();
    assert!(s.contains("token #3"), "got: {s}");
    assert!(s.contains("two hex digits"), "got: {s}");
}

#[test]
fn error_display_invalid_hex_digit() {
    let e = ParsePatternError {
        token_index: 1,
        kind: ParseErrorKind::InvalidHexDigit,
    };
    let s = e.message();
    assert!(s.contains("token #1"), "got: {s}");
    assert!(s.contains("non-hex"), "got: {s}");
}

#[test]
fn error_is_copy_and_clone() {
    let e = ParsePatternError {
        token_index: 0,
        kind: ParseErrorKind::Empty,
    };
    let copied = e;
    let cloned = e.clone();
    assert_eq!(copied, e);
    assert_eq!(cloned, e);
}

#[test]
fn error_kind_equality() {
    assert_eq!(ParseErrorKind::Empty, ParseErrorKind::Empty);
    assert_eq!(ParseErrorKind::InvalidLength, ParseErrorKind::InvalidLength);
    assert_eq!(
        ParseErrorKind::InvalidHexDigit,
        ParseErrorKind::InvalidHexDigit
    );
    assert_ne!(ParseErrorKind::Empty, ParseErrorKind::InvalidLength);
    assert_ne!(ParseErrorKind::Empty, ParseErrorKind::InvalidHexDigit);
    assert_ne!(
        ParseErrorKind::InvalidLength,
        ParseErrorKind::InvalidHexDigit
    );
}

// -- Pattern API smoke -----------------------------------------------

#[test]
fn pattern_clone_and_eq() {
    let p1 = Pattern::from_ida("48 8B ?? 89").unwrap();
    let p2 = p1.clone();
    assert_eq!(p1, p2);
}

#[test]
fn pattern_debug() {
    let p = Pattern::from_ida("48").unwrap();
    let s = format!("{p:?}");
    assert!(s.contains("Pattern"), "got: {s}");
}

#[test]
fn pattern_as_slice_round_trip() {
    let p = Pattern::from_ida("48 ??").unwrap();
    let s = p.as_slice();
    assert_eq!(s.len(), 2);
    assert_eq!(s[0], Some(0x48));
    assert_eq!(s[1], None);
}
