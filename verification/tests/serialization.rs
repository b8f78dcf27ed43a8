//! Decimal rendering and parsing, substring search, and string equality.

use remote_devtools::serialization::format_i64;
use remote_devtools::serialization::format_u64;
use remote_devtools::serialization::parse_u64;
use remote_devtools::serialization::str_contains;
use remote_devtools::serialization::str_eq;

#[test]
fn formats_u64_exactly() {
    assert_eq!(format_u64(0), "0");
    assert_eq!(format_u64(7), "7");
    assert_eq!(format_u64(10), "10");
    assert_eq!(format_u64(250), "250");
    assert_eq!(format_u64(u64::MAX), "18446744073709551615");
}

#[test]
fn formats_i64_exactly() {
    assert_eq!(format_i64(0), "0");
    assert_eq!(format_i64(-1), "-1");
    assert_eq!(format_i64(-123), "-123");
    assert_eq!(format_i64(i64::MAX), "9223372036854775807");
    assert_eq!(format_i64(i64::MIN), "-9223372036854775808");
}

#[test]
fn parse_round_trips_formatting() {
    for n in [0u64, 1, 9, 10, 99, 100, 12345678901234567, u64::MAX] {
        assert_eq!(parse_u64(&format_u64(n)), Some(n));
    }
}

#[test]
fn parse_rejects_what_is_not_a_number() {
    assert_eq!(parse_u64(""), None);
    assert_eq!(parse_u64("12a"), None);
    assert_eq!(parse_u64("-5"), None);
    assert_eq!(parse_u64(" 5"), None);
    // One past the largest value overflows.
    assert_eq!(parse_u64("18446744073709551616"), None);
    assert_eq!(parse_u64("99999999999999999999999"), None);
}

#[test]
fn parse_accepts_leading_zeros() {
    assert_eq!(parse_u64("007"), Some(7));
    assert_eq!(parse_u64("000"), Some(0));
    assert_eq!(parse_u64("18446744073709551615"), Some(u64::MAX));
}

#[test]
fn substring_search() {
    assert!(str_contains("wgpu_core::device", "wgpu"));
    assert!(str_contains("bevy::diagnostic::fps", "diagnostic"));
    assert!(str_contains("abc", ""));
    assert!(str_contains("", ""));
    assert!(!str_contains("", "a"));
    assert!(!str_contains("warp", "wrap"));
    assert!(str_contains("aaab", "aab"));
    assert!(!str_contains("aaab", "abb"));
}

#[test]
fn string_equality_by_characters() {
    assert!(str_eq("", ""));
    assert!(str_eq("frame", "frame"));
    assert!(!str_eq("frame", "frames"));
    assert!(!str_eq("frame", "flame"));
}
