use std::cmp::Ordering;

use gnu_sort::locale::{smart_compare, strcasecoll_compare, LocaleConfig};
use gnu_sort::simd_compare::SIMDCompare;
use gnu_sort::zero_copy::{compare_numeric_bytes, compare_numeric_lines, parse_int, Line};

#[test]
fn test_case_insensitive() {
    let a = b"Apple";
    let b = b"apple";
    assert_eq!(strcasecoll_compare(a, b), Ordering::Equal);

    let a = b"ZEBRA";
    let b = b"aardvark";
    assert_eq!(strcasecoll_compare(a, b), Ordering::Greater);
}

#[test]
fn test_simd_comparison() {
    let a = b"hello world this is a test";
    let b = b"hello world this is a different test";

    let result = SIMDCompare::compare_bytes_simd(a, b);
    let expected = a[..].cmp(&b[..]);

    assert_eq!(result, expected);
}

#[test]
fn test_simd_case_insensitive() {
    let a = b"Hello World";
    let b = b"HELLO WORLD";

    let result = SIMDCompare::compare_case_insensitive_simd(a, b);
    assert_eq!(result, Ordering::Equal);
}

#[test]
fn test_simd_digit_detection() {
    assert!(SIMDCompare::is_all_digits_simd(b"123456789"));
    assert!(!SIMDCompare::is_all_digits_simd(b"123a456"));
    assert!(SIMDCompare::is_all_digits_simd(b""));
}

#[test]
fn test_simple_line_creation() {
    let data = b"hello world";
    let line = Line::new(data);

    assert_eq!(line.as_bytes(), b"hello world");
    assert_eq!(line.len(), 11);
}

#[test]
fn test_numeric_comparison() {
    let a = Line::new(b"123");
    let b = Line::new(b"456");
    let c = Line::new(b"123");

    assert_eq!(compare_numeric_lines(&a, &b), Ordering::Less);
    assert_eq!(compare_numeric_lines(&b, &a), Ordering::Greater);
    assert_eq!(compare_numeric_lines(&a, &c), Ordering::Equal);
}

#[test]
fn test_simple_int_parsing() {
    assert_eq!(parse_int(b"123"), Some(123));
    assert_eq!(parse_int(b"-456"), Some(-456));
    assert_eq!(parse_int(b"+789"), Some(789));
    assert_eq!(parse_int(b"0"), Some(0));
    assert_eq!(parse_int(b""), Some(0));
    assert_eq!(parse_int(b"12.34"), None);
    assert_eq!(parse_int(b"abc"), None);
}

#[test]
fn parse_int_overflow_is_none() {
    assert_eq!(parse_int(b"9223372036854775807"), Some(i64::MAX));
    assert_eq!(parse_int(b"9223372036854775808"), None);
}

#[test]
fn numeric_bytes_decimals_signs_and_non_numbers() {
    assert_eq!(compare_numeric_bytes(b"1.5", b"1.25"), Ordering::Greater);
    assert_eq!(compare_numeric_bytes(b"1.50", b"1.5"), Ordering::Equal);
    assert_eq!(compare_numeric_bytes(b"-3", b"2"), Ordering::Less);
    assert_eq!(compare_numeric_bytes(b"-10", b"-9"), Ordering::Less);
    assert_eq!(compare_numeric_bytes(b"  007", b"7"), Ordering::Equal);
    assert_eq!(compare_numeric_bytes(b"-0", b"0"), Ordering::Equal);
    assert_eq!(compare_numeric_bytes(b"abc", b"-5"), Ordering::Less);
    assert_eq!(compare_numeric_bytes(b"abc", b""), Ordering::Equal);
    assert_eq!(compare_numeric_bytes(b"100", b"99"), Ordering::Greater);
}

#[test]
fn smart_compare_in_c_locale() {
    assert_eq!(smart_compare(b"B", b"a", false), Ordering::Less);
    assert_eq!(smart_compare(b"B", b"a", true), Ordering::Greater);
}

#[test]
fn test_c_locale() {
    let config = LocaleConfig::from_name("C");
    assert!(!config.enabled);
    assert_eq!(config.locale_name, "C");
}

#[test]
fn test_utf8_locale() {
    let config = LocaleConfig::from_name("en_US.UTF-8");
    assert!(config.enabled);
    assert!(config.is_utf8);
    assert_eq!(config.locale_name, "en_US.UTF-8");
}

#[test]
fn other_locale_names() {
    assert!(!LocaleConfig::from_name("POSIX").is_enabled());
    assert!(!LocaleConfig::from_name("").is_enabled());
    let l = LocaleConfig::from_name("de_DE.utf8");
    assert!(l.enabled && l.is_utf8);
    assert!(!LocaleConfig::from_name("fr_FR").is_utf8);
}
