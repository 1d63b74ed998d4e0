//! Numbers as text and as bytes.

use sptorch::bytes::{push_le, read_le, write_le};
use sptorch::text::{contains_text, parse_number, push_decimal, push_hex, same_text};

#[test]
fn decimals_are_written_and_read_back() {
    for n in [0u64, 7, 10, 99, 4_294_967_295, 18_446_744_073_709_551_615] {
        let mut out = String::new();
        push_decimal(&mut out, n);
        assert_eq!(out, format!("{}", n));
        assert_eq!(parse_number(&out, u64::MAX), Some(n));
    }
}

#[test]
fn numbers_are_read_as_the_standard_library_reads_them() {
    for text in ["0", "+5", "007", "4294967295", "4294967296", "", "-1", "+", "1x", " 1"] {
        let wanted = text.parse::<u32>().ok().map(u64::from);
        assert_eq!(parse_number(text, u32::MAX as u64), wanted, "{:?}", text);
    }
}

#[test]
fn hexadecimals_are_padded() {
    let mut out = String::new();
    push_hex(&mut out, 0xbeef, 8);
    assert_eq!(out, "0000beef");
}

#[test]
fn texts_are_searched_and_told_apart() {
    assert!(contains_text("suite result window read 0", "window"));
    assert!(contains_text("abc", ""));
    assert!(!contains_text("ab", "abc"));
    assert!(same_text(&"ok".to_string(), "ok"));
    assert!(!same_text(&"ok".to_string(), "error"));
}

#[test]
fn little_endian_values_come_back() {
    let mut out = vec![9u8];
    push_le(&mut out, 0x0102_0304, 4);
    assert_eq!(out, vec![9, 4, 3, 2, 1]);
    assert_eq!(read_le(&out, 1, 4), 0x0102_0304);
    let mut field = [0xffu8; 4];
    write_le(&mut field, 1, 0x0a0b, 2);
    assert_eq!(field, [0xff, 0x0b, 0x0a, 0xff]);
}
