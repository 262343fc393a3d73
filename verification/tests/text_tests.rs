use ministore_pos::codec::{push_u32, push_u64, read_u32, read_u64};
use ministore_pos::text::{
    chars_equal, chars_field, pad_with_zeros, parse_i32, parse_u32, parse_usize, to_decimal,
    trim_chars,
};

fn cs(s: &str) -> Vec<char> {
    s.chars().collect()
}

#[test]
fn decimal_text_of_numbers() {
    assert_eq!(to_decimal(0), cs("0"));
    assert_eq!(to_decimal(7), cs("7"));
    assert_eq!(to_decimal(1234), cs("1234"));
    assert_eq!(to_decimal(u64::MAX), cs("18446744073709551615"));
}

#[test]
fn parse_u32_like_str_parse() {
    assert_eq!(parse_u32(&cs("42")), Some(42));
    assert_eq!(parse_u32(&cs("+42")), Some(42));
    assert_eq!(parse_u32(&cs("007")), Some(7));
    assert_eq!(parse_u32(&cs("4294967295")), Some(u32::MAX));
    assert_eq!(parse_u32(&cs("4294967296")), None);
    assert_eq!(parse_u32(&cs("")), None);
    assert_eq!(parse_u32(&cs("+")), None);
    assert_eq!(parse_u32(&cs("-1")), None);
    assert_eq!(parse_u32(&cs(" 1")), None);
    assert_eq!(parse_u32(&cs("1x")), None);
}

#[test]
fn parse_usize_and_i32() {
    assert_eq!(parse_usize(&cs("12")), Some(12));
    assert_eq!(parse_usize(&cs("0")), Some(0));
    assert_eq!(parse_usize(&cs("abc")), None);
    assert_eq!(parse_i32(&cs("-2147483648")), Some(i32::MIN));
    assert_eq!(parse_i32(&cs("2147483647")), Some(i32::MAX));
    assert_eq!(parse_i32(&cs("2147483648")), None);
    assert_eq!(parse_i32(&cs("-0")), Some(0));
    assert_eq!(parse_i32(&cs("-")), None);
    assert_eq!(parse_i32(&cs("-+1")), None);
    assert_eq!(parse_i32(&cs("+12")), Some(12));
}

#[test]
fn parse_gives_back_decimal_text() {
    for n in [0u32, 9, 10, 99, 65535, u32::MAX] {
        assert_eq!(parse_u32(&to_decimal(n as u64)), Some(n));
    }
}

#[test]
fn padding_and_trimming() {
    assert_eq!(pad_with_zeros(&cs("5"), 2), cs("05"));
    assert_eq!(pad_with_zeros(&cs(""), 2), cs("00"));
    assert_eq!(pad_with_zeros(&cs("123"), 2), cs("123"));
    assert_eq!(pad_with_zeros(&cs("1"), 4), cs("0001"));
    assert_eq!(trim_chars(&cs(" \t05 \n")), cs("05"));
    assert_eq!(trim_chars(&cs("\u{3000}x\u{a0}")), cs("x"));
    assert_eq!(trim_chars(&cs("   ")), cs(""));
    assert_eq!(trim_chars(&cs("\0a")), cs("\0a"));
}

#[test]
fn char_fields_and_equality() {
    assert_eq!(chars_field(&cs("abcdef"), 2, 3), cs("cde"));
    assert_eq!(chars_field(&cs("abcdef"), 4, 9), cs("ef"));
    assert_eq!(chars_field(&cs("abc"), 10, 2), cs(""));
    assert!(chars_equal(&cs("ab"), &cs("ab")));
    assert!(!chars_equal(&cs("ab"), &cs("abc")));
    assert!(!chars_equal(&cs("ab"), &cs("ac")));
}

#[test]
fn little_endian_fields() {
    let mut out = Vec::new();
    push_u32(&mut out, 513);
    assert_eq!(out, vec![1, 2, 0, 0]);
    assert_eq!(read_u32(&out, 0), 513);
    push_u64(&mut out, 0x0102030405060708);
    assert_eq!(&out[4..], &[8, 7, 6, 5, 4, 3, 2, 1]);
    assert_eq!(read_u64(&out, 4), 0x0102030405060708);
}
