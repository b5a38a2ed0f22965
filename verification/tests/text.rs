use rusty_git::text::{bytes_eq, decimal_bytes, octal_bytes, parse_unsigned_bytes, starts_with};

#[test]
fn numerals() {
    assert_eq!(decimal_bytes(0), b"0".to_vec());
    assert_eq!(decimal_bytes(1234567890), b"1234567890".to_vec());
    assert_eq!(octal_bytes(0o100644), b"100644".to_vec());
    assert_eq!(octal_bytes(8), b"10".to_vec());
}

#[test]
fn parsing_like_str_parse() {
    assert_eq!(parse_unsigned_bytes(b"42", u32::MAX as u64), Some(42));
    assert_eq!(parse_unsigned_bytes(b"+42", u32::MAX as u64), Some(42));
    assert_eq!(parse_unsigned_bytes(b"007", u32::MAX as u64), Some(7));
    assert_eq!(parse_unsigned_bytes(b"4294967295", u32::MAX as u64), Some(4294967295));
    assert_eq!(parse_unsigned_bytes(b"4294967296", u32::MAX as u64), None);
    for bad in [&b""[..], b"+", b"-1", b" 1", b"1 ", b"1a"] {
        assert_eq!(parse_unsigned_bytes(bad, u32::MAX as u64), None);
        assert!(std::str::from_utf8(bad).unwrap().parse::<u32>().is_err());
    }
}

#[test]
fn byte_helpers() {
    assert!(bytes_eq(b"abc", b"abc"));
    assert!(!bytes_eq(b"abc", b"abd"));
    assert!(starts_with(b"abcdef", b"abc"));
    assert!(!starts_with(b"ab", b"abc"));
}
