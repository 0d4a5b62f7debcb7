use proc_siding_lib::text::{
    decimal_string, first_line_of, parse_u16, parse_u32, signed_decimal_string, split_lines,
    split_tokens, trim_str,
};

#[test]
fn trimming_uses_unicode_white_space() {
    assert_eq!(trim_str("  a b \t\n"), "a b");
    assert_eq!(trim_str("\u{a0}x\u{3000}"), "x");
    assert_eq!(trim_str(" \n "), "");
}

#[test]
fn lines_follow_str_lines() {
    let text = "foo\nbar\n\r\nbaz\r";
    assert_eq!(split_lines(text), text.lines().collect::<Vec<_>>());
    assert_eq!(split_lines("a\n"), vec!["a"]);
    assert!(split_lines("").is_empty());
    assert_eq!(first_line_of("x\r\ny"), "x");
    assert_eq!(first_line_of(""), "");
}

#[test]
fn tokens_follow_split_whitespace() {
    let text = "  a\tbb \n c  ";
    assert_eq!(split_tokens(text), text.split_whitespace().collect::<Vec<_>>());
}

#[test]
fn unsigned_parsing_follows_from_str() {
    for s in ["0", "65535", "65536", "+1", "+", "-1", "", "1 ", "007", "١"] {
        assert_eq!(parse_u16(s), s.parse::<u16>().ok(), "{s:?}");
    }
    for s in ["4294967295", "4294967296", "123"] {
        assert_eq!(parse_u32(s), s.parse::<u32>().ok(), "{s:?}");
    }
}

#[test]
fn decimal_rendering() {
    assert_eq!(decimal_string(0), "0");
    assert_eq!(decimal_string(1234567890), "1234567890");
    assert_eq!(decimal_string(u64::MAX), u64::MAX.to_string());
    assert_eq!(signed_decimal_string(-42), "-42");
    assert_eq!(signed_decimal_string(i64::MIN + 1), (i64::MIN + 1).to_string());
}
