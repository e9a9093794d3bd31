use gilma::text::{chars_of, format_decimal, parse_u64, parse_usize, string_from_chars, trim_range, whitespace};

fn parse_all_u64(s: &str) -> Option<u64> {
    let cs = chars_of(s);
    parse_u64(&cs, 0, cs.len())
}

fn parse_all_usize(s: &str) -> Option<usize> {
    let cs = chars_of(s);
    parse_usize(&cs, 0, cs.len())
}

#[test]
fn decimal_formatting() {
    assert_eq!(format_decimal(0), "0");
    assert_eq!(format_decimal(7), "7");
    assert_eq!(format_decimal(1234567890), "1234567890");
    assert_eq!(format_decimal(u64::MAX), "18446744073709551615");
}

#[test]
fn decimal_parsing_follows_str_parse() {
    for s in ["0", "42", "+5", "007", "18446744073709551615", "", "+", "-1", " 1", "1 ", "1a", "18446744073709551616"] {
        assert_eq!(parse_all_u64(s), s.parse::<u64>().ok(), "u64 {:?}", s);
        assert_eq!(parse_all_usize(s), s.parse::<usize>().ok(), "usize {:?}", s);
    }
}

#[test]
fn parse_within_a_range() {
    let cs = chars_of("ab123cd");
    assert_eq!(parse_u64(&cs, 2, 5), Some(123));
    assert_eq!(parse_u64(&cs, 1, 5), None);
    assert_eq!(parse_u64(&cs, 3, 3), None);
}

#[test]
fn trimming_follows_str_trim() {
    for s in ["", "  ", " a ", "\tab c\r\n", "x", "\u{00A0}y\u{3000}"] {
        let cs = chars_of(s);
        let (a, b) = trim_range(&cs, 0, cs.len());
        assert_eq!(string_from_chars(&cs[a..b]), s.trim(), "{:?}", s);
    }
}

#[test]
fn whitespace_follows_char_is_whitespace() {
    for c in [' ', '\t', '\n', '\r', '\u{000B}', '\u{000C}', '\u{0085}', '\u{00A0}', '\u{2028}', '\u{3000}', 'a', '0', '_', '\u{200B}'] {
        assert_eq!(whitespace(c), c.is_whitespace(), "{:?}", c);
    }
}

#[test]
fn chars_round_trip() {
    let cs = chars_of("héllo");
    assert_eq!(cs.len(), 5);
    assert_eq!(string_from_chars(&cs), "héllo");
}
