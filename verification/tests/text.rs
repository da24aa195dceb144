use remote_agent::text::{chars_of, join_strings, parse_i64_range, parse_u32_range, parse_u64_range, trimmed, u64_to_string};

fn u64_of(s: &str) -> Option<u64> {
    let v = chars_of(s);
    parse_u64_range(&v, 0, v.len())
}

fn i64_of(s: &str) -> Option<i64> {
    let v = chars_of(s);
    parse_i64_range(&v, 0, v.len())
}

#[test]
fn unsigned_parsing_matches_std() {
    for s in ["0", "42", "+7", "18446744073709551615", "18446744073709551616", "", "+", "-1", "1 ", "00012"] {
        assert_eq!(u64_of(s), s.parse::<u64>().ok(), "input {:?}", s);
    }
    let v = chars_of("4294967296");
    assert_eq!(parse_u32_range(&v, 0, v.len()), None);
    let v = chars_of("4294967295");
    assert_eq!(parse_u32_range(&v, 0, v.len()), Some(u32::MAX));
}

#[test]
fn signed_parsing_matches_std() {
    for s in ["0", "-0", "-9223372036854775808", "-9223372036854775809", "9223372036854775807", "9223372036854775808", "-", "+-1", "+12", "1e3"] {
        assert_eq!(i64_of(s), s.parse::<i64>().ok(), "input {:?}", s);
    }
}

#[test]
fn decimal_round_trip() {
    for n in [0u64, 9, 10, 99, 100, 12345, u64::MAX] {
        let s = u64_to_string(n);
        assert_eq!(s, n.to_string());
        assert_eq!(u64_of(&s), Some(n));
    }
}

#[test]
fn trim_matches_std() {
    for s in ["", "  ", " a b ", "\u{3000}x\u{2028}", "\tq\r\n"] {
        assert_eq!(trimmed(s), s.trim());
    }
}

#[test]
fn join_matches_std() {
    let parts = vec!["a".to_string(), "b".to_string(), "c".to_string()];
    assert_eq!(join_strings(&parts, ", "), "a, b, c");
    assert_eq!(join_strings(&vec![], ", "), "");
    assert_eq!(join_strings(&vec!["x".to_string()], ", "), "x");
}
