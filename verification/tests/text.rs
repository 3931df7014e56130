use homo::text::{chars_of, i64_decimal, parse_i64, split_once, strip_prefix, trim};

fn cs(s: &str) -> Vec<char> {
    chars_of(s)
}

#[test]
fn parse_i64_matches_std() {
    for s in ["0", "42", "-42", "+7", "007", "9223372036854775807", "-9223372036854775808"] {
        assert_eq!(parse_i64(&cs(s)), s.parse::<i64>().ok(), "{s}");
    }
    for s in ["", "-", "+", "1 2", "9223372036854775808", "-9223372036854775809", "x", "--1", "٣"] {
        assert_eq!(parse_i64(&cs(s)), None, "{s}");
        assert!(s.parse::<i64>().is_err());
    }
}

#[test]
fn trim_matches_std() {
    for s in ["  a b  ", "\t\nx\r\n", "", "   ", "\u{3000}y\u{a0}"] {
        assert_eq!(trim(&cs(s)), cs(s.trim()));
    }
}

#[test]
fn prefixes_and_splits() {
    assert_eq!(strip_prefix(&cs("dec x"), &cs("dec ")), Some(cs("x")));
    assert_eq!(strip_prefix(&cs("de"), &cs("dec ")), None);
    assert_eq!(split_once(&cs("a = b = c"), '='), Some((cs("a "), cs(" b = c"))));
    assert_eq!(split_once(&cs("abc"), '='), None);
}

#[test]
fn decimals() {
    assert_eq!(i64_decimal(i64::MIN), cs("-9223372036854775808"));
    assert_eq!(i64_decimal(0), cs("0"));
    assert_eq!(i64_decimal(1234), cs("1234"));
}
