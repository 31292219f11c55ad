use mimi::divergence::Side;
use mimi::text::{contains_chars, decimal_i64, decimal_u64, parse_i64};

#[test]
fn decimal_rendering_matches_display() {
    for n in [0i64, 7, 10, 123, -1, -42, i64::MAX, i64::MIN] {
        assert_eq!(decimal_i64(n), n.to_string());
    }
    assert_eq!(decimal_u64(u64::MAX), u64::MAX.to_string());
}

#[test]
fn integer_parsing_matches_std() {
    for s in ["0", "-0", "+12", "0042", "9223372036854775807", "-9223372036854775808",
              "9223372036854775808", "", "+", "-", " 1", "1 ", "1e3", "٣"] {
        assert_eq!(parse_i64(s), s.parse::<i64>().ok(), "input {s:?}");
    }
}

#[test]
fn runs_are_found_anywhere() {
    let v = |s: &str| s.chars().collect::<Vec<char>>();
    assert!(contains_chars(&v("manchestercity"), &v("city")));
    assert!(contains_chars(&v("abc"), &v("")));
    assert!(!contains_chars(&v("ci"), &v("city")));
    assert!(!contains_chars(&v("norwich"), &v("city")));
}

#[test]
fn side_names() {
    assert_eq!(Side::Buy.name(), "Buy");
    assert_eq!(Side::Sell.name(), "Sell");
}
