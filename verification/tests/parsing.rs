use repartizare::parse::{extract_digit_run, parse_grade, parse_i32, GRADE_ABSENT};
use repartizare::text::{str_eq, str_le, strip_space, strip_suffix_str};

#[test]
fn parse_i32_plain() {
    assert_eq!(parse_i32("123"), Some(123));
    assert_eq!(parse_i32("0"), Some(0));
    assert_eq!(parse_i32("-45"), Some(-45));
    assert_eq!(parse_i32("+7"), Some(7));
}

#[test]
fn parse_i32_rejects() {
    assert_eq!(parse_i32(""), None);
    assert_eq!(parse_i32("-"), None);
    assert_eq!(parse_i32("+"), None);
    assert_eq!(parse_i32("12a"), None);
    assert_eq!(parse_i32("1 2"), None);
    assert_eq!(parse_i32("12.5"), None);
}

#[test]
fn parse_i32_limits() {
    assert_eq!(parse_i32("2147483647"), Some(i32::MAX));
    assert_eq!(parse_i32("-2147483648"), Some(i32::MIN));
    assert_eq!(parse_i32("2147483648"), None);
    assert_eq!(parse_i32("-2147483649"), None);
    assert_eq!(parse_i32("99999999999999999999"), None);
}

#[test]
fn parse_i32_matches_std() {
    for s in ["123", "-45", "+7", "", "-", "007", "2147483648", "x9"] {
        assert_eq!(parse_i32(s), s.parse::<i32>().ok(), "on {:?}", s);
    }
}

#[test]
fn parse_grade_hundredths() {
    assert_eq!(parse_grade("9.54"), Some(954));
    assert_eq!(parse_grade("10"), Some(1000));
    assert_eq!(parse_grade("9.5"), Some(950));
    assert_eq!(parse_grade("0.07"), Some(7));
}

#[test]
fn parse_grade_rejects() {
    assert_eq!(parse_grade(""), None);
    assert_eq!(parse_grade("."), None);
    assert_eq!(parse_grade("9."), None);
    assert_eq!(parse_grade("9.543"), None);
    assert_eq!(parse_grade("-1"), None);
    assert_eq!(parse_grade("abc"), None);
    assert_eq!(parse_grade("9,54"), None);
}

#[test]
fn grade_absent_marker_is_minus_one() {
    // -1.0 in hundredths.
    assert_eq!(GRADE_ABSENT, -100);
}

#[test]
fn digit_run_extraction() {
    assert_eq!(extract_digit_run("(149) Matematica"), "149");
    assert_eq!(extract_digit_run("Spec 101 si 202"), "101");
    assert_eq!(extract_digit_run("fara cifre"), "");
    assert_eq!(extract_digit_run("42"), "42");
}

#[test]
fn string_order_and_equality() {
    assert!(str_le("AB", "AB"));
    assert!(str_le("AB", "AC"));
    assert!(!str_le("B", "AC"));
    assert!(str_le("AB", "ABC"));
    assert!(!str_le("ABC", "AB"));
    assert!(str_eq("liceu", "liceu"));
    assert!(!str_eq("liceu", "liceu "));
}

#[test]
fn strip_helpers() {
    assert_eq!(strip_space(" alba"), "alba");
    assert_eq!(strip_space("alba"), "alba");
    assert_eq!(strip_space("  alba"), " alba");
    assert_eq!(strip_suffix_str("AB/index.html", "/index.html"), "AB");
    assert_eq!(strip_suffix_str("AB", "/index.html"), "AB");
    assert_eq!(strip_suffix_str("/index.html", "/index.html"), "");
}
