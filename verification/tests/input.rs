use solve24::{digits_value, parse_val};

#[test]
fn test_parse_digits() {
    assert_eq!(parse_val("12"), 12);
    assert_eq!(parse_val("0"), 0);
    assert_eq!(parse_val("007"), 7);
}

#[test]
fn test_parse_passes_over_other_characters() {
    assert_eq!(parse_val("a1b2"), 12);
    assert_eq!(parse_val(" 4 "), 4);
    assert_eq!(parse_val("-5"), 5);
    assert_eq!(parse_val("+5"), 5);
    assert_eq!(parse_val("1.5"), 15);
    assert_eq!(parse_val("1,000"), 1000);
}

#[test]
fn test_parse_nothing_to_read() {
    assert_eq!(parse_val(""), 0);
    assert_eq!(parse_val("abc"), 0);
    assert_eq!(parse_val("-"), 0);
}

#[test]
fn test_parse_limits() {
    assert_eq!(parse_val("2147483647"), i32::MAX);
    assert_eq!(parse_val("2147483648"), 0);
    assert_eq!(parse_val("99999999999999999999999"), 0);
    assert_eq!(parse_val("00000000000000000000001"), 1);
    assert_eq!(parse_val("21474836470"), 0);
}

#[test]
fn test_parse_other_numeric_characters() {
    assert_eq!(parse_val("\u{0663}"), 0);
    assert_eq!(parse_val("1\u{0662}"), 0);
    assert_eq!(parse_val("\u{00BD}4"), 0);
    assert_eq!(parse_val("x\u{00B2}"), 0);
    assert_eq!(parse_val("\u{00E9}7"), 7);
}

#[test]
fn test_parse_agrees_with_the_standard_library() {
    for input in ["24", "a1b2", "", "1.5", "2147483648", "\u{0663}", "-13", "6 "] {
        let digits = input.matches(char::is_numeric).collect::<String>();
        assert_eq!(parse_val(input), digits.parse::<i32>().unwrap_or(0));
    }
}

fn chars(text: &str) -> Vec<char> {
    text.chars().collect()
}

#[test]
fn test_digits_value() {
    assert_eq!(digits_value(&chars("12")), 12);
    assert_eq!(digits_value(&chars("0")), 0);
    assert_eq!(digits_value(&chars("007")), 7);
    assert_eq!(digits_value(&chars("2147483647")), i32::MAX);
}

#[test]
fn test_digits_value_gives_zero() {
    assert_eq!(digits_value(&[]), 0);
    assert_eq!(digits_value(&chars("2147483648")), 0);
    assert_eq!(digits_value(&chars("1a")), 0);
    assert_eq!(digits_value(&chars("-1")), 0);
    assert_eq!(digits_value(&chars("1\u{0662}")), 0);
    assert_eq!(digits_value(&chars("99999999999999999999")), 0);
}

#[test]
fn test_digits_value_agrees_with_the_standard_library() {
    for text in ["24", "", "0042", "2147483647", "2147483648", "7x", "\u{0663}"] {
        let expected = if text.starts_with(['+', '-']) {
            0
        } else {
            text.parse::<i32>().unwrap_or(0)
        };
        assert_eq!(digits_value(&chars(text)), expected);
    }
}
