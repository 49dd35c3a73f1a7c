use chibi::parse_integer;

#[test]
fn plain_digits() {
    assert_eq!(parse_integer("0"), Some(0));
    assert_eq!(parse_integer("42"), Some(42));
    assert_eq!(parse_integer("007"), Some(7));
    assert_eq!(parse_integer("1234567890"), Some(1234567890));
}

#[test]
fn a_sign_may_lead() {
    assert_eq!(parse_integer("-7"), Some(-7));
    assert_eq!(parse_integer("+7"), Some(7));
    assert_eq!(parse_integer("-0"), Some(0));
}

#[test]
fn a_sign_alone_is_no_number() {
    assert_eq!(parse_integer(""), None);
    assert_eq!(parse_integer("+"), None);
    assert_eq!(parse_integer("-"), None);
    assert_eq!(parse_integer("+-5"), None);
    assert_eq!(parse_integer("--5"), None);
    assert_eq!(parse_integer("5-"), None);
}

#[test]
fn anything_but_digits_is_refused() {
    assert_eq!(parse_integer("12a"), None);
    assert_eq!(parse_integer("a12"), None);
    assert_eq!(parse_integer("1_000"), None);
    assert_eq!(parse_integer("1.5"), None);
    assert_eq!(parse_integer(" 1"), None);
    assert_eq!(parse_integer("1 "), None);
    assert_eq!(parse_integer("0x10"), None);
    assert_eq!(parse_integer("print"), None);
    assert_eq!(parse_integer("٣"), None);
    assert_eq!(parse_integer("１"), None);
}

#[test]
fn the_range_of_i64_is_the_limit() {
    assert_eq!(parse_integer("9223372036854775807"), Some(i64::MAX));
    assert_eq!(parse_integer("-9223372036854775808"), Some(i64::MIN));
    assert_eq!(parse_integer("+9223372036854775807"), Some(i64::MAX));
    assert_eq!(parse_integer("9223372036854775808"), None);
    assert_eq!(parse_integer("-9223372036854775809"), None);
    assert_eq!(parse_integer("99999999999999999999999999"), None);
    assert_eq!(parse_integer("-99999999999999999999999999"), None);
    assert_eq!(parse_integer("0000000000000000000000000000000000001"), Some(1));
    assert_eq!(parse_integer("92233720368547758070"), None);
}

#[test]
fn an_overflowing_prefix_decides_nothing_about_the_kind_of_refusal() {
    assert_eq!(parse_integer("99999999999999999999x"), None);
}

#[test]
fn agrees_with_the_standard_reading() {
    let samples = [
        "", "0", "1", "-1", "+1", "+", "-", "00", "-00", "12a", "a", "1 2", "١", "9223372036854775807",
        "9223372036854775808", "-9223372036854775808", "-9223372036854775809", "123456789",
        "-123456789", "+-1", "1+", "1e3", "١٢٣", "0b1", "𝟙",
    ];
    for text in samples {
        assert_eq!(parse_integer(text), text.parse::<i64>().ok(), "text {:?}", text);
    }
    for v in [0i64, 1, -1, 9, 10, -10, 99, 100, 12345, -98765, i64::MAX, i64::MIN, i64::MAX - 1, i64::MIN + 1] {
        assert_eq!(parse_integer(&format!("{}", v)), Some(v));
    }
}
