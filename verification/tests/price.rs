use amazon_pricing::price::{format_price, parse_price, push_decimal, push_price};

#[test]
fn price_is_written_with_two_digits_of_cents() {
    assert_eq!(format_price(0), "0.00");
    assert_eq!(format_price(5), "0.05");
    assert_eq!(format_price(50), "0.50");
    assert_eq!(format_price(300), "3.00");
    assert_eq!(format_price(1999), "19.99");
    assert_eq!(format_price(123456), "1234.56");
    assert_eq!(format_price(u64::MAX), "184467440737095516.15");
}

#[test]
fn decimal_is_appended_without_leading_zeros() {
    let mut out = String::from("n=");
    push_decimal(&mut out, 0);
    push_decimal(&mut out, 7);
    push_decimal(&mut out, 1020);
    assert_eq!(out, "n=071020");
}

#[test]
fn price_is_appended_to_what_is_there() {
    let mut out = String::from("$");
    push_price(&mut out, 1005);
    assert_eq!(out, "$10.05");
}

#[test]
fn written_price_reads_back() {
    for cents in [0u64, 1, 9, 10, 99, 100, 101, 999, 1000, 123456, 99999999, u64::MAX] {
        let text = format_price(cents);
        let (whole, fraction) = text.split_once('.').unwrap();
        assert_eq!(parse_price(whole, fraction), Some(cents));
    }
}

#[test]
fn every_comma_is_taken_out() {
    assert_eq!(parse_price("1,234,567", "89"), Some(123456789));
    assert_eq!(parse_price(",1,,2,", "00"), Some(1200));
}

#[test]
fn malformed_text_has_no_price() {
    assert_eq!(parse_price("", "00"), None);
    assert_eq!(parse_price("12", ""), None);
    assert_eq!(parse_price("1.2", "00"), None);
    assert_eq!(parse_price("-1", "00"), None);
    assert_eq!(parse_price("+1", "00"), None);
    assert_eq!(parse_price("1e3", "00"), None);
    assert_eq!(parse_price("12", "0x"), None);
    assert_eq!(parse_price("12", " 5"), None);
    assert_eq!(parse_price("\u{0661}\u{0662}", "00"), None);
    assert_eq!(parse_price("12", "\u{0661}\u{0662}"), None);
}
