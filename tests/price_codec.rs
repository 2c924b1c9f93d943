use receipt_processor::price::{parse_price, print_price};
use receipt_processor::receipt::Receipt;

#[test]
fn price_as_receipt_method() {
    assert_eq!(Receipt::parse_price("1.50"), Some(150));
    assert_eq!(Receipt::parse_price(".69"), Some(69));
    assert_eq!(Receipt::parse_price("420"), Some(42000));
    assert_eq!(Receipt::parse_price("0"), Some(0));
    assert_eq!(Receipt::parse_price(".0"), Some(0));
    assert_eq!(Receipt::parse_price("0.00"), Some(0));
    assert_eq!(Receipt::parse_price(".3"), Some(30));
    assert_eq!(Receipt::parse_price("."), None);
    assert_eq!(Receipt::parse_price("1,3"), None);
    assert_eq!(Receipt::parse_price("0.501"), None);
    assert_eq!(Receipt::parse_price("0.001"), None);
    assert_eq!(Receipt::parse_price("5."), None);
}

#[test]
fn price_with_cents() {
    assert_eq!(parse_price("1.50"), Some(150));
    assert_eq!(parse_price(".69"), Some(69));
}

#[test]
fn price_whole_units() {
    assert_eq!(parse_price("420"), Some(42000));
    assert_eq!(parse_price("0"), Some(0));
}

#[test]
fn price_zero_forms() {
    assert_eq!(parse_price(".0"), Some(0));
    assert_eq!(parse_price("0.00"), Some(0));
}

#[test]
fn price_single_fraction_digit_is_tenths() {
    assert_eq!(parse_price(".3"), Some(30));
    assert_eq!(parse_price("2.5"), Some(250));
    assert_eq!(parse_price("2.05"), Some(205));
}

#[test]
fn price_rejects_malformed() {
    assert_eq!(parse_price("."), None);
    assert_eq!(parse_price("1,3"), None);
    assert_eq!(parse_price("0.501"), None);
    assert_eq!(parse_price("0.001"), None);
    assert_eq!(parse_price("5."), None);
    assert_eq!(parse_price(""), None);
    assert_eq!(parse_price("1.2.3"), None);
    assert_eq!(parse_price("1..2"), None);
    assert_eq!(parse_price("abc"), None);
    assert_eq!(parse_price("+5"), None);
    assert_eq!(parse_price("1.a"), None);
}

#[test]
fn price_largest_amount() {
    assert_eq!(parse_price("42949672.95"), Some(u32::MAX));
    assert_eq!(parse_price("42949672.96"), None);
    assert_eq!(parse_price("99999999999"), None);
}

#[test]
fn price_display() {
    assert_eq!(print_price(150), "1.50");
    assert_eq!(print_price(5), "0.05");
    assert_eq!(print_price(0), "0.00");
    assert_eq!(print_price(u64::MAX), "184467440737095516.15");
    assert_eq!(print_price(42000), "420.00");
    assert_eq!(print_price(u32::MAX as u64), "42949672.95");
}

#[test]
fn price_round_trip() {
    for text in ["1.5", "1.50", ".3", "0", "420", "007.07", "12.34"] {
        let cents = parse_price(text).unwrap();
        let shown = print_price(cents as u64);
        assert_eq!(parse_price(&shown), Some(cents));
    }
    assert_eq!(print_price(parse_price(".3").unwrap() as u64), "0.30");
    assert_eq!(print_price(parse_price("007.07").unwrap() as u64), "7.07");
}
