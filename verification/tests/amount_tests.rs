use txs_eng::amount::SCALE;
use txs_eng::Amount;

#[test]
fn from_scaled_preserves_value() {
    let amount = Amount::from_scaled(123456);
    assert_eq!(amount, Amount(123456));
}

#[test]
fn display_formats_positive() {
    assert_eq!(Amount::from_scaled(1_000_000).display_string(), "100.0000");
    assert_eq!(Amount::from_scaled(15_000).display_string(), "1.5000");
    assert_eq!(Amount::from_scaled(1).display_string(), "0.0001");
    assert_eq!(Amount::from_scaled(0).display_string(), "0.0000");
}

#[test]
fn display_formats_negative() {
    assert_eq!(Amount::from_scaled(-502_500).display_string(), "-50.2500");
    assert_eq!(Amount::from_scaled(-1).display_string(), "-0.0001");
}

#[test]
fn default_is_zero() {
    assert_eq!(Amount::default(), Amount::from_scaled(0));
}

#[test]
fn add() {
    let a = Amount::from_scaled(100);
    let b = Amount::from_scaled(50);
    assert_eq!(a.add(b), Amount::from_scaled(150));
}

#[test]
fn add_assign() {
    let mut a = Amount::from_scaled(100);
    a.add_assign(Amount::from_scaled(50));
    assert_eq!(a, Amount::from_scaled(150));
}

#[test]
fn sub_assign() {
    let mut a = Amount::from_scaled(100);
    a.sub_assign(Amount::from_scaled(30));
    assert_eq!(a, Amount::from_scaled(70));
}

#[test]
fn ordering() {
    let small = Amount::from_scaled(100);
    let large = Amount::from_scaled(200);
    assert!(small < large);
    assert!(large > small);
}

#[test]
fn negative_ordering() {
    let negative = Amount::from_scaled(-100);
    let zero = Amount::from_scaled(0);
    let positive = Amount::from_scaled(100);
    assert!(negative < zero);
    assert!(zero < positive);
    assert!(negative < positive);
}

#[test]
fn parse_decimal_converts_correctly() {
    assert_eq!(Amount::from_decimal_str("100.0"), Some(Amount::from_scaled(1_000_000)));
    assert_eq!(Amount::from_decimal_str("1.5"), Some(Amount::from_scaled(15_000)));
    assert_eq!(Amount::from_decimal_str("0.0001"), Some(Amount::from_scaled(1)));
    assert_eq!(Amount::from_decimal_str("10.5"), Some(Amount::from_scaled(105_000)));
    assert_eq!(Amount::from_decimal_str("42"), Some(Amount::from_scaled(42 * SCALE)));
}

#[test]
fn parse_decimal_rounds_half_away_from_zero() {
    assert_eq!(Amount::from_decimal_str("1.23456"), Some(Amount::from_scaled(12346)));
    assert_eq!(Amount::from_decimal_str("1.23454"), Some(Amount::from_scaled(12345)));
    assert_eq!(Amount::from_decimal_str("1.23455"), Some(Amount::from_scaled(12346)));
}

#[test]
fn parse_decimal_handles_negative() {
    assert_eq!(Amount::from_decimal_str("-50.25"), Some(Amount::from_scaled(-502_500)));
    assert_eq!(Amount::from_decimal_str("-0.0001"), Some(Amount::from_scaled(-1)));
}

#[test]
fn parse_decimal_rejects_malformed_text() {
    assert_eq!(Amount::from_decimal_str(""), None);
    assert_eq!(Amount::from_decimal_str("-"), None);
    assert_eq!(Amount::from_decimal_str("."), None);
    assert_eq!(Amount::from_decimal_str("1.2.3"), None);
    assert_eq!(Amount::from_decimal_str("12x"), None);
    assert_eq!(Amount::from_decimal_str(" 1"), None);
}

#[test]
fn parse_decimal_rejects_out_of_range_values() {
    assert_eq!(Amount::from_decimal_str("99999999999999999999"), None);
    // the largest and smallest scaled values still parse
    assert_eq!(
        Amount::from_decimal_str("922337203685477.5807"),
        Some(Amount::from_scaled(i64::MAX))
    );
    assert_eq!(
        Amount::from_decimal_str("-922337203685477.5808"),
        Some(Amount::from_scaled(i64::MIN))
    );
    assert_eq!(Amount::from_decimal_str("922337203685477.5808"), None);
    assert_eq!(Amount::from_decimal_str("-922337203685477.5809"), None);
}

#[test]
fn display_then_parse_round_trips() {
    for v in [0i64, 1, -1, 15_000, -502_500, 123_456_789, i64::MAX, i64::MIN] {
        let a = Amount::from_scaled(v);
        assert_eq!(Amount::from_decimal_str(&a.display_string()), Some(a));
    }
}

#[test]
fn checked_add_detects_overflow() {
    let a = Amount::from_scaled(i64::MAX);
    assert_eq!(a.checked_add(Amount::from_scaled(1)), None);
    assert_eq!(
        Amount::from_scaled(100).checked_add(Amount::from_scaled(50)),
        Some(Amount::from_scaled(150))
    );
}
