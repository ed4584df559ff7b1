use std::str::FromStr;

use rust_decimal::prelude::FromPrimitive;

use data_cleaning::model::decimal::Decimal;
use data_cleaning::utils::numbers::to_cents;

fn dec(text: &str) -> Decimal {
    let d = rust_decimal::Decimal::from_str(text).unwrap();
    Decimal {
        mantissa: d.mantissa(),
        scale: d.scale(),
    }
}

#[test]
fn to_cents_accepts_exact_value() {
    assert_eq!(to_cents(dec("99.50")), Some(dec("99.50")));
}

#[test]
fn to_cents_accepts_within_tolerance() {
    let d = rust_decimal::Decimal::from_f64(299.85).unwrap();
    let value = Decimal {
        mantissa: d.mantissa(),
        scale: d.scale(),
    };
    assert_eq!(to_cents(value), Some(dec("299.85")));
}

#[test]
fn to_cents_rejects_beyond_tolerance() {
    assert_eq!(to_cents(dec("99.505")), None);
}

#[test]
fn to_cents_rounds_residue_to_the_nearest_cent() {
    assert_eq!(to_cents(dec("12.3400004")), Some(dec("12.34")));
    assert_eq!(to_cents(dec("12.3499995")), Some(dec("12.35")));
    assert_eq!(to_cents(dec("-0.0100009")), Some(dec("-0.01")));
}

#[test]
fn to_cents_accepts_the_tolerance_itself() {
    assert_eq!(to_cents(dec("1.000001")), Some(dec("1.00")));
    assert_eq!(to_cents(dec("1.0000011")), None);
}

#[test]
fn to_cents_keeps_values_with_few_fractional_digits() {
    assert_eq!(to_cents(dec("7")), Some(dec("7")));
    assert_eq!(to_cents(dec("7.5")), Some(dec("7.5")));
}

#[test]
fn to_cents_twice_is_to_cents_once() {
    for text in ["299.850000001", "99.50", "5.0000001", "-3.999999"] {
        let once = to_cents(dec(text)).unwrap();
        assert_eq!(to_cents(once), Some(once));
    }
}
