use invoice::date::{decode_date, Date, FormatError};
use invoice::decimal::{decode_decimal, Decimal};

#[test]
fn date_round_trip() {
    let d = decode_date(Some((2024, 3, 5))).unwrap();
    assert_eq!(d, Date { year: 2024, month: 3, day: 5 });
    assert_eq!(d.to_string(), "2024/03/05");
}

#[test]
fn date_padding() {
    assert_eq!(Date::from_ymd(99, 12, 31).unwrap().to_string(), "0099/12/31");
    assert_eq!(Date::from_ymd(12345, 1, 1).unwrap().to_string(), "+12345/01/01");
    assert_eq!(Date::from_ymd(-5, 1, 1).unwrap().to_string(), "-0005/01/01");
}

#[test]
fn date_validity() {
    assert!(Date::from_ymd(2024, 2, 29).is_some());
    assert!(Date::from_ymd(2023, 2, 29).is_none());
    assert!(Date::from_ymd(2000, 2, 29).is_some());
    assert!(Date::from_ymd(1900, 2, 29).is_none());
    assert!(Date::from_ymd(2024, 4, 31).is_none());
    assert!(Date::from_ymd(2024, 13, 1).is_none());
    assert!(Date::from_ymd(2024, 1, 0).is_none());
    assert!(Date::from_ymd(262142, 12, 31).is_some());
    assert!(Date::from_ymd(262143, 1, 1).is_none());
}

#[test]
fn date_decode_errors() {
    assert_eq!(decode_date(None), Err(FormatError::NotADate));
    assert_eq!(decode_date(Some((2024, 2, 30))), Err(FormatError::InvalidDate));
}

#[test]
fn decimal_decode() {
    assert_eq!(decode_decimal("100.00"), Ok(Decimal { mantissa: 10000, scale: 2 }));
    assert_eq!(decode_decimal("-2.5"), Ok(Decimal { mantissa: -25, scale: 1 }));
    assert_eq!(decode_decimal("abc"), Err(FormatError::InvalidDecimal));
    assert_eq!(decode_decimal(""), Err(FormatError::InvalidDecimal));
}

#[test]
fn decimal_text() {
    assert_eq!(Decimal { mantissa: 20000, scale: 2 }.to_string(), "200.00");
    assert_eq!(Decimal { mantissa: -5, scale: 3 }.to_string(), "-0.005");
    assert_eq!(Decimal { mantissa: 0, scale: 0 }.to_string(), "0");
    assert_eq!(Decimal { mantissa: 125, scale: 1 }.to_fixed(0), "12");
    assert_eq!(Decimal { mantissa: 125, scale: 1 }.to_fixed(3), "12.500");
}

#[test]
fn decimal_from_parts_bounds() {
    assert!(Decimal::from_parts(79228162514264337593543950335, 28).is_some());
    assert!(Decimal::from_parts(79228162514264337593543950336, 0).is_none());
    assert!(Decimal::from_parts(1, 29).is_none());
}

#[test]
fn decimal_add() {
    let a = Decimal { mantissa: 150, scale: 2 };
    let b = Decimal { mantissa: 25, scale: 1 };
    assert_eq!(a.checked_add(&b), Some(Decimal { mantissa: 400, scale: 2 }));
    let z = Decimal::zero();
    assert_eq!(z.checked_add(&b), Some(b));
    let max = Decimal { mantissa: 79228162514264337593543950335, scale: 0 };
    assert_eq!(max.checked_add(&Decimal { mantissa: 1, scale: 0 }), None);
}

#[test]
fn decimal_add_lowers_scale() {
    let big = Decimal { mantissa: 70000000000000000000000000000, scale: 0 };
    let one = Decimal { mantissa: 10, scale: 1 };
    let sum = big.checked_add(&one).unwrap();
    assert_eq!(sum.to_fixed(0), "70000000000000000000000000001");
    let half = Decimal { mantissa: 5, scale: 1 };
    assert_eq!(big.checked_add(&half), None);
}

#[test]
fn decimal_fixed_past_largest_scale() {
    assert_eq!(Decimal { mantissa: 15, scale: 1 }.to_fixed(30).len(), 32);
}
