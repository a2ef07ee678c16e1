use invoice::decimal::Decimal;
use invoice::helpers::{
    escape_dot_space, escape_dot_space_helper, inc, inc_helper, mul_helper, pln, pln_helper,
    product_text, HelperError, Param,
};

fn dec(mantissa: i128, scale: u32) -> Decimal {
    Decimal { mantissa, scale }
}

fn text(s: &str) -> Param {
    Param::Text(s.to_string())
}

#[test]
fn pln_pads_whole_number() {
    assert_eq!(pln(&dec(12, 0)), "12,00");
}

#[test]
fn pln_pads_one_fractional_digit() {
    assert_eq!(pln(&dec(125, 1)), "12,50");
}

#[test]
fn pln_cuts_extra_fractional_digits() {
    assert_eq!(pln(&dec(12345, 3)), "12,34");
    assert_eq!(pln(&dec(12349, 3)), "12,34");
}

#[test]
fn pln_small_and_zero_amounts() {
    assert_eq!(pln(&dec(0, 0)), "0,00");
    assert_eq!(pln(&dec(5, 3)), "0,00");
    assert_eq!(pln(&dec(7, 2)), "0,07");
    assert_eq!(pln(&dec(-12345, 2)), "-123,45");
}

#[test]
fn pln_shape_on_many_values() {
    for (m, s) in [(0i128, 0u32), (1, 28), (123456789, 4), (99, 1), (100000, 0), (314159, 5)] {
        let t = pln(&dec(m, s));
        assert_eq!(t.matches(',').count(), 1);
        let after: Vec<char> = t.split(',').nth(1).unwrap().chars().collect();
        assert_eq!(after.len(), 2);
        assert!(after.iter().all(|c| c.is_ascii_digit()));
    }
}

#[test]
fn pln_helper_reads_decimal_text() {
    assert_eq!(pln_helper(&vec![text("200.00")]), Ok("200,00".to_string()));
    assert_eq!(pln_helper(&vec![text("12.345")]), Ok("12,34".to_string()));
}

#[test]
fn pln_helper_errors() {
    assert_eq!(pln_helper(&vec![]), Err(HelperError::Missing(0)));
    assert_eq!(pln_helper(&vec![Param::Integer(12)]), Err(HelperError::WrongType(0)));
    assert_eq!(pln_helper(&vec![text("twelve")]), Err(HelperError::WrongType(0)));
    assert_eq!(pln_helper(&vec![Param::Other]), Err(HelperError::WrongType(0)));
}

#[test]
fn mul_keeps_summed_scale() {
    assert_eq!(product_text(&dec(25, 1), &dec(4, 0)), Some("10.0".to_string()));
    assert_eq!(mul_helper(&vec![text("2.5"), text("4")]), Ok("10.0".to_string()));
    assert_eq!(mul_helper(&vec![text("100.00"), text("2")]), Ok("200.00".to_string()));
    assert_eq!(mul_helper(&vec![text("-1.5"), text("0.5")]), Ok("-0.75".to_string()));
}

#[test]
fn mul_by_zero_is_plain_zero() {
    assert_eq!(mul_helper(&vec![text("0.00"), text("5")]), Ok("0".to_string()));
}

#[test]
fn mul_refuses_rounding() {
    assert_eq!(product_text(&dec(1, 20), &dec(1, 20)), None);
    assert_eq!(
        mul_helper(&vec![text("0.00000000000000000001"), text("0.00000000000000000001")]),
        Err(HelperError::Overflow)
    );
    let big = dec(79228162514264337593543950335, 0);
    assert_eq!(product_text(&big, &dec(2, 0)), None);
}

#[test]
fn mul_helper_errors() {
    assert_eq!(mul_helper(&vec![text("2")]), Err(HelperError::Missing(1)));
    assert_eq!(mul_helper(&vec![]), Err(HelperError::Missing(0)));
    assert_eq!(mul_helper(&vec![text("x"), text("2")]), Err(HelperError::WrongType(0)));
    assert_eq!(mul_helper(&vec![text("2"), Param::Integer(3)]), Err(HelperError::WrongType(1)));
}

#[test]
fn inc_adds_one() {
    assert_eq!(inc(0), Some("1".to_string()));
    assert_eq!(inc(41), Some("42".to_string()));
    assert_eq!(inc(9), Some("10".to_string()));
    assert_eq!(inc(u64::MAX as i128), Some("18446744073709551616".to_string()));
    assert_eq!(inc(-1), None);
}

#[test]
fn inc_helper_cases() {
    assert_eq!(inc_helper(&vec![Param::Integer(0)]), Ok("1".to_string()));
    assert_eq!(inc_helper(&vec![Param::Integer(-3)]), Err(HelperError::WrongType(0)));
    assert_eq!(inc_helper(&vec![Param::Other]), Err(HelperError::WrongType(0)));
    assert_eq!(inc_helper(&vec![text("1")]), Err(HelperError::WrongType(0)));
    assert_eq!(inc_helper(&vec![]), Err(HelperError::Missing(0)));
}

#[test]
fn escape_dot_space_example() {
    assert_eq!(escape_dot_space("Sec. 1. End."), "Sec.\\ 1.\\ End.");
}

#[test]
fn escape_dot_space_edges() {
    assert_eq!(escape_dot_space(""), "");
    assert_eq!(escape_dot_space("."), ".");
    assert_eq!(escape_dot_space(". "), ".\\ ");
    assert_eq!(escape_dot_space("a.  b"), "a.\\  b");
    assert_eq!(escape_dot_space(".. x"), "..\\ x");
    assert_eq!(escape_dot_space("ul. Długa 5"), "ul.\\ Długa 5");
}

#[test]
fn escape_dot_space_helper_cases() {
    assert_eq!(escape_dot_space_helper(&vec![text("A. B")]), Ok("A.\\ B".to_string()));
    assert_eq!(escape_dot_space_helper(&vec![Param::Integer(1)]), Err(HelperError::WrongType(0)));
    assert_eq!(escape_dot_space_helper(&vec![]), Err(HelperError::Missing(0)));
}

#[test]
fn mul_drops_trailing_zeros_past_the_largest_scale() {
    assert_eq!(
        mul_helper(&vec![text("1.0"), text("0.0000000000000000000000000001")]),
        Ok("0.0000000000000000000000000001".to_string())
    );
}

#[test]
fn mul_lowers_scale_only_as_needed() {
    assert_eq!(
        mul_helper(&vec![text("3.3"), text("3000000000000000000000000000")]),
        Ok("9900000000000000000000000000".to_string())
    );
    assert_eq!(mul_helper(&vec![text("1.50"), text("2.0")]), Ok("3.000".to_string()));
}

#[test]
fn mul_text_ignores_factor_order() {
    let ab = mul_helper(&vec![text("1.00"), text("1000000000000000000000000000")]);
    let ba = mul_helper(&vec![text("1000000000000000000000000000"), text("1.00")]);
    assert_eq!(ab, Ok("1000000000000000000000000000.0".to_string()));
    assert_eq!(ab, ba);
}
