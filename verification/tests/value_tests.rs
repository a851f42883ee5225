use receipt_split::decimal::{sum_decimals, Dec};
use receipt_split::error::Error;
use receipt_split::receipt::dollar_value::DollarValue;
use receipt_split::receipt::ratio::Ratio;
use rust_decimal::Decimal;

fn dec(d: Decimal) -> Dec {
    Dec::from_parts(d.mantissa(), d.scale(), d.is_sign_negative()).unwrap()
}

fn decimal(d: Dec) -> Decimal {
    let mut x = Decimal::from_i128_with_scale(d.mantissa, d.scale);
    x.set_sign_negative(d.negative);
    x
}

fn num(s: &str) -> Decimal {
    s.parse::<Decimal>().unwrap()
}

fn dollars_from_f32(v: f32) -> Result<DollarValue, Error> {
    DollarValue::try_from_converted(Decimal::try_from(v).ok().map(dec))
}

fn ratio_from_f32(v: f32) -> Result<Ratio, Error> {
    Ratio::try_from_converted(Decimal::try_from(v).ok().map(dec))
}

#[test]
fn test_negative_float() {
    let value = dollars_from_f32(-12.432).unwrap();
    assert_eq!(decimal(value.inner()), num("-12.432"));
}

#[test]
fn dollar_value_test_as_ref() {
    let value = DollarValue::new(dec(num("12")));
    assert_eq!(decimal(value.inner()), num("12"));
}

#[test]
fn test_mul() {
    let value = dollars_from_f32(12.5).unwrap();
    assert_eq!(decimal(value.mul(dec(num("2"))).inner()), num("25"));
}

#[test]
fn test_valid_ratio() {
    let value = ratio_from_f32(0.234).unwrap();
    assert_eq!(num("0.234"), decimal(value.inner()));
}

#[test]
fn test_lower_bound_ratio() {
    let value = ratio_from_f32(0.).unwrap();
    assert_eq!(num("0"), decimal(value.inner()));
}

#[test]
fn test_upper_bound_ratio() {
    let value = ratio_from_f32(1.).unwrap();
    assert_eq!(num("1"), decimal(value.inner()));
}

#[test]
fn test_too_small_ratio() {
    let value = ratio_from_f32(-0.0001);
    assert!(matches!(value, Err(Error::RatioOutOfRange(_))));
}

#[test]
fn test_too_large_ratio() {
    let value = ratio_from_f32(1.0001);
    assert!(matches!(value, Err(Error::RatioOutOfRange(_))));
}

#[test]
fn ratio_test_as_ref() {
    let value = ratio_from_f32(0.53).unwrap();
    let d: Dec = value.into();
    assert_eq!(num("0.53"), decimal(d));
}

#[test]
fn test_into_f32() {
    let value = ratio_from_f32(0.5).unwrap();
    let d: Dec = value.into();
    assert_eq!(num("0.5"), decimal(d));
}

#[test]
fn test_invalid_value() {
    assert!(matches!(ratio_from_f32(f32::NAN), Err(Error::RatioInvalid)));
    assert!(matches!(ratio_from_f32(f32::INFINITY), Err(Error::RatioInvalid)));
    assert!(matches!(ratio_from_f32(f32::NEG_INFINITY), Err(Error::RatioInvalid)));
}

#[test]
fn test_display() {
    let r = ratio_from_f32(0.123456).unwrap();
    let s = r.to_string();
    assert_eq!(s, "0.123")
}

#[test]
fn test_try_from() {
    assert!(ratio_from_f32(0.5f32).is_ok());
    assert!(ratio_from_f32(2.0f32).is_err());
}

#[test]
fn display_cuts_rather_than_rounds() {
    let r = Ratio::new_unchecked(dec(num("0.9999")));
    assert_eq!(r.to_string(), "0.999");
    let r = Ratio::new_unchecked(dec(num("0.5")));
    assert_eq!(r.to_string(), "0.500");
}

#[test]
fn invalid_dollar_value() {
    assert!(matches!(dollars_from_f32(f32::NAN), Err(Error::DollarValueInvalid)));
    assert!(matches!(DollarValue::try_from_converted(None), Err(Error::DollarValueInvalid)));
}

#[test]
fn ratio_try_new_bounds() {
    match Ratio::try_new(dec(num("1.01"))) {
        Err(Error::RatioOutOfRange(d)) => assert_eq!(decimal(d), num("1.01")),
        _ => panic!("expected RatioOutOfRange"),
    }
    let negative_zero = Ratio::try_new(Dec::from_parts(0, 0, true).unwrap()).unwrap();
    assert_eq!(decimal(negative_zero.inner()), num("0"));
    assert!(matches!(Ratio::try_new(dec(num("-0.0001"))), Err(Error::RatioOutOfRange(_))));
    assert!(Ratio::try_new(dec(num("1.0000"))).is_ok());
    assert!(Ratio::try_from_decimal(dec(num("0.75"))).is_ok());
    assert!(matches!(Ratio::try_from_decimal(dec(num("2"))), Err(Error::RatioOutOfRange(_))));
}

#[test]
fn ratio_sum_within_one() {
    let parts = vec![
        Ratio::new_unchecked(dec(num("0.25"))),
        Ratio::new_unchecked(dec(num("0.5"))),
        Ratio::new_unchecked(dec(num("0.125"))),
    ];
    assert_eq!(decimal(Ratio::sum(&parts).unwrap().inner()), num("0.875"));
    assert_eq!(decimal(Ratio::sum(&vec![]).unwrap().inner()), num("0"));
}

#[test]
fn ratio_sum_above_one() {
    let parts = vec![Ratio::new_unchecked(dec(num("0.75"))), Ratio::new_unchecked(dec(num("0.5")))];
    match Ratio::sum(&parts) {
        Err(Error::RatioOutOfRange(d)) => assert_eq!(decimal(d), num("1.25")),
        _ => panic!("expected RatioOutOfRange"),
    }
}

#[test]
fn dollar_value_add_and_sum() {
    let a = DollarValue::new(dec(num("0.1")));
    let b = DollarValue::new(dec(num("0.2")));
    assert_eq!(decimal(a.add(b).inner()), num("0.3"));
    let all = vec![a, b, DollarValue::from(-1)];
    assert_eq!(decimal(DollarValue::sum(&all).inner()), num("-0.7"));
    assert_eq!(DollarValue::sum(&vec![]), DollarValue::from(0));
}

#[test]
fn dollar_value_equality_ignores_scale() {
    assert_eq!(DollarValue::new(dec(num("2.50"))), DollarValue::new(dec(num("2.5"))));
    assert_ne!(DollarValue::new(dec(num("2.51"))), DollarValue::new(dec(num("2.5"))));
    assert_eq!(DollarValue::from(7), DollarValue::from_i32(7));
}

#[test]
fn dec_parts() {
    assert!(Dec::from_parts(5, 29, false).is_none());
    assert!(Dec::from_parts(-5, 1, false).is_none());
    assert!(Dec::from_parts(79228162514264337593543950336, 0, false).is_none());
    assert!(Dec::from_parts(0, 3, true).is_some());
    let d = Dec::new(-1234, 2);
    assert_eq!(decimal(d), num("-12.34"));
    assert_eq!(decimal(d.abs()), num("12.34"));
    assert!(d.is_sign_negative());
    assert_eq!(decimal(Dec::one()), num("1"));
    assert_eq!(decimal(Dec::zero()), num("0"));
    assert_eq!(decimal(Dec::from_usize(42)), num("42"));
    assert_eq!(decimal(Dec::from_i32(-3)), num("-3"));
}

#[test]
fn running_sum_of_decimals() {
    let vals = vec![dec(num("1.005")), dec(num("2")), dec(num("-0.005"))];
    let s = sum_decimals(&vals);
    assert_eq!(decimal(s), num("3"));
    assert_eq!(s.scale, 3);
}

#[test]
fn ratio_from_negative_zero_float() {
    let r = ratio_from_f32(-0.0f32).unwrap();
    assert_eq!(decimal(r.inner()), num("0"));
}

#[test]
fn ratio_sum_of_negative_zeros() {
    let z = Ratio::try_new(Dec::from_parts(0, 3, true).unwrap()).unwrap();
    assert_eq!(decimal(Ratio::sum(&vec![z, z]).unwrap().inner()), num("0"));
}

#[test]
fn dollar_value_text() {
    assert_eq!(DollarValue::new(dec(num("12.50"))).to_string(), "12.50");
    assert_eq!(DollarValue::from(-3).to_string(), "-3");
}

#[test]
fn dollar_value_sum_that_cancels_at_the_limit() {
    let max = Decimal::MAX;
    let all = vec![DollarValue::new(dec(max)), DollarValue::new(dec(-max))];
    assert_eq!(DollarValue::sum(&all), DollarValue::from(0));
}

#[test]
fn dollar_value_from_decimal() {
    let v: DollarValue = dec(num("1.25")).into();
    assert_eq!(decimal(v.inner()), num("1.25"));
}

#[test]
fn dollar_value_add_is_exact_and_commutative() {
    let a = DollarValue::new(dec(num("7922816251426433759354395033.5")));
    let b = DollarValue::new(dec(num("0.5")));
    assert_eq!(decimal(a.add(b).inner()), num("7922816251426433759354395034"));
    assert_eq!(a.add(b), b.add(a));
}

#[test]
fn decimal_texts() {
    assert_eq!(DollarValue::new(dec(num("-12.34"))).to_string(), "-12.34");
    assert_eq!(DollarValue::new(dec(num("0.005"))).to_string(), "0.005");
    assert_eq!(DollarValue::new(dec(num("0.000"))).to_string(), "0.000");
    assert_eq!(Ratio::new_unchecked(dec(num("0"))).to_string(), "0.000");
    assert_eq!(Ratio::new_unchecked(dec(num("1"))).to_string(), "1.000");
}
