use receipt_split::decimal::Dec;
use receipt_split::error::Error;
use receipt_split::receipt::dollar_value::DollarValue;
use receipt_split::receipt::ratio::Ratio;
use receipt_split::receipt::{Item, Receipt, UserSplit, UserSplitResult};
use rust_decimal::Decimal;

fn dec(d: Decimal) -> Dec {
    Dec::from_parts(d.mantissa(), d.scale(), d.is_sign_negative()).unwrap()
}

fn decimal(d: Dec) -> Decimal {
    let mut x = Decimal::from_i128_with_scale(d.mantissa, d.scale);
    x.set_sign_negative(d.negative);
    x
}

fn num(s: &str) -> Decimal {
    s.parse::<Decimal>().unwrap()
}

fn dollars_from_f32(v: f32) -> Result<DollarValue, Error> {
    DollarValue::try_from_converted(Decimal::try_from(v).ok().map(dec))
}

fn ratio_from_f32(v: f32) -> Result<Ratio, Error> {
    Ratio::try_from_converted(Decimal::try_from(v).ok().map(dec))
}

fn user(name: &str, ratio: Ratio) -> UserSplit {
    UserSplit { username: name.to_string(), ratio }
}

fn result(name: &str, amount: DollarValue) -> UserSplitResult {
    UserSplitResult { username: name.to_string(), amount }
}

fn values(results: &[UserSplitResult]) -> Vec<Decimal> {
    results.iter().map(|r| decimal(r.value())).collect()
}

#[test]
fn receipt_items_add_to_correct_subtotal() -> Result<(), Error> {
    let items = vec![
        Item::new("foo".to_string(), DollarValue::from(1)),
        Item::new("bar".to_string(), DollarValue::new(dec(num("2")))),
    ];
    let total = DollarValue::from(3);
    let receipt = Receipt::try_new(items, total)?;
    assert_eq!(receipt.names(), vec!["foo".to_string(), "bar".to_string()]);
    Ok(())
}

#[test]
fn receipt_items_as_array() -> Result<(), Error> {
    let items = [
        Item::new("foo".to_string(), DollarValue::from(1)),
        Item::new("bar".to_string(), DollarValue::new(dec(num("2")))),
    ];
    let total = DollarValue::from(3);
    let receipt = Receipt::try_new(Vec::from(items), total)?;
    assert_eq!(receipt.names(), vec!["foo".to_string(), "bar".to_string()]);
    Ok(())
}

#[test]
fn receipt_split_flow() -> Result<(), Error> {
    let items = vec![Item::new("nothing".to_string(), dollars_from_f32(20f32)?)];
    let total = DollarValue::from(20);
    let receipt = Receipt::try_new(items, total)?;

    let user_splits = vec![user("A", ratio_from_f32(0.6)?), user("B", ratio_from_f32(0.4)?)];

    let splits = receipt.split(user_splits)?;
    assert_eq!(splits[0].username, "A");
    assert_eq!(decimal(splits[0].value()), num("12"));
    assert_eq!(splits[1].username, "B");
    assert_eq!(decimal(splits[1].value()), num("8"));
    Ok(())
}

#[test]
fn split_sum_too_small() -> Result<(), Error> {
    let items = vec![];
    let total = DollarValue::from(0);
    let receipt = Receipt::try_new(items, total)?;

    let user_splits = vec![user("A", ratio_from_f32(0.5)?), user("B", ratio_from_f32(0.4)?)];

    assert!(matches!(receipt.split(user_splits), Err(Error::RatioSumNotOne(_))));
    Ok(())
}

#[test]
fn split_sum_too_large() -> Result<(), Error> {
    let items = vec![];
    let total = dollars_from_f32(0.)?;
    let receipt = Receipt::try_new(items, total)?;

    let user_splits = [user("A", ratio_from_f32(0.5)?), user("B", ratio_from_f32(0.6)?)];

    assert!(matches!(receipt.split(Vec::from(user_splits)), Err(Error::RatioSumNotOne(_))));
    Ok(())
}

#[test]
fn split_has_extra_cents() -> Result<(), Error> {
    let items = vec![Item::new("test".to_string(), 1.into())];
    let total = DollarValue::from(1);
    let receipt = Receipt::try_new(items, total)?;

    let third = 1f32 / 3f32;
    let user_splits = vec![
        user("A", ratio_from_f32(third)?),
        user("B", ratio_from_f32(third)?),
        user("C", ratio_from_f32(third)?),
    ];

    assert_eq!(
        values(&receipt.split(user_splits)?),
        [num("0.34"), num("0.33"), num("0.33")]
    );
    Ok(())
}

#[test]
fn get_extra_cents() -> Result<(), Error> {
    let receipt = Receipt { items: vec![], total: DollarValue::from(1) };

    let split_results = [
        result("A", dollars_from_f32(0.33)?),
        result("B", dollars_from_f32(0.33)?),
        result("C", dollars_from_f32(0.33)?),
    ];
    let extra_value = receipt.get_extra_value(&Vec::from(split_results));
    assert_eq!(extra_value, dollars_from_f32(0.01)?);

    let split_results = [result("A", dollars_from_f32(0.5)?), result("B", dollars_from_f32(0.5)?)];
    let extra_value = receipt.get_extra_value(&Vec::from(split_results));
    assert_eq!(extra_value, DollarValue::from(0));
    Ok(())
}

#[test]
fn validate_full_ratio() -> Result<(), Error> {
    let ratios = [Ratio::new_unchecked(dec(num("0.1"))), Ratio::new_unchecked(dec(num("0.2")))];
    let result = Receipt::validate_full_ratio(Vec::from(ratios));
    assert!(matches!(result, Err(Error::RatioSumNotOne(_))));

    let ratios = [Ratio::new_unchecked(dec(num("0.8"))), Ratio::new_unchecked(dec(num("0.2")))];
    Receipt::validate_full_ratio(Vec::from(ratios))?;
    Ok(())
}

#[test]
fn try_new_reports_total_mismatch() {
    let items = vec![
        Item::new("foo".to_string(), DollarValue::new(dec(num("1.25")))),
        Item::new("bar".to_string(), DollarValue::new(dec(num("2.5")))),
    ];
    match Receipt::try_new(items, DollarValue::from(4)) {
        Err(Error::TotalMismatch { got, expected }) => {
            assert_eq!(decimal(got.inner()), num("3.75"));
            assert_eq!(expected, DollarValue::from(4));
        }
        _ => panic!("expected a total mismatch"),
    }
}

#[test]
fn try_new_accepts_equal_total_at_another_scale() {
    let items = vec![Item::new("foo".to_string(), DollarValue::new(dec(num("1.50"))))];
    let receipt = Receipt::try_new(items, DollarValue::new(dec(num("1.5")))).unwrap();
    assert_eq!(receipt.names(), vec!["foo".to_string()]);
    assert_eq!(decimal(receipt.total.inner()), num("1.5"));
}

#[test]
fn empty_receipt_has_zero_total() {
    assert!(Receipt::try_new(vec![], DollarValue::from(0)).is_ok());
    assert!(matches!(
        Receipt::try_new(vec![], DollarValue::from(1)),
        Err(Error::TotalMismatch { .. })
    ));
}

#[test]
fn split_amounts_add_up_to_total() {
    let receipt = Receipt { items: vec![], total: DollarValue::new(dec(num("100.00"))) };
    let splits = vec![
        user("A", Ratio::new_unchecked(dec(num("0.3333333")))),
        user("B", Ratio::new_unchecked(dec(num("0.3333333")))),
        user("C", Ratio::new_unchecked(dec(num("0.3333334")))),
    ];
    let out = receipt.split(splits).unwrap();
    assert_eq!(values(&out), [num("33.34"), num("33.33"), num("33.33")]);
    let sum: Decimal = values(&out).iter().sum();
    assert_eq!(sum, num("100"));
}

#[test]
fn split_hands_cents_to_the_first() {
    let receipt = Receipt { items: vec![], total: DollarValue::new(dec(num("0.03"))) };
    let quarter = Ratio::new_unchecked(dec(num("0.25")));
    let splits = vec![user("A", quarter), user("B", quarter), user("C", quarter), user("D", quarter)];
    let out = receipt.split(splits).unwrap();
    assert_eq!(values(&out), [num("0.01"), num("0.01"), num("0.01"), num("0")]);
    let names: Vec<String> = out.iter().map(|r| r.username.clone()).collect();
    assert_eq!(names, vec!["A", "B", "C", "D"]);
}

#[test]
fn split_of_negative_total_loses_the_cent() {
    let receipt = Receipt { items: vec![], total: DollarValue::new(dec(num("-0.01"))) };
    let half = Ratio::new_unchecked(dec(num("0.5")));
    let out = receipt.split(vec![user("A", half), user("B", half)]).unwrap();
    assert_eq!(values(&out), [num("0"), num("0")]);
}

#[test]
fn split_within_epsilon_is_accepted() {
    let receipt = Receipt { items: vec![], total: DollarValue::from(10) };
    let splits = vec![
        user("A", Ratio::new_unchecked(dec(num("0.5")))),
        user("B", Ratio::new_unchecked(dec(num("0.4999995")))),
    ];
    let out = receipt.split(splits).unwrap();
    assert_eq!(values(&out), [num("5.01"), num("4.99")]);
}

#[test]
fn split_refusal_carries_the_ratios() {
    let receipt = Receipt { items: vec![], total: DollarValue::from(10) };
    let splits = vec![user("A", Ratio::new_unchecked(dec(num("0.7"))))];
    match receipt.split(splits) {
        Err(Error::RatioSumNotOne(ratios)) => {
            assert_eq!(ratios.len(), 1);
            assert_eq!(decimal(ratios[0].inner()), num("0.7"));
        }
        _ => panic!("expected RatioSumNotOne"),
    }
}

#[test]
fn validate_full_ratio_edges() {
    let ok = vec![Ratio::new_unchecked(dec(num("0.999999")))];
    assert!(Receipt::validate_full_ratio(ok).is_ok());
    let short = vec![Ratio::new_unchecked(dec(num("0.9999989")))];
    assert!(matches!(Receipt::validate_full_ratio(short), Err(Error::RatioSumNotOne(_))));
    let over = vec![Ratio::new_unchecked(dec(num("1"))), Ratio::new_unchecked(dec(num("0.0000001")))];
    assert!(matches!(Receipt::validate_full_ratio(over), Err(Error::RatioSumNotOne(_))));
    assert!(matches!(Receipt::validate_full_ratio(vec![]), Err(Error::RatioSumNotOne(_))));
}

#[test]
fn distribute_extra_value_hands_out_whole_cents() {
    let results = vec![
        result("A", DollarValue::new(dec(num("0.33")))),
        result("B", DollarValue::new(dec(num("0.33")))),
        result("C", DollarValue::new(dec(num("0.32")))),
    ];
    let out = Receipt::distribute_extra_value(results, dec(num("0.02")));
    assert_eq!(values(&out), [num("0.34"), num("0.34"), num("0.32")]);
}

#[test]
fn distribute_extra_value_drops_the_even_share() {
    let results = vec![
        result("A", DollarValue::new(dec(num("1")))),
        result("B", DollarValue::new(dec(num("2")))),
    ];
    // 0.05 / 2 = 0.025, cut to 0.02; 0.03 is left, so both get one cent
    let out = Receipt::distribute_extra_value(results, dec(num("0.05")));
    assert_eq!(values(&out), [num("1.01"), num("2.01")]);
}

#[test]
fn distribute_extra_value_ignores_negative_extra() {
    let results = vec![result("A", DollarValue::new(dec(num("1"))))];
    let out = Receipt::distribute_extra_value(results, dec(num("-0.05")));
    assert_eq!(values(&out), [num("1")]);
}

#[test]
fn distribute_extra_value_ignores_fractions_of_a_cent() {
    let results = vec![result("A", DollarValue::new(dec(num("1")))), result("B", DollarValue::new(dec(num("1"))))];
    let out = Receipt::distribute_extra_value(results, dec(num("0.009")));
    assert_eq!(values(&out), [num("1"), num("1")]);
    assert_eq!(out[1].username, "B");
}

#[test]
fn get_extra_value_can_be_negative() {
    let receipt = Receipt { items: vec![], total: DollarValue::from(1) };
    let results = vec![result("A", DollarValue::new(dec(num("0.75")))), result("B", DollarValue::new(dec(num("0.5"))))];
    let extra = receipt.get_extra_value(&results);
    assert_eq!(decimal(extra.inner()), num("-0.25"));
    let none = receipt.get_extra_value(&vec![]);
    assert_eq!(none, DollarValue::from(1));
}

#[test]
fn user_split_result_value_is_its_amount() {
    let r = UserSplitResult::new("Z".to_string(), DollarValue::new(dec(num("7.07"))));
    assert_eq!(decimal(r.value()), num("7.07"));
    let s = UserSplit::new("Y".to_string(), Ratio::new_unchecked(dec(num("0.5"))));
    assert_eq!(s.username, "Y");
    assert_eq!(decimal(s.ratio.inner()), num("0.5"));
}

#[test]
fn add_cents_to_the_first_results() {
    let results = vec![
        result("A", DollarValue::new(dec(num("1.5")))),
        result("B", DollarValue::new(dec(num("2")))),
        result("C", DollarValue::new(dec(num("3")))),
    ];
    let out = Receipt::add_cents(results.clone(), 2);
    assert_eq!(values(&out), [num("1.51"), num("2.01"), num("3")]);
    let all = Receipt::add_cents(results, 10);
    assert_eq!(values(&all), [num("1.51"), num("2.01"), num("3.01")]);
    let names: Vec<String> = all.iter().map(|r| r.username.clone()).collect();
    assert_eq!(names, vec!["A", "B", "C"]);
}

#[test]
fn split_with_ratios_just_below_one_can_miss_a_cent() {
    let receipt = Receipt { items: vec![], total: DollarValue::new(dec(num("0.04"))) };
    let r = Ratio::new_unchecked(dec(num("0.4999999")));
    let out = receipt.split(vec![user("A", r), user("B", r)]).unwrap();
    assert_eq!(values(&out), [num("0.02"), num("0.01")]);
}

#[test]
fn split_of_total_with_fractions_of_a_cent() {
    let receipt = Receipt { items: vec![], total: DollarValue::new(dec(num("0.001"))) };
    let out = receipt.split(vec![user("A", Ratio::new_unchecked(dec(num("1"))))]).unwrap();
    assert_eq!(values(&out), [num("0")]);
}

#[test]
fn try_new_with_values_that_cancel_at_the_limit() {
    let items = vec![
        Item::new("max".to_string(), DollarValue::new(dec(Decimal::MAX))),
        Item::new("min".to_string(), DollarValue::new(dec(Decimal::MIN))),
    ];
    let receipt = Receipt::try_new(items, DollarValue::from(0)).unwrap();
    assert_eq!(receipt.names(), vec!["max".to_string(), "min".to_string()]);
}

#[test]
fn split_of_whole_cents_written_with_more_places() {
    let receipt = Receipt { items: vec![], total: DollarValue::new(dec(num("1.000"))) };
    let splits = vec![
        user("A", Ratio::new_unchecked(dec(num("0.3333333")))),
        user("B", Ratio::new_unchecked(dec(num("0.3333333")))),
        user("C", Ratio::new_unchecked(dec(num("0.3333334")))),
    ];
    let out = receipt.split(splits).unwrap();
    assert_eq!(values(&out), [num("0.34"), num("0.33"), num("0.33")]);
    let sum: Decimal = values(&out).iter().sum();
    assert_eq!(sum, num("1"));
}

#[test]
fn split_of_the_largest_total() {
    let receipt = Receipt { items: vec![], total: DollarValue::new(dec(Decimal::MAX)) };
    let out = receipt.split(vec![user("A", Ratio::new_unchecked(dec(num("1"))))]).unwrap();
    assert_eq!(values(&out), [Decimal::MAX]);
}

#[test]
fn split_gives_equal_ratios_shares_a_cent_apart() {
    let receipt = Receipt { items: vec![], total: DollarValue::new(dec(num("10.00"))) };
    let third = Ratio::new_unchecked(dec(num("0.25")));
    let half = Ratio::new_unchecked(dec(num("0.5")));
    let out = receipt.split(vec![user("A", third), user("B", half), user("C", third)]).unwrap();
    assert_eq!(values(&out), [num("2.5"), num("5.0"), num("2.5")]);
    let receipt = Receipt { items: vec![], total: DollarValue::new(dec(num("0.05"))) };
    let out = receipt.split(vec![user("A", third), user("B", half), user("C", third)]).unwrap();
    assert_eq!(values(&out), [num("0.02"), num("0.02"), num("0.01")]);
}

#[test]
fn distribute_extra_value_ignores_just_under_a_cent() {
    let results = vec![result("A", DollarValue::new(dec(num("1"))))];
    let out = Receipt::distribute_extra_value(results, dec(num("0.0099999")));
    assert_eq!(values(&out), [num("1")]);
}

#[test]
fn distribute_extra_value_ignores_a_large_negative_extra() {
    let results = vec![result("A", DollarValue::new(dec(num("1")))), result("B", DollarValue::new(dec(num("2"))))];
    let out = Receipt::distribute_extra_value(results, dec(num("-100000000000000000000000.05")));
    assert_eq!(values(&out), [num("1"), num("2")]);
}

#[test]
fn distribute_extra_value_never_gives_more_than_the_extra() {
    let results = vec![
        result("A", DollarValue::new(dec(num("1")))),
        result("B", DollarValue::new(dec(num("1")))),
        result("C", DollarValue::new(dec(num("1")))),
        result("D", DollarValue::new(dec(num("1")))),
    ];
    // 0.035 / 4 cuts to 0.00, leaving 3.5 cents: three whole cents go out
    let out = Receipt::distribute_extra_value(results, dec(num("0.035")));
    assert_eq!(values(&out), [num("1.01"), num("1.01"), num("1.01"), num("1")]);
}

#[test]
fn split_with_ratios_just_below_one_still_adds_up() {
    let receipt = Receipt { items: vec![], total: DollarValue::new(dec(num("100"))) };
    let r = Ratio::new_unchecked(dec(num("0.3333332")));
    let out = receipt.split(vec![user("A", r), user("B", r), user("C", r)]).unwrap();
    assert_eq!(values(&out), [num("33.34"), num("33.33"), num("33.33")]);
    let sum: Decimal = values(&out).iter().sum();
    assert_eq!(sum, num("100"));
}

#[test]
fn split_treats_equal_ratios_at_other_scales_alike() {
    let receipt = Receipt { items: vec![], total: DollarValue::new(dec(num("0.05"))) };
    let a = Ratio::new_unchecked(dec(num("0.25")));
    let b = Ratio::new_unchecked(dec(num("0.500")));
    let c = Ratio::new_unchecked(dec(num("0.2500")));
    let out = receipt.split(vec![user("A", a), user("B", b), user("C", c)]).unwrap();
    assert_eq!(values(&out), [num("0.02"), num("0.02"), num("0.01")]);
}
