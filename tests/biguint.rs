use euler::biguint::BigDecimal;

#[test]
fn biguint_parses_and_displays() {
    assert_eq!(
        BigDecimal::parse("53503534226472524250874054075591789781264330331690").unwrap().to_string(),
        "53503534226472524250874054075591789781264330331690"
    )
}

#[test]
fn big_decimal_parses_and_adds() {
    let x = BigDecimal::parse("53503534226472524250874054075591789781264330331690").unwrap();
    let y = BigDecimal::parse("46376937677490009712648124896970078050417018260538").unwrap();

    let added = x.add(y);

    assert_eq!(added.to_string(), "99880471903962533963522178972561867831681348592228")
}

#[test]
fn big_decimal_carries_into_new_digit() {
    let x = BigDecimal::parse("999").unwrap();
    let y = BigDecimal::parse("1").unwrap();
    assert_eq!(x.add(y).to_string(), "1000");
}

#[test]
fn big_decimal_zero_and_bad_text() {
    assert_eq!(BigDecimal::zero().to_string(), "0");
    assert_eq!(BigDecimal::parse("").unwrap().to_string(), "0");
    assert!(BigDecimal::parse("12x").is_none());
}

#[test]
fn big_decimal_sums_many() {
    let items = vec![
        BigDecimal::parse("1").unwrap(),
        BigDecimal::parse("99").unwrap(),
        BigDecimal::parse("900").unwrap(),
    ];
    assert_eq!(BigDecimal::sum(items).to_string(), "1000");
    assert_eq!(BigDecimal::sum(Vec::new()).to_string(), "0");
}
