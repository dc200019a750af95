use euler::bigint::{big_combination, big_factorial, BigInt, BigIntError};

fn big(s: &str) -> BigInt {
    BigInt::parse(s).unwrap()
}

#[test]
fn bigint_parses_and_displays() {
    let x = BigInt::parse("53503534226472524250874054075591789781264330331690").unwrap();
    assert_eq!(x.to_string(), "53503534226472524250874054075591789781264330331690")
}

#[test]
fn big_decimal_adds() {
    let x = BigInt::parse("53503534226472524250874054075591789781264330331690").unwrap();
    let y = BigInt::parse("99999999999999999999999999999999999999999999999999").unwrap();

    let added = x.add(y);

    assert_eq!(added.to_string(), "153503534226472524250874054075591789781264330331689")
}

#[test]
fn big_decimal_divides() {
    let x = BigInt::parse("152343470").unwrap();
    let y = BigInt::parse("123455").unwrap();

    assert_eq!(x.div(y).unwrap().to_string(), "1234")
}

#[test]
fn big_decimal_subtracts() {
    let x = BigInt::parse("13472515").unwrap();
    let y = BigInt::parse("123455").unwrap();

    let subtracted = x.sub(y).unwrap();

    assert_eq!(subtracted.to_string(), "13349060");

    let x = BigInt::parse("370265").unwrap();
    let y = BigInt::parse("123455").unwrap();

    let subtracted = x.sub(y).unwrap();

    assert_eq!(subtracted.to_string(), "246810")
}

#[test]
fn big_decimal_multiplies() {
    let x = BigInt::parse("53503534226472524250874054075591789781264330331690").unwrap();
    let y = BigInt::parse("46376937677490009712648124896970078050417018260538").unwrap();

    let multiplied = x.mul(y);
    let multiplied_expected = "2481330072346569912167630035632199641964226368882675583064264243801754492594498702941806796377849220";

    assert_eq!(multiplied.to_string(), multiplied_expected)
}

#[test]
fn big_factorial_works() {
    let fact = big_factorial(BigInt::of(34));
    assert_eq!("295232799039604140847618609643520000000", fact.to_string())
}

#[test]
fn parse_keeps_leading_zeros() {
    assert_eq!(big("007").to_string(), "007");
    assert_eq!(big("0").to_string(), "0");
}

#[test]
fn parse_of_empty_text_is_zero() {
    let z = BigInt::parse("").unwrap();
    assert_eq!(z.to_string(), "0");
    assert!(z == BigInt::zero());
}

#[test]
fn parse_refuses_other_characters() {
    assert!(BigInt::parse("12a4").is_none());
    assert!(BigInt::parse("-5").is_none());
    assert!(BigInt::parse(" 5").is_none());
    assert!(BigInt::parse("1.0").is_none());
}

#[test]
fn of_writes_canonical_digits() {
    assert_eq!(BigInt::of(0).to_string(), "0");
    assert_eq!(BigInt::of(7).to_string(), "7");
    assert_eq!(BigInt::of(1204).to_string(), "1204");
    assert_eq!(BigInt::of(18446744073709551615).to_string(), "18446744073709551615");
}

#[test]
fn zero_renders_as_zero() {
    assert_eq!(BigInt::zero().to_string(), "0");
}

#[test]
fn addition_carries_into_new_digit() {
    assert_eq!(big("999").add(big("1")).to_string(), "1000");
    assert_eq!(big("5").add(big("5")).to_string(), "10");
    assert_eq!(big("0012").add(big("3")).to_string(), "0015");
}

#[test]
fn addition_is_commutative() {
    let a = "123456789";
    let b = "987654321987";
    assert_eq!(big(a).add(big(b)).to_string(), big(b).add(big(a)).to_string());
    assert_eq!(big(a).add(big(b)).to_string(), "987777778776");
}

#[test]
fn multiplication_is_commutative() {
    let a = "12345";
    let b = "6789";
    assert!(big(a).mul(big(b)) == big(b).mul(big(a)));
    assert_eq!(big(a).mul(big(b)).to_string(), "83810205");
}

#[test]
fn multiplication_by_zero_is_zero() {
    assert!(big("12345").mul(BigInt::zero()) == BigInt::zero());
    assert!(BigInt::zero().mul(big("12345")) == BigInt::zero());
    assert_eq!(big("12").mul(big("0")).to_string(), "00");
}

#[test]
fn adding_zero_keeps_the_number() {
    assert_eq!(big("4096").add(BigInt::zero()).to_string(), "4096");
    assert_eq!(BigInt::zero().add(BigInt::zero()).to_string(), "0");
}

#[test]
fn subtraction_then_addition_restores() {
    let a = big("1000000");
    let b = big("999999");
    let d = a.clone().sub(b.clone()).unwrap();
    assert_eq!(d.to_string(), "0000001");
    assert!(d.add(b) == a);
}

#[test]
fn subtraction_refuses_negative_result() {
    assert_eq!(BigInt::of(3).sub(BigInt::of(5)).err(), Some(BigIntError::NegativeResult));
}

#[test]
fn subtraction_of_equal_numbers_is_zero() {
    let d = big("4521").sub(big("4521")).unwrap();
    assert_eq!(d.to_string(), "0000");
    assert!(d == BigInt::zero());
}

#[test]
fn division_is_floor_division() {
    let a = big("1000");
    let b = big("7");
    let q = a.clone().div(b.clone()).unwrap();
    assert_eq!(q.to_string(), "142");
    let p = q.mul(b.clone());
    assert!(p <= a);
    assert!(a < p.add(b));
}

#[test]
fn division_of_smaller_number_is_zero() {
    let q = big("5").div(big("7")).unwrap();
    assert_eq!(q.to_string(), "0");
    assert!(q == BigInt::zero());
}

#[test]
fn division_by_zero_is_refused() {
    assert_eq!(big("5").div(BigInt::zero()).err(), Some(BigIntError::DivisionByZero));
    assert_eq!(big("5").div(big("000")).err(), Some(BigIntError::DivisionByZero));
}

#[test]
fn ordering_is_numeric() {
    assert!(big("0009") == big("9"));
    assert!(big("0010") > big("9"));
    assert!(big("8") < big("0010"));
    assert!(!(big("8") < big("8")));
    assert_eq!(big("0123").compare(&big("123")), std::cmp::Ordering::Equal);
    assert_eq!(big("99").compare(&big("100")), std::cmp::Ordering::Less);
    assert_eq!(big("101").compare(&big("100")), std::cmp::Ordering::Greater);
}

#[test]
fn factorial_of_small_numbers() {
    assert_eq!(big_factorial(BigInt::zero()).to_string(), "1");
    assert_eq!(big_factorial(BigInt::of(1)).to_string(), "1");
    assert_eq!(big_factorial(BigInt::of(5)).to_string(), "120");
    assert_eq!(big_factorial(BigInt::of(10)).to_string(), "00003628800");
    assert!(big_factorial(BigInt::of(10)) == BigInt::of(3628800));
}

#[test]
fn combination_counts_choices() {
    assert_eq!(big_combination(BigInt::of(5), BigInt::of(2)).unwrap().to_string(), "10");
    assert_eq!(big_combination(BigInt::of(6), BigInt::of(3)).unwrap().to_string(), "20");
    assert_eq!(
        big_combination(BigInt::of(2), BigInt::of(3)).err(),
        Some(BigIntError::NegativeResult)
    );
}

#[test]
fn every_value_passes_the_sanity_check() {
    assert!(big("9876543210").sanity_check());
    assert!(big("99").mul(big("99")).sanity_check());
}

#[test]
fn bigint_sums_many() {
    let items = vec![big("5"), big("0095"), big("900")];
    assert_eq!(BigInt::sum(items).to_string(), "1000");
    assert_eq!(BigInt::sum(Vec::new()).to_string(), "0");
}
