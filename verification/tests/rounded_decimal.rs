use splitalign::rounded_decimal::RoundedDecimal;

fn from(value: &str) -> RoundedDecimal {
    RoundedDecimal::from_str(value).ok().unwrap()
}

#[test]
fn from_1() {
    let n = RoundedDecimal::from(1);
    assert_eq!(RoundedDecimal { value: 1, places: 0 }, n);
    assert_eq!("1", n.to_decimal_string())
}

#[test]
fn from_str_0_1() {
    let n = from("0.1");

    assert_eq!(RoundedDecimal { value: 1, places: 1 }, n);

    assert_eq!("0.1", n.to_decimal_string())
}

#[test]
fn from_str_0_10() {
    let n = from("0.10");

    assert_eq!(RoundedDecimal { value: 10, places: 2 }, n);

    assert_eq!("0.10", n.to_decimal_string())
}

#[test]
fn from_str_0_01() {
    let n = from("0.01");

    assert_eq!(RoundedDecimal { value: 1, places: 2 }, n);

    assert_eq!("0.01", n.to_decimal_string())
}

#[test]
fn from_str_1() {
    let n = from("1");

    assert_eq!(RoundedDecimal { value: 1, places: 0 }, n);

    assert_eq!("1", n.to_decimal_string())
}

#[test]
fn from_str_not_number() {
    RoundedDecimal::from_str("a").err().unwrap();
    RoundedDecimal::from_str("a.a").err().unwrap();
}

#[test]
fn from_str_too_many_dots() {
    let e = RoundedDecimal::from_str("1.2.3").err().unwrap();
    assert_eq!("Invalid dot count.", e.description);
}

#[test]
fn from_str_out_of_range() {
    RoundedDecimal::from_str("9223372036854775808").err().unwrap();
    assert_eq!(
        RoundedDecimal { value: i64::MIN, places: 0 },
        from("-9223372036854775808")
    );
}

#[test]
fn add() {
    assert_eq!(from("0.2"), from("0.1").add(from("0.1")));
}

#[test]
fn add_assign() {
    let mut value = from("0.1");
    value.add_assign(from("0.1"));
    assert_eq!(from("0.2"), value);
}

#[test]
fn sub() {
    assert_eq!(from("0.1"), from("0.2").sub(from("0.1")));
}

#[test]
fn sub_assign() {
    let mut value = from("0.2");
    value.sub_assign(from("0.1"));
    assert_eq!(from("0.1"), value);
}

#[test]
fn mul() {
    assert_eq!(from("0.2"), from("0.1").mul(from("2")));
    assert_eq!(from("0"), from("2").mul(from("0.1")));
}

#[test]
fn mul_assign() {
    let mut value = from("0.1");
    value.mul_assign(from("2"));
    assert_eq!(from("0.2"), value);
}

#[test]
fn div() {
    assert_eq!(from("0.0"), from("0.1").div(from("2")));
    assert_eq!(from("20"), from("2").div(from("0.1")));
}

#[test]
fn div_assign() {
    let mut value = from("2");
    value.div_assign(from("0.1"));
    assert_eq!(from("20"), value);
}

#[test]
fn negative_parse_and_display() {
    assert_eq!("-3", from("-3").to_decimal_string());
    // "-1.5" combines as -1 * 10 + 5: the fraction token keeps its own sign.
    assert_eq!(RoundedDecimal { value: -5, places: 1 }, from("-1.5"));
}
