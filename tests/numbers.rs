use sindit_senml::Decimal;

fn dec(mantissa: i128, exponent: i32) -> Decimal {
    Decimal::new(mantissa, exponent).unwrap()
}

#[test]
fn new_strips_trailing_zeros() {
    let d = Decimal::new(4200, -1).unwrap();
    assert_eq!(d, Decimal { mantissa: 42, exponent: 1 });
    assert_eq!(Decimal::new(0, 7).unwrap(), Decimal { mantissa: 0, exponent: 0 });
    assert_eq!(Decimal::new(10, i32::MAX), None);
}

#[test]
fn addition_is_exact() {
    assert_eq!(dec(1, -1).add(dec(2, -1)), Some(dec(3, -1)));
    assert_eq!(dec(32, 0).add(dec(42, 0)), Some(dec(74, 0)));
    assert_eq!(dec(5, -1).add(dec(5, -1)), Some(dec(1, 0)));
    assert_eq!(dec(-15, -1).add(dec(15, -1)), Some(Decimal::zero()));
    assert_eq!(Decimal::zero().add(dec(1, 300)), Some(dec(1, 300)));
}

#[test]
fn addition_beyond_exact_range_is_taken_toward_zero() {
    assert_eq!(dec(1, 40).add(dec(1, -5)), Some(dec(1, 40)));
    assert_eq!(dec(1, 30).add(dec(1, -10)), Some(dec(1, 30)));
    assert_eq!(
        dec(i128::MAX, 0).add(dec(1, 0)),
        Some(dec(17014118346046923173168730371588410572, 1))
    );
    // In units of 10, the first where 10^39 fits, -0.5 counts for nothing.
    assert_eq!(dec(1, 39).add(dec(-5, -1)), Some(dec(1, 39)));
    assert_eq!(dec(1, 39).add(dec(-15, 0)), Some(dec(99999999999999999999999999999999999999, 1)));
    assert_eq!(dec(1, i32::MAX).add(dec(9, i32::MAX)), None);
}

#[test]
fn json_text_of_integers_and_fractions() {
    assert_eq!(dec(42, 0).to_json_text(), "42");
    assert_eq!(dec(42, 2).to_json_text(), "4200");
    assert_eq!(dec(-7, 0).to_json_text(), "-7");
    assert_eq!(dec(103, -1).to_json_text(), "10.3");
    assert_eq!(dec(-5, -3).to_json_text(), "-0.005");
    assert_eq!(Decimal::zero().to_json_text(), "0");
    assert_eq!(dec(12345678901234, -4).to_json_text(), "1234567890.1234");
}

#[test]
fn parse_reads_json_numbers() {
    assert_eq!(Decimal::parse("42"), Some(dec(42, 0)));
    assert_eq!(Decimal::parse("42.0"), Some(dec(42, 0)));
    assert_eq!(Decimal::parse("-0.005"), Some(dec(-5, -3)));
    assert_eq!(Decimal::parse("1.276020076001e+09"), Some(dec(1276020076001, -3)));
    assert_eq!(Decimal::parse("1e300"), Some(dec(1, 300)));
    assert_eq!(Decimal::parse("2.5E-3"), Some(dec(25, -4)));
    assert_eq!(Decimal::parse("97.45365320034685"), Some(dec(9745365320034685, -14)));
}

#[test]
fn parse_reads_long_integers_with_trailing_zeros() {
    let text = format!("1{}", "0".repeat(300));
    assert_eq!(Decimal::parse(&text), Some(dec(1, 300)));
    assert_eq!(Decimal::parse("1000000000000000000000000000000000000000"), Some(dec(1, 39)));
    assert_eq!(Decimal::parse("-2500.000"), Some(dec(-25, 2)));
    assert_eq!(Decimal::parse("0.000"), Some(Decimal::zero()));
}

#[test]
fn parse_rejects_what_is_not_a_number() {
    assert_eq!(Decimal::parse(""), None);
    assert_eq!(Decimal::parse("-"), None);
    assert_eq!(Decimal::parse("1."), None);
    assert_eq!(Decimal::parse(".5"), None);
    assert_eq!(Decimal::parse("1e"), None);
    assert_eq!(Decimal::parse("1e+"), None);
    assert_eq!(Decimal::parse("12a"), None);
    assert_eq!(Decimal::parse(" 1"), None);
    assert_eq!(Decimal::parse("1e2000000000"), None);
    assert_eq!(Decimal::parse("170141183460469231731687303715884105728"), None);
    assert_eq!(Decimal::parse("1701411834604692317316873037158841057271"), None);
}

#[test]
fn integral_values_round_trip_as_integer_literals() {
    for d in [
        dec(42, 0),
        dec(-42, 0),
        dec(5, 3),
        Decimal::zero(),
        dec(1234567890, 0),
        dec(1, 300),
        dec(-12345678901234567890123456789, 60),
        Decimal { mantissa: 420, exponent: -1 },
    ] {
        let text = d.to_json_text();
        assert!(!text.contains('.') && !text.contains('e'));
        let back = Decimal::parse(&text).unwrap();
        assert_eq!(Decimal::new(back.mantissa, back.exponent), Decimal::new(d.mantissa, d.exponent));
    }
    assert_eq!(Decimal { mantissa: 420, exponent: -1 }.to_json_text(), "42");
    assert_eq!(Decimal { mantissa: 1050, exponent: -2 }.to_json_text(), "10.5");
}

#[test]
fn truncate_scaled_rounds_toward_zero() {
    assert_eq!(dec(15, -1).truncate_scaled(0), Some(1));
    assert_eq!(dec(-15, -1).truncate_scaled(0), Some(-1));
    assert_eq!(dec(-10123456789, -10).truncate_scaled(9), Some(-1012345678));
    assert_eq!(dec(1, 40).truncate_scaled(9), None);
    assert_eq!(dec(1, -400).truncate_scaled(9), Some(0));
}
