use sindit_senml::time::{convert_senml_time, datetime_to_timestamp, Timestamp};
use sindit_senml::Decimal;

fn dec(mantissa: i128, exponent: i32) -> Decimal {
    Decimal::new(mantissa, exponent).unwrap()
}

/// The exact value of a finite `f64`, as a decimal.
fn exact(f: f64) -> Decimal {
    let bits = f.to_bits();
    let sign: i128 = if bits >> 63 == 1 { -1 } else { 1 };
    let biased = ((bits >> 52) & 0x7ff) as i32;
    let fraction = (bits & ((1u64 << 52) - 1)) as i128;
    let (mut m, mut e2) = if biased == 0 {
        (fraction, -1074)
    } else {
        (fraction | (1i128 << 52), biased - 1075)
    };
    while e2 < 0 && m % 2 == 0 && m != 0 {
        m /= 2;
        e2 += 1;
    }
    if e2 >= 0 {
        return Decimal::new(sign * m * (1i128 << e2), 0).unwrap();
    }
    // m * 2^e2 == m * 5^(-e2) * 10^e2
    let k = -e2;
    let mut v = m;
    for _ in 0..k {
        v = v.checked_mul(5).unwrap();
    }
    Decimal::new(sign * v, e2).unwrap()
}

fn at(seconds: i64, nanos: u32) -> Timestamp {
    Timestamp::new(seconds, nanos).unwrap()
}

fn now() -> Timestamp {
    let t = chrono::Utc::now();
    at(t.timestamp(), t.timestamp_subsec_nanos())
}

#[test]
fn test_absolute_time() {
    let time = 1320078429;
    let expected = Timestamp::new(time, 0);
    let result = convert_senml_time(dec(time as i128, 0), now());
    assert!(result.is_some());
    assert_eq!(result.unwrap(), expected.unwrap());
}

#[test]
fn test_absolute_subseconds_time() {
    let time = exact(1234567890.1234567890f64);
    let expected = Timestamp::new(1234567890, 123456716);
    let result = convert_senml_time(time, now());
    assert!(result.is_some());
    assert_eq!(result.unwrap(), expected.unwrap());
}

#[test]
fn time_test_relative_time() {
    let time = 10;
    let now = at(10_0000, 0);
    let expected = at(10_0000 + time, 0);
    let result = convert_senml_time(dec(time as i128, 0), now);
    assert!(result.is_some());
    assert_eq!(result.unwrap(), expected);
}

#[test]
fn test_negative_relative_time() {
    let time = -10;
    let now = now();
    let expected = at(now.seconds - 10, now.nanos);
    let result = convert_senml_time(dec(time, 0), now);
    assert!(result.is_some());
    assert_eq!(result.unwrap(), expected);
}

#[test]
fn test_relative_subseconds_time() {
    let time = dec(-101234567890, -10);
    let now = at(10_0000, 0);
    // 100000 s - 10 s - 123456789 ns
    let expected = at(10_0000 - 11, 1_000_000_000 - 123456789);
    let result = convert_senml_time(time, now);
    assert!(result.is_some());
    assert_eq!(result.unwrap(), expected);
}

#[test]
fn test_datetime_to_timestamp() {
    let datetime = at(1234567890, 123456789);
    let (timestamp, precise_timestamp) = datetime_to_timestamp(&datetime);
    assert_eq!(timestamp, 1234567890);
    assert_eq!(precise_timestamp, Some(dec(1234567890123456789, -9)));
    let precise: f64 = precise_timestamp.unwrap().to_json_text().parse().unwrap();
    assert_eq!(precise, timestamp as f64 + 0.1234567890f64);

    // The f64 nearest to 1234567890.123456789 lies below it.
    let result = convert_senml_time(exact(1234567890.123456789), now());
    let unprecise_datetime = Timestamp::new(1234567890, 123456716).unwrap();
    assert_eq!(result.unwrap(), unprecise_datetime);
}

#[test]
fn whole_seconds_have_no_precise_form() {
    let (timestamp, precise) = datetime_to_timestamp(&at(1234567890, 0));
    assert_eq!(timestamp, 1234567890);
    assert_eq!(precise, None);
}

#[test]
fn threshold_value_is_absolute() {
    let now = at(1_000_000, 0);
    let result = convert_senml_time(dec(268435456, 0), now).unwrap();
    assert_eq!(result, at(268435456, 0));
}

#[test]
fn just_below_threshold_is_relative() {
    let now = at(1_000_000, 0);
    let result = convert_senml_time(dec(268435455999, -3), now).unwrap();
    assert_eq!(result, at(1_000_000 + 268435455, 999_000_000));
}

#[test]
fn subsecond_part_is_truncated_toward_zero() {
    let now = at(1_000, 0);
    // 0.9 ns is below one nanosecond: nothing is added; 1.9 ns adds one.
    assert_eq!(convert_senml_time(dec(9, -10), now).unwrap(), now);
    assert_eq!(convert_senml_time(dec(19, -10), now).unwrap(), at(1_000, 1));
    // -1.5 s moves back one and a half seconds.
    assert_eq!(convert_senml_time(dec(-15, -1), now).unwrap(), at(998, 500_000_000));
}

#[test]
fn out_of_range_time_is_rejected() {
    let now = at(1_000, 0);
    assert_eq!(convert_senml_time(dec(1, 20), now), None);
    assert_eq!(convert_senml_time(dec(-1, 20), now), None);
    assert!(Timestamp::new(8_210_266_876_799, 0).is_some());
    assert!(Timestamp::new(8_210_266_876_800, 0).is_none());
    assert!(Timestamp::new(-8_334_601_228_800, 0).is_some());
    assert!(Timestamp::new(-8_334_601_228_801, 0).is_none());
    assert!(Timestamp::new(0, 1_000_000_000).is_none());
}
