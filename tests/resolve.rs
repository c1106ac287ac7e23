use sindit_senml::resolve::{resolve_records, resolve_value};
use sindit_senml::time::Timestamp;
use sindit_senml::{Decimal, SenMLRecord, SenMLResolvedRecord, SenMLValueField, SinditSenMLError};

fn dec(mantissa: i128, exponent: i32) -> Decimal {
    Decimal::new(mantissa, exponent).unwrap()
}

fn empty_record() -> SenMLRecord {
    SenMLRecord::empty()
}

fn base_record() -> SenMLRecord {
    let mut r = SenMLRecord::empty();
    r.base_name = Some(String::from("abcd-"));
    r.base_time = Some(dec(1234567890, 0));
    r.base_unit = Some(String::from("Cel"));
    r.base_value = Some(dec(10, 0));
    r.base_sum = Some(dec(20, 0));
    r.base_version = Some(10);
    r
}

fn now() -> Timestamp {
    let t = chrono::Utc::now();
    Timestamp::new(t.timestamp(), t.timestamp_subsec_nanos()).unwrap()
}

fn extras(pairs: &[(&str, serde_json::Value)]) -> Vec<(String, serde_json::Value)> {
    pairs.iter().map(|(k, v)| (k.to_string(), v.clone())).collect()
}

#[test]
fn test_resolve_value_simple() {
    assert!(resolve_value(&empty_record(), &None, 0).unwrap().is_none());

    let mut record = empty_record();
    record.value = Some(dec(42, 0));
    assert_eq!(
        resolve_value(&record, &None, 0).unwrap().unwrap(),
        SenMLValueField::FloatingPoint(dec(42, 0))
    );

    let mut record = empty_record();
    record.string_value = Some("Hello world!".to_string());
    assert_eq!(
        resolve_value(&record, &None, 0).unwrap().unwrap(),
        SenMLValueField::StringValue("Hello world!".to_string())
    );

    let mut record = empty_record();
    record.bool_value = Some(true);
    assert_eq!(
        resolve_value(&record, &None, 0).unwrap().unwrap(),
        SenMLValueField::BooleanValue(true)
    );

    let mut record = empty_record();
    record.bool_value = Some(false);
    assert_eq!(
        resolve_value(&record, &None, 0).unwrap().unwrap(),
        SenMLValueField::BooleanValue(false)
    );

    let mut record = empty_record();
    record.data_value = Some("SGVsbG8gd29ybGQh".to_string());
    assert_eq!(
        resolve_value(&record, &None, 0).unwrap().unwrap(),
        SenMLValueField::DataValue("Hello world!".as_bytes().to_vec())
    );
}

#[test]
fn test_resolve_value_base_value() {
    let mut record = empty_record();
    record.base_value = Some(dec(10, 0)); // ignored: the context's base value counts
    assert!(resolve_value(&record, &None, 0).unwrap().is_none());

    assert_eq!(
        resolve_value(&record, &Some(dec(10, 0)), 0).unwrap().unwrap(),
        SenMLValueField::FloatingPoint(dec(10, 0))
    );

    let mut record = empty_record();
    record.base_value = Some(dec(10, 0));
    record.value = Some(dec(42, 0));
    assert_eq!(
        resolve_value(&record, &Some(dec(32, 0)), 0).unwrap().unwrap(),
        SenMLValueField::FloatingPoint(dec(74, 0))
    );
}

#[test]
fn test_resolve_value_failures() {
    let mut record = empty_record();
    record.value = Some(dec(42, 0));
    record.string_value = Some("Hello world!".to_string());
    assert!(resolve_value(&record, &None, 0).is_err());

    let mut record = empty_record();
    record.value = Some(dec(42, 0));
    record.bool_value = Some(true);
    assert!(resolve_value(&record, &None, 0).is_err());

    let mut record = empty_record();
    record.string_value = Some("Hello world!".to_string());
    record.bool_value = Some(true);
    assert!(resolve_value(&record, &None, 0).is_err());

    let mut record = empty_record();
    record.value = Some(dec(42, 0));
    record.data_value = Some("SGVsbG8gd29ybGQh".to_string());
    assert!(resolve_value(&record, &None, 0).is_err());

    let mut record = empty_record();
    record.bool_value = Some(true);
    record.data_value = Some("SGVsbG8gd29ybGQh".to_string());
    assert!(resolve_value(&record, &None, 0).is_err());

    let mut record = empty_record();
    record.data_value = Some("    ".to_string());
    assert!(resolve_value(&record, &None, 0).is_err());
}

#[test]
fn value_errors_name_their_kind_and_index() {
    let mut record = empty_record();
    record.string_value = Some("x".to_string());
    record.data_value = Some("eA".to_string());
    assert_eq!(
        resolve_value(&record, &None, 3),
        Err(SinditSenMLError::OnlyOneValuePerRecord(3))
    );
    let mut record = empty_record();
    record.data_value = Some("SGVsbG8gd29ybGQh==".to_string());
    assert_eq!(resolve_value(&record, &None, 2), Err(SinditSenMLError::InvalidBase64Value(2)));
    let mut record = empty_record();
    record.data_value = Some("a+b/".to_string());
    assert_eq!(resolve_value(&record, &None, 0), Err(SinditSenMLError::InvalidBase64Value(0)));
    let mut record = empty_record();
    record.value = Some(dec(1, -10));
    assert_eq!(
        resolve_value(&record, &Some(dec(1, 30)), 4),
        Ok(Some(SenMLValueField::FloatingPoint(dec(1, 30))))
    );
    let mut record = empty_record();
    record.value = Some(dec(1, i32::MAX));
    assert_eq!(
        resolve_value(&record, &Some(dec(9, i32::MAX)), 4),
        Err(SinditSenMLError::ValueOutOfRange(4))
    );
}

#[test]
fn lib_test_empty() {
    assert_eq!(
        Vec::new() as Vec<SenMLResolvedRecord>,
        resolve_records(Vec::new(), now()).unwrap()
    );
}

#[test]
fn test_single_base_recodr() {
    let data = vec![base_record()];
    assert!(resolve_records(data, now()).is_ok());
}

#[test]
fn test_two_identical_base_records() {
    let data = vec![base_record(), base_record()];
    assert!(resolve_records(data, now()).is_ok());
}

#[test]
fn test_second_record_uses_different_version() {
    let mut second_record = base_record();
    second_record.base_version = Some(12);
    let data = vec![base_record(), second_record];
    assert!(matches!(
        resolve_records(data, now()).unwrap_err(),
        SinditSenMLError::DifferentBaseVersion
    ));
}

#[test]
fn test_name_concatenation() {
    let mut second_record = base_record();
    second_record.name = Some("efgh".to_string());
    let data = vec![base_record(), second_record];
    let resolved_data = resolve_records(data, now()).unwrap();
    assert_eq!(resolved_data[0].name, "abcd-");
    assert_eq!(resolved_data[1].name, "abcd-efgh");
}

#[test]
fn test_missing_name() {
    let mut first_record = empty_record();
    first_record.name = Some("efgh".to_string());
    first_record.value = Some(dec(10, 0));
    let mut second_record = empty_record();
    second_record.value = Some(dec(10, 0));
    let data = vec![first_record, second_record];
    assert!(matches!(
        resolve_records(data, now()).unwrap_err(),
        SinditSenMLError::MissingName(1)
    ));
}

#[test]
fn test_invalid_name() {
    let mut first_record = empty_record();
    first_record.name = Some("   ".to_string());
    first_record.value = Some(dec(10, 0));
    let data = vec![first_record];
    assert!(matches!(
        resolve_records(data, now()).unwrap_err(),
        SinditSenMLError::InvalidNameInRecord(0)
    ));
}

#[test]
fn test_units() {
    let mut second_record = base_record();
    second_record.unit = Some("F".to_string());
    let data = vec![base_record(), second_record];
    let resolved_data = resolve_records(data, now()).unwrap();
    assert_eq!(resolved_data[0].unit, Some("Cel".to_string()));
    assert_eq!(resolved_data[1].unit, Some("F".to_string()));
}

#[test]
fn test_basetime() {
    let mut first_record = empty_record();
    first_record.time = Some(dec(11111111111, -1));
    first_record.name = Some("efgh".to_string());
    first_record.value = Some(dec(10, 0));
    let mut second_record = base_record();
    second_record.base_time = Some(dec(22222222222, -1));
    let mut third_record = empty_record();
    third_record.time = Some(dec(33333333333, -1));
    let data = vec![first_record, second_record, third_record];
    let resolved_data = resolve_records(data, now()).unwrap();
    assert_eq!(resolved_data[0].time.timestamp(), 1111111111);
    assert_eq!(resolved_data[1].time.timestamp(), 2222222222);
    assert_eq!(resolved_data[2].time.timestamp(), 5555555555);
}

#[test]
fn lib_test_relative_time() {
    let mut first_record = base_record();
    first_record.base_time = None;
    let mut second_record = empty_record();
    second_record.time = Some(dec(12, 0));
    let data = vec![first_record, second_record];
    let now = now();
    let resolved_data = resolve_records(data, now).unwrap();
    assert_eq!(resolved_data[0].time.timestamp(), now.timestamp());
    assert_eq!(resolved_data[1].time.timestamp(), now.timestamp() + 12);
}

#[test]
fn test_invalid_time() {
    // A time far beyond the years that can be held.
    let mut first_record = empty_record();
    first_record.time = Some(dec(1, 30));
    first_record.name = Some("efgh".to_string());
    first_record.value = Some(dec(10, 0));
    let data = vec![first_record];
    assert!(matches!(
        resolve_records(data, now()).unwrap_err(),
        SinditSenMLError::InvalidTimeInRecord(0)
    ));
}

#[test]
fn test_sum() {
    let mut first_record = empty_record();
    first_record.name = Some("efgh".to_string());
    first_record.sum = Some(dec(5, 0));
    let mut second_record = base_record();
    second_record.base_sum = Some(dec(10, 0));
    let mut third_record = empty_record();
    third_record.sum = Some(dec(20, 0));
    let data = vec![first_record, second_record, third_record];
    let resolved_data = resolve_records(data, now()).unwrap();
    assert_eq!(resolved_data[0].sum, Some(dec(5, 0)));
    assert_eq!(resolved_data[1].sum, Some(dec(10, 0)));
    assert_eq!(resolved_data[2].sum, Some(dec(30, 0)));
}

#[test]
fn test_missing_value_or_sum() {
    let mut record = empty_record();
    record.name = Some("efgh".to_string());
    let data = vec![record];
    let resolved_data = resolve_records(data, now());
    assert_eq!(
        resolved_data.unwrap()[0].value,
        Some(SenMLValueField::FloatingPoint(Decimal::zero()))
    );
}

#[test]
fn test_two_value_fields() {
    let mut record = empty_record();
    record.name = Some("efgh".to_string());
    record.value = Some(dec(10, 0));
    record.string_value = Some("Hello world!".to_string());
    let data = vec![record];
    assert!(matches!(
        resolve_records(data, now()).unwrap_err(),
        SinditSenMLError::OnlyOneValuePerRecord(0)
    ));
}

#[test]
fn test_no_units_is_fine() {
    let mut record = empty_record();
    record.name = Some("efgh".to_string());
    record.value = Some(dec(10, 0));
    record.unit = None;
    assert!(resolve_records(vec![record], now()).is_ok());
}

#[test]
fn test_extra_fields_are_preserved() {
    let mut record = base_record();
    record.extra_fields = Some(extras(&[("extra_field", serde_json::Value::String("extra_value".to_string()))]));
    let resolved_data = resolve_records(vec![record], now()).unwrap();
    assert_eq!(
        resolved_data[0].extra_fields,
        Some(extras(&[("extra_field", serde_json::Value::String("extra_value".to_string()))]))
    );
}

#[test]
fn test_empty_extra_fields_are_skipped() {
    let mut record = base_record();
    record.extra_fields = Some(Vec::new());
    let resolved_data = resolve_records(vec![record], now()).unwrap();
    assert_eq!(resolved_data[0].extra_fields, None);
}

#[test]
fn test_resolver_helpers() {
    let mut records = resolve_records(vec![base_record()], now()).unwrap();
    let mut record = records.pop().unwrap();
    assert_eq!(record.get_bool_value(), None);
    assert_eq!(record.get_string_value(), None);
    assert_eq!(record.get_data_value(), None);
    assert_eq!(record.get_float_value(), Some(dec(10, 0)));
    record.value = Some(SenMLValueField::BooleanValue(true));
    assert_eq!(record.get_bool_value(), Some(true));
    assert_eq!(record.get_string_value(), None);
    assert_eq!(record.get_data_value(), None);
    assert_eq!(record.get_float_value(), None);
    record.value = Some(SenMLValueField::StringValue("Hello world!".to_string()));
    assert_eq!(record.get_bool_value(), None);
    assert_eq!(record.get_string_value(), Some(&"Hello world!".to_string()));
    assert_eq!(record.get_data_value(), None);
    assert_eq!(record.get_float_value(), None);
    record.value = Some(SenMLValueField::DataValue(Vec::from("Hello world!".as_bytes())));
    assert_eq!(record.get_bool_value(), None);
    assert_eq!(record.get_string_value(), None);
    assert_eq!(record.get_data_value(), Some(&Vec::from("Hello world!".as_bytes())));
    assert_eq!(record.get_float_value(), None);
    record.value = Some(SenMLValueField::FloatingPoint(dec(10, 0)));
    assert_eq!(record.get_bool_value(), None);
    assert_eq!(record.get_string_value(), None);
    assert_eq!(record.get_data_value(), None);
    assert_eq!(record.get_float_value(), Some(dec(10, 0)));
}

#[test]
fn test_zero_version_number() {
    let mut record = base_record();
    record.base_version = Some(0);
    assert!(matches!(
        resolve_records(vec![record], now()).unwrap_err(),
        SinditSenMLError::InvalidVersionNumber
    ));
}

#[test]
fn base_fields_persist_until_overridden() {
    let mut first = base_record();
    first.name = Some("a".to_string());
    let mut second = empty_record();
    second.name = Some("b".to_string());
    let mut third = empty_record();
    third.base_name = Some("x-".to_string());
    third.name = Some("c".to_string());
    let mut fourth = empty_record();
    fourth.name = Some("d".to_string());
    let out = resolve_records(vec![first, second, third, fourth], now()).unwrap();
    assert_eq!(out[1].name, "abcd-b");
    assert_eq!(out[1].unit, Some("Cel".to_string()));
    assert_eq!(out[1].time.timestamp(), 1234567890);
    assert_eq!(out[2].name, "x-c");
    assert_eq!(out[3].name, "x-d");
    assert_eq!(out[3].unit, Some("Cel".to_string()));
    assert_eq!(out[3].get_float_value(), Some(dec(10, 0)));
    assert_eq!(out[3].sum, Some(dec(20, 0)));
}

#[test]
fn same_version_twice_is_kept_and_emitted() {
    let mut first = base_record();
    first.base_version = Some(12);
    let mut second = empty_record();
    second.base_version = Some(12);
    let out = resolve_records(vec![first, second], now()).unwrap();
    assert_eq!(out[0].base_version, Some(12));
    assert_eq!(out[1].base_version, Some(12));
}

#[test]
fn a_later_version_conflicts_with_the_implicit_default() {
    let mut first = empty_record();
    first.name = Some("a".to_string());
    let mut second = empty_record();
    second.name = Some("b".to_string());
    second.base_version = Some(12);
    assert_eq!(
        resolve_records(vec![first, second], now()),
        Err(SinditSenMLError::DifferentBaseVersion)
    );
}

#[test]
fn every_pair_of_value_kinds_is_refused() {
    for pair in 0..6 {
        let mut record = empty_record();
        record.name = Some("n".to_string());
        let (a, b) = [(0, 1), (0, 2), (0, 3), (1, 2), (1, 3), (2, 3)][pair];
        for kind in [a, b] {
            match kind {
                0 => record.value = Some(dec(1, 0)),
                1 => record.string_value = Some("s".to_string()),
                2 => record.bool_value = Some(true),
                _ => record.data_value = Some("AA".to_string()),
            }
        }
        assert_eq!(
            resolve_records(vec![record], now()),
            Err(SinditSenMLError::OnlyOneValuePerRecord(0))
        );
    }
}

#[test]
fn default_value_is_zero_without_sum() {
    let mut record = empty_record();
    record.name = Some("n".to_string());
    let out = resolve_records(vec![record], now()).unwrap();
    assert_eq!(out[0].value, Some(SenMLValueField::FloatingPoint(Decimal::zero())));
    assert_eq!(out[0].sum, None);
}

#[test]
fn a_sum_alone_leaves_the_value_absent() {
    let mut record = empty_record();
    record.name = Some("n".to_string());
    record.sum = Some(dec(3, 0));
    let out = resolve_records(vec![record], now()).unwrap();
    assert_eq!(out[0].value, None);
    assert_eq!(out[0].sum, Some(dec(3, 0)));
}

#[test]
fn base_name_and_default_time_scenario() {
    let mut first = empty_record();
    first.base_name = Some("abcd-".to_string());
    first.base_time = Some(dec(1234567890, 0));
    first.base_version = Some(10);
    let mut second = empty_record();
    second.name = Some("efgh".to_string());
    let out = resolve_records(vec![first, second], now()).unwrap();
    assert_eq!(out.len(), 2);
    assert_eq!(out[0].name, "abcd-");
    assert_eq!(out[0].time, Timestamp::new(1234567890, 0).unwrap());
    assert_eq!(out[0].get_float_value(), Some(Decimal::zero()));
    assert_eq!(out[0].base_version, None);
    assert_eq!(out[1].name, "abcd-efgh");
    assert_eq!(out[1].time, Timestamp::new(1234567890, 0).unwrap());
    assert_eq!(out[1].get_float_value(), Some(Decimal::zero()));
}

#[test]
fn value_plus_base_beyond_exact_range_is_rounded() {
    let mut record = empty_record();
    record.name = Some("n".to_string());
    record.base_value = Some(dec(1, 30));
    record.value = Some(dec(1, -10));
    let out = resolve_records(vec![record], now()).unwrap();
    assert_eq!(out[0].get_float_value(), Some(dec(1, 30)));
}

#[test]
fn non_canonical_integral_value_is_written_as_integer() {
    let mut record = empty_record();
    record.name = Some("n".to_string());
    record.value = Some(Decimal { mantissa: 420, exponent: -1 });
    let out = resolve_records(vec![record], now()).unwrap();
    let fields = out[0].wire_fields();
    assert_eq!(fields[1].0, "v");
    assert_eq!(fields[1].1, sindit_senml::wire::WireValue::Number("42".to_string()));
}

#[test]
fn first_error_stops_resolution() {
    let mut first = empty_record();
    first.name = Some("bad name".to_string());
    let second = empty_record();
    assert_eq!(
        resolve_records(vec![first, second], now()),
        Err(SinditSenMLError::InvalidNameInRecord(0))
    );
}

#[test]
fn sum_beyond_exponent_range_is_refused() {
    let mut record = empty_record();
    record.name = Some("n".to_string());
    record.base_sum = Some(dec(5, i32::MAX));
    record.sum = Some(dec(5, i32::MAX));
    assert_eq!(
        resolve_records(vec![record], now()),
        Err(SinditSenMLError::ValueOutOfRange(0))
    );
}

#[test]
fn repeating_a_base_field_in_force_changes_nothing() {
    let now = now();
    let mut second = empty_record();
    second.name = Some("x".to_string());
    let mut repeated = second.clone();
    repeated.base_unit = Some("Cel".to_string());
    repeated.base_value = Some(dec(10, 0));
    let plain = resolve_records(vec![base_record(), second], now).unwrap();
    let restated = resolve_records(vec![base_record(), repeated], now).unwrap();
    assert_eq!(plain, restated);
}
