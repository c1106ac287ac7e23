use sindit_senml::validate_name::validate_name;

#[test]
fn test_valid_names() {
    assert!(validate_name("Sensor1"));
    assert!(validate_name("sensor-name"));
    assert!(validate_name("123Sensor"));
    assert!(validate_name("sensor_123"));
    assert!(validate_name("sensor.name/1"));
}

#[test]
fn test_invalid_names() {
    assert!(!validate_name(""));
    assert!(!validate_name("-sensor"));
    assert!(!validate_name(".name"));
    assert!(!validate_name("sensor name"));
    assert!(!validate_name("sensor@name"));
    assert!(!validate_name("センサー"));
}

#[test]
fn names_allow_every_listed_punctuation_after_the_first_character() {
    assert!(validate_name("a-b:c.d/e_f"));
    assert!(validate_name("0"));
    assert!(!validate_name("_a"));
    assert!(!validate_name("a+b"));
    assert!(!validate_name("é"));
}
