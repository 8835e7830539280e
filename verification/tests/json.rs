use codex_account_switcher::json::{canonical, parse, parse_bytes, pretty, Json, JsonNumber};

#[test]
fn values_come_and_go_unchanged() {
    let text = r#"{"b":[1,-2,2.5,true,null,"xA"],"a":{"z":1,"y":18446744073709551615}}"#;
    let json = parse(text).unwrap();
    let outside: serde_json::Value = serde_json::from_str(text).unwrap();
    assert_eq!(json.to_value(), outside);
    assert_eq!(Json::from_value(outside), json);
    assert_eq!(json.clone(), json);
    assert_eq!(
        canonical(&json),
        r#"{"a":{"y":18446744073709551615,"z":1},"b":[1,-2,2.5,true,null,"xA"]}"#
    );
    assert_eq!(parse_bytes(&pretty(&json).unwrap()).unwrap(), json);
}

#[test]
fn members_are_found_by_name() {
    let json = parse(r#"{"a":{"b":"c"},"d":[1]}"#).unwrap();
    assert_eq!(json.get("a").unwrap().get("b").unwrap().as_str(), Some("c"));
    assert_eq!(json.at("a", "b").unwrap().as_str(), Some("c"));
    assert!(json.at("a", "x").is_none());
    assert!(json.at("d", "0").is_none());
    assert!(json.get("x").is_none());
    assert!(parse("[]").unwrap().get("a").is_none());
    assert!(json.is_object());
    assert!(!json.is_null());
    assert!(parse("null").unwrap().is_null());
}

#[test]
fn the_last_of_two_members_counts() {
    let json = parse(r#"{"a":1,"a":2}"#).unwrap();
    assert_eq!(json.get("a").unwrap().as_u64(), Some(2));
    assert_eq!(canonical(&json), r#"{"a":2}"#);
}

#[test]
fn numbers_are_told_apart() {
    let big = parse("18446744073709551615").unwrap();
    assert_eq!(big.as_u64(), Some(u64::MAX));
    assert_eq!(big.as_i64(), None);
    let negative = parse("-9223372036854775808").unwrap();
    assert_eq!(negative.as_u64(), None);
    assert_eq!(negative.as_i64(), Some(i64::MIN));
    let double = parse("2.0").unwrap();
    assert_eq!(double.as_u64(), None);
    assert_eq!(double.as_i64(), None);
    let number = match double {
        Json::Number(number) => number,
        _ => panic!("not a number"),
    };
    assert_eq!(number.double_bits(), Some(2.0f64.to_bits()));
    assert_eq!(JsonNumber::Signed(7).as_u64(), Some(7));
    assert_eq!(JsonNumber::Signed(-7).as_u64(), None);
    assert_eq!(JsonNumber::Unsigned(7).as_i64(), Some(7));
    assert_eq!(JsonNumber::Unsigned(7).double_bits(), None);
    assert_eq!(JsonNumber::Unsigned(7).to_outside(), serde_json::Number::from(7u64));
    assert_eq!(JsonNumber::Signed(-7).to_outside(), serde_json::Number::from(-7i64));
    assert_eq!(number.clone(), number);
}

#[test]
fn errors_have_the_words_of_the_parser() {
    let expected = serde_json::from_str::<serde_json::Value>("{").unwrap_err().to_string();
    assert_eq!(parse("{").unwrap_err(), expected);
    let expected = serde_json::from_slice::<serde_json::Value>(b"\xff").unwrap_err().to_string();
    assert_eq!(parse_bytes(b"\xff").unwrap_err(), expected);
}

#[test]
fn deep_values_are_read_up_to_the_limit() {
    let deep = format!("{}{}", "[".repeat(127), "]".repeat(127));
    let json = parse(&deep).unwrap();
    assert_eq!(parse_bytes(&pretty(&json).unwrap()).unwrap(), json);
    let too_deep = format!("{}{}", "[".repeat(128), "]".repeat(128));
    assert!(parse(&too_deep).is_err());
}

#[test]
fn every_double_that_is_written_can_be_read() {
    let mut doubles = vec![5e-324, 2.2250738585072014e-308, 1e16, 0.1, -0.0, 1e308, 1e-308];
    for k in 0..1000 {
        doubles.push(f64::from_bits(f64::MAX.to_bits() - k));
        doubles.push(f64::from_bits(k));
    }
    for double in doubles {
        let value = Json::from_value(serde_json::Value::from(double));
        assert!(parse_bytes(&pretty(&value).unwrap()).is_ok(), "{}", double);
        assert!(parse(&canonical(&value)).is_ok(), "{}", double);
    }
}
