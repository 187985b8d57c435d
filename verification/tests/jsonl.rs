use clipring::jsonl::{encode, escape, parse, Value};

#[test]
fn encodes_all_value_kinds() {
    let line = encode(&[
        ("id", Value::UInt(7)),
        ("pin", Value::Bool(false)),
        ("data", Value::Str("aGk=".into())),
    ]);
    assert_eq!(line, r#"{"id":7,"pin":false,"data":"aGk="}"#);
}

#[test]
fn escape_covers_control_and_quote_chars() {
    assert_eq!(escape("a\"b\\c\nd\te\u{1}"), "a\\\"b\\\\c\\nd\\te\\u0001");
}

#[test]
fn round_trips_awkward_strings() {
    for s in [
        "",
        "plain",
        "line1\nline2",
        "\"quoted\" \\ back",
        "汉字 🎉",
        "\t\r",
    ] {
        let line = encode(&[("v", Value::Str(s.into()))]);
        let map = parse(&line).unwrap();
        assert_eq!(map.get("v").unwrap().as_str(), Some(s), "input {s:?}");
    }
}

#[test]
fn parses_object_with_whitespace() {
    let map = parse(" { \"a\" : 1 , \"b\" : true } ").unwrap();
    assert_eq!(map.get("a").unwrap().as_uint(), Some(1));
    assert_eq!(map.get("b").unwrap().as_bool(), Some(true));
}

#[test]
fn parses_empty_object() {
    assert!(parse("{}").unwrap().is_empty());
}

#[test]
fn parses_unicode_escapes_and_surrogate_pairs() {
    let map = parse(r#"{"v":"é🎉"}"#).unwrap();
    assert_eq!(map.get("v").unwrap().as_str(), Some("é🎉"));
}

#[test]
fn rejects_lone_high_surrogate() {
    assert!(parse(r#"{"v":"\ud83c"}"#).is_err());
}

#[test]
fn rejects_damaged_or_foreign_json() {
    for bad in [
        r#"{"a":1}{"b":2}"#,
        r#"{"a":{}}"#,
        r#"{"a":[1]}"#,
        r#"{"a":null}"#,
        r#"{"a":1.5}"#,
        r#"{"a":-3}"#,
        r#"{"a":"oops}"#,
    ] {
        assert!(parse(bad).is_err(), "accepted damaged line: {bad}");
    }
}

#[test]
fn u64_boundary_survives() {
    let line = encode(&[("t", Value::UInt(u64::MAX))]);
    assert_eq!(parse(&line).unwrap().get("t").unwrap().as_uint(), Some(u64::MAX));
}

#[test]
fn parse_of_encode_gives_back_every_member_in_order() {
    let fields = [
        ("s", Value::Str("tab\there \u{7} \u{1f} é 🎉 \"q\" \\".into())),
        ("n", Value::UInt(0)),
        ("big", Value::UInt(18_446_744_073_709_551_615)),
        ("yes", Value::Bool(true)),
        ("no", Value::Bool(false)),
        ("", Value::Str(String::new())),
    ];
    let map = parse(&encode(&fields)).unwrap();
    assert_eq!(map.len(), fields.len());
    for (k, v) in fields.iter() {
        assert_eq!(map.get(k), Some(v));
    }
}

#[test]
fn surrogate_pair_escapes_decode_to_one_character() {
    let map = parse(r#"{"v":"\ud83c\udf89 \u00e9 \u0041"}"#).unwrap();
    assert_eq!(map.get("v").unwrap().as_str(), Some("🎉 é A"));
}

#[test]
fn a_repeated_key_keeps_the_last_value() {
    let map = parse(r#"{"a":1,"a":2}"#).unwrap();
    assert_eq!(map.len(), 1);
    assert_eq!(map.get("a").unwrap().as_uint(), Some(2));
}

#[test]
fn parse_errors_name_the_problem() {
    assert_eq!(parse("").unwrap_err(), "expected '{', got None");
    assert_eq!(parse(r#"{"a":1.5}"#).unwrap_err(), "floats are not valid in history records");
    assert_eq!(parse(r#"{"a":1} x"#).unwrap_err(), "trailing bytes at offset 8");
    assert_eq!(
        parse(r#"{"a":18446744073709551616}"#).unwrap_err(),
        "bad integer: number too large to fit in target type"
    );
    assert_eq!(parse(r#"{"a":"oops}"#).unwrap_err(), "unterminated string");
}

#[test]
fn accessors_only_answer_for_their_own_kind() {
    let s = Value::Str("x".into());
    assert_eq!(s.as_str(), Some("x"));
    assert_eq!(s.as_uint(), None);
    assert_eq!(s.as_bool(), None);
    assert_eq!(Value::UInt(3).as_uint(), Some(3));
    assert_eq!(Value::Bool(true).as_str(), None);
}
