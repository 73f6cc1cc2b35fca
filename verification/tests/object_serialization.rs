use fjson_fmt_engine::{Formatter, JsonValue, NumberListAlignment};
use serde_json::Value;

/// The library's model of a `serde_json` value.
fn to_json_value(v: &Value) -> JsonValue {
    match v {
        Value::Null => JsonValue::Null,
        Value::Bool(b) => JsonValue::Bool(*b),
        Value::Number(n) => JsonValue::Number(n.to_string()),
        Value::String(s) => JsonValue::String(s.clone()),
        Value::Array(items) => JsonValue::Array(items.iter().map(to_json_value).collect()),
        Value::Object(map) => JsonValue::Object(
            map.iter()
                .map(|(k, v)| (k.clone(), to_json_value(v)))
                .collect(),
        ),
    }
}

fn object(props: Vec<(&str, Value)>) -> Value {
    let mut map = serde_json::Map::new();
    for (k, v) in props {
        map.insert(k.to_string(), v);
    }
    Value::Object(map)
}

#[test]
fn matches_native_stringify_when_minimized() {
    let simple_cases: Vec<Value> = vec![
        Value::Null,
        Value::from("shoehorn with teeth"),
        Value::from(18),
        Value::Array(vec![]),
        object(vec![]),
        Value::Bool(true),
        Value::from(""),
        object(vec![
            ("a", Value::from("foo")),
            ("b", Value::Bool(false)),
            ("c", Value::from(0)),
        ]),
        Value::Array(vec![
            Value::Array(vec![Value::from(1), Value::from(2), Value::Null]),
            Value::Array(vec![Value::from(4), Value::Null, Value::from(6)]),
            object(vec![
                ("x", Value::from(7)),
                ("y", Value::from(8)),
                ("z", Value::from(9)),
            ]),
        ]),
    ];

    for element in simple_cases {
        let native_minified = serde_json::to_string(&element).unwrap();
        let mut formatter = Formatter::new();
        formatter.options.number_list_alignment = NumberListAlignment::Left;
        let nicely_formatted = formatter
            .serialize_value(&to_json_value(&element), 0, 100)
            .unwrap();

        let fj_minified = formatter.minify(&nicely_formatted).unwrap();
        assert_eq!(fj_minified, native_minified);
    }
}

#[test]
fn throws_if_recursion_limit_exceeded() {
    let mut value = Value::Array(vec![]);
    for _ in 0..10 {
        value = Value::Array(vec![value]);
    }

    let mut formatter = Formatter::new();
    let result = formatter.serialize_value(&to_json_value(&value), 0, 5);
    assert!(result.is_err());
}

#[test]
fn handles_sparse_arrays() {
    let arr: Vec<Option<&str>> = vec![Some("val1"), None, None, Some("val2")];
    let value = serde_json::to_value(&arr).unwrap();

    let mut formatter = Formatter::new();
    let nice = formatter
        .serialize_value(&to_json_value(&value), 0, 100)
        .unwrap();
    assert_eq!(nice, "[\"val1\", null, null, \"val2\"]\n");
}

#[test]
fn string_literals_escape_as_serde_json_does() {
    let q = fjson_fmt_engine::convert::quote_json_string("a\"b\\c\n\t\u{1}\u{7f}é");
    assert_eq!(q, "\"a\\\"b\\\\c\\n\\t\\u0001\u{7f}é\"");
    assert_eq!(q, serde_json::to_string("a\"b\\c\n\t\u{1}\u{7f}é").unwrap());
}
