use ldk_node::json::{Json, JsonNumber};
use ldk_node::text::{from_hex, push_decimal, push_signed_decimal, to_hex};
use serde_json::Value;

fn text(s: &str) -> Json {
    Json::Text(s.to_string())
}

fn whole(n: u64) -> Json {
    Json::Number(JsonNumber::PosInt(n))
}

fn object(members: Vec<(&str, Json)>) -> Json {
    Json::Object(members.into_iter().map(|(k, v)| (k.to_string(), v)).collect())
}

/// The library's form of a value.
fn convert(value: &Value) -> Json {
    match value {
        Value::Null => Json::Null,
        Value::Bool(b) => Json::Bool(*b),
        Value::Number(n) => Json::Number(if let Some(n) = n.as_u64() {
            JsonNumber::PosInt(n)
        } else if let Some(n) = n.as_i64() {
            JsonNumber::NegInt(n)
        } else {
            JsonNumber::Binary64 { bits: n.as_f64().unwrap().to_bits(), text: n.to_string() }
        }),
        Value::String(s) => Json::Text(s.clone()),
        Value::Array(items) => Json::Array(items.iter().map(convert).collect()),
        Value::Object(members) => {
            Json::Object(members.iter().map(|(k, v)| (k.clone(), convert(v))).collect())
        }
    }
}

#[test]
fn scalars_have_their_text() {
    assert_eq!(Json::Null.to_text(), "null");
    assert_eq!(Json::Bool(true).to_text(), "true");
    assert_eq!(Json::Bool(false).to_text(), "false");
    assert_eq!(whole(0).to_text(), "0");
    assert_eq!(whole(u64::MAX).to_text(), "18446744073709551615");
    assert_eq!(
        Json::Number(JsonNumber::NegInt(i64::MIN)).to_text(),
        "-9223372036854775808"
    );
    assert_eq!(
        Json::Number(JsonNumber::Binary64 { bits: 1.5f64.to_bits(), text: "1.5".to_string() })
            .to_text(),
        "1.5"
    );
}

#[test]
fn strings_are_quoted_and_escaped() {
    assert_eq!(text("fee").to_text(), "\"fee\"");
    assert_eq!(
        text("a\"b\\c\u{8}\t\n\u{c}\r\u{1}\u{1f}\u{7f}\u{20ac}/").to_text(),
        "\"a\\\"b\\\\c\\b\\t\\n\\f\\r\\u0001\\u001f\u{7f}\u{20ac}/\""
    );
}

#[test]
fn nested_values_have_compact_text() {
    let value = Json::Array(vec![
        text("Insufficient data or no feerate found"),
        object(vec![("code", whole(3)), ("more", Json::Array(vec![]))]),
        object(vec![]),
        Json::Null,
    ]);
    assert_eq!(
        value.to_text(),
        "[\"Insufficient data or no feerate found\",{\"code\":3,\"more\":[]},{},null]"
    );
}

#[test]
fn text_is_that_of_serde_json() {
    for source in [
        "[\"Insufficient data or no feerate found\"]",
        "{\"b\":[1,-2,3.25,1e300,0.00001],\"a\":{\"x\":null,\"y\":[true,false,\"\\u0000\\\"\"]}}",
        "[[],{},[[]],\"\\u00e9\\ud83d\\ude00\"]",
    ] {
        let value: Value = serde_json::from_str(source).unwrap();
        assert_eq!(convert(&value).to_text(), value.to_string());
    }
}

#[test]
fn members_are_found_by_name() {
    let value = object(vec![("time", whole(5)), ("height", whole(7))]);
    assert_eq!(value.member("height"), Some(&whole(7)));
    assert_eq!(value.member("heigh"), None);
    assert_eq!(text("time").member("time"), None);
    assert_eq!(Json::Array(vec![value]).member("time"), None);
}

#[test]
fn only_integers_that_are_not_negative_are_u64() {
    assert_eq!(whole(5).as_u64(), Some(5));
    assert_eq!(Json::Number(JsonNumber::NegInt(-5)).as_u64(), None);
    assert_eq!(Json::Number(JsonNumber::NegInt(5)).as_u64(), Some(5));
    assert_eq!(
        Json::Number(JsonNumber::Binary64 { bits: 5f64.to_bits(), text: "5.0".to_string() })
            .as_u64(),
        None
    );
    assert_eq!(text("5").as_u64(), None);
}

#[test]
fn numbers_are_written_in_decimal() {
    for n in [0, 9, 10, 99, 100, 18446744073709551615u64] {
        let mut out = "n=".to_string();
        push_decimal(&mut out, n);
        assert_eq!(out, format!("n={}", n));
    }
    for n in [0, -1, 7, i64::MIN, i64::MAX] {
        let mut out = String::new();
        push_signed_decimal(&mut out, n);
        assert_eq!(out, n.to_string());
    }
}

#[test]
fn bytes_are_written_in_hexadecimal() {
    assert_eq!(to_hex(&[]), "");
    assert_eq!(to_hex(&[0x00, 0x0f, 0xa9, 0xff]), "000fa9ff");
    let all: Vec<u8> = (0..=255).collect();
    assert_eq!(from_hex(&to_hex(&all)), Some(all));
    assert_eq!(from_hex(""), Some(vec![]));
    assert_eq!(from_hex("aAbF09"), Some(vec![0xaa, 0xbf, 0x09]));
    for text in ["a", "abc", "0x", "g0", "0G", "/0", ":0", "@0", "`0", "\u{661}0"] {
        assert_eq!(from_hex(text), None, "{}", text);
    }
}
