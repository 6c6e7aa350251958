use json_codec::parse;
use json_codec::Generator;
use json_codec::JsonError;
use json_codec::JsonNumber;
use json_codec::JsonValue;

fn minify(v: JsonValue) -> String {
    json_codec::generator::stringify(v)
}

fn num(v: i64) -> JsonValue {
    JsonValue::Number(JsonNumber::from_i64(v))
}

fn text(s: &str) -> JsonValue {
    JsonValue::String(String::from(s))
}

fn obj(pairs: Vec<(&str, JsonValue)>) -> JsonValue {
    let mut entries: Vec<(String, JsonValue)> = Vec::new();
    for (k, v) in pairs {
        json_codec::object_insert(&mut entries, String::from(k), v);
    }
    JsonValue::Object(entries)
}

fn sample() -> JsonValue {
    obj(vec![
        ("alpha", JsonValue::Array(vec![num(1), num(-2), text("x"), JsonValue::Null])),
        ("beta", JsonValue::Boolen(false)),
        ("gamma", obj(vec![("inner", num(12300))])),
    ])
}

#[test]
fn round_trip_concrete() {
    let v = sample();
    let s = minify(sample());
    assert_eq!(parse(&s).unwrap(), v);
}

#[test]
fn stringify_idempotent_concrete() {
    let s = minify(sample());
    let again = minify(parse(&s).unwrap());
    assert_eq!(again, s);
}

#[test]
fn determinism_concrete() {
    let a = obj(vec![("x", num(1)), ("y", num(2)), ("z", num(3))]);
    let b = obj(vec![("z", num(3)), ("x", num(7)), ("y", num(2)), ("x", num(1))]);
    assert_eq!(minify(a), minify(b));
}

#[test]
fn number_grammar() {
    assert_eq!(parse("-1.23e+4").unwrap(), num(-12300));
    assert_eq!(
        parse("1.23e-4").unwrap(),
        JsonValue::Number(JsonNumber::from_decimal(false, 123, -6))
    );
    assert_eq!(parse("1.23.4").err().unwrap(), JsonError::InvalidNumber);
    assert_eq!(parse("1.23e23e").err().unwrap(), JsonError::InvalidNumber);
}

#[test]
fn number_rendering() {
    assert_eq!(minify(parse("-1.23e+4").unwrap()), "-12300");
    assert_eq!(minify(parse("1.23e-4").unwrap()), "0.000123");
    assert_eq!(minify(parse("1.5").unwrap()), "1.5");
    assert_eq!(minify(parse("-0.25").unwrap()), "-0.25");
    assert_eq!(minify(parse("0").unwrap()), "0");
}

#[test]
fn structural_errors() {
    assert!(matches!(
        parse("{\"a\":1,}").err().unwrap(),
        JsonError::UnexpectedToken(_)
    ));
    assert_eq!(
        parse("\"abc").err().unwrap(),
        JsonError::UnexpectedEndOfJson
    );
}

#[test]
fn error_variants() {
    assert_eq!(parse("").err().unwrap(), JsonError::UnexpectedEndOfJson);
    assert_eq!(parse("@").err().unwrap(), JsonError::UnexpectedCharacter('@'));
    assert!(matches!(
        parse("\"\\uD800x\"").err().unwrap(),
        JsonError::ParsingFailed(_)
    ));
    assert!(matches!(
        parse("nulx").err().unwrap(),
        JsonError::UnexpectedToken(_)
    ));
}

#[test]
fn trailing_content() {
    assert!(matches!(
        parse("1 2").err().unwrap(),
        JsonError::UnexpectedToken(_)
    ));
    assert!(parse("1   \n").is_ok());
}

#[test]
fn empty_containers() {
    assert_eq!(parse("[]").unwrap(), JsonValue::Array(vec![]));
    assert_eq!(parse("{}").unwrap(), JsonValue::Object(vec![]));
    let mut gen = Generator::new(false, 4);
    gen.write_json(&JsonValue::Array(vec![]));
    assert_eq!(gen.value(), "[]");
    let mut gen = Generator::new(false, 4);
    gen.write_json(&JsonValue::Object(vec![]));
    assert_eq!(gen.value(), "{}");
}

#[test]
fn end_to_end_example() {
    let s = r#"{"code":200,"success":true,"payload":{"features":["a","b"]}}"#;
    let v = parse(s).unwrap();
    match &v {
        JsonValue::Object(entries) => {
            assert_eq!(entries.len(), 3);
            assert_eq!(entries[0].0, "code");
            assert_eq!(entries[1].0, "payload");
            assert_eq!(entries[2].0, "success");
        },
        _ => panic!("expected an object"),
    }
    assert_eq!(
        minify(v),
        r#"{"code":200,"payload":{"features":["a","b"]},"success":true}"#
    );
}

#[test]
fn surrogate_pair_scalar() {
    let v = parse(r#""\uD834\uDD1E""#).unwrap();
    assert_eq!(v, text("\u{1D11E}"));
    assert_eq!(minify(v), "\"\u{1D11E}\"");
}

#[test]
fn escape_round_trip() {
    let original = text("\r\n\t\u{8}\u{c}\\\"");
    let s = minify(text("\r\n\t\u{8}\u{c}\\\""));
    assert_eq!(s, r#""\r\n\t\b\f\\\"""#);
    assert_eq!(parse(&s).unwrap(), original);
}

#[test]
fn dump_matches_stringify() {
    let v = sample();
    assert_eq!(v.dump(), minify(sample()));
}

#[test]
fn duplicate_keys_last_wins() {
    let v = parse(r#"{"a":1,"b":2,"a":3}"#).unwrap();
    assert_eq!(v, obj(vec![("a", num(3)), ("b", num(2))]));
}
