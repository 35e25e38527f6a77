use aa_engine::json::{json_value_wf, values_equal, JsonNumber, JsonValue};
use aa_engine::number::compare_numbers;
use aa_engine::ron_subset::parse_ron_subset;

fn s(t: &str) -> JsonValue {
    JsonValue::String(t.to_string())
}

fn num(n: u64) -> JsonValue {
    JsonValue::Number(JsonNumber::PosInt(n))
}

fn obj(entries: Vec<(&str, JsonValue)>) -> JsonValue {
    JsonValue::Object(entries.into_iter().map(|(k, v)| (k.to_string(), v)).collect())
}

fn assert_json(actual: &JsonValue, expected: &JsonValue) {
    assert!(values_equal(actual, expected), "got {actual:?}, expected {expected:?}");
}

#[test]
fn parses_named_struct_as_object() {
    let text = r#"TagDictionary(
        schema_version: 1,
        tags: [
            "State.Stunned",
            "Damage.Fire",
        ],
    )"#;
    let v = parse_ron_subset(text).expect("parse");
    assert_json(
        &v,
        &obj(vec![
            ("schema_version", num(1)),
            ("tags", JsonValue::Array(vec![s("State.Stunned"), s("Damage.Fire")])),
        ]),
    );
}

#[test]
fn parses_tuples_words_and_numbers() {
    let v = parse_ron_subset("(1, -2, 1.5e3, true, false, None, Idle, \"a\\n\\\"b\")").expect("parse");
    assert_json(
        &v,
        &JsonValue::Array(vec![
            num(1),
            JsonValue::Number(JsonNumber::NegInt(-2)),
            JsonValue::Number(JsonNumber::Float("1.5e3".to_string())),
            JsonValue::Bool(true),
            JsonValue::Bool(false),
            JsonValue::Null,
            s("Idle"),
            s("a\n\"b"),
        ]),
    );
    assert_json(&parse_ron_subset("()").expect("unit"), &obj(vec![]));
    assert_json(&parse_ron_subset("// comment\n [ ] // end").expect("array"), &JsonValue::Array(vec![]));
}

#[test]
fn object_keys_are_kept_sorted_and_last_wins() {
    let v = parse_ron_subset("(b: 1, a: 2, b: 3)").expect("parse");
    assert_json(&v, &obj(vec![("a", num(2)), ("b", num(3))]));
}

#[test]
fn reports_errors_with_byte_offsets() {
    assert_eq!(parse_ron_subset("").unwrap_err().message, "Unexpected end of RON");
    assert_eq!(parse_ron_subset("1 2").unwrap_err().message, "Unexpected token at byte 2");
    assert_eq!(parse_ron_subset("é@").unwrap_err().message, "Unsupported token 'é' at byte 0");
    assert_eq!(parse_ron_subset("[1, @]").unwrap_err().message, "Unsupported token '@' at byte 4");
    assert_eq!(parse_ron_subset("\"abc").unwrap_err().message, "Unterminated string");
    assert_eq!(parse_ron_subset("\"a\\q\"").unwrap_err().message, "Unsupported string escape '\\q'");
    assert_eq!(parse_ron_subset("-").unwrap_err().message, "Expected number at byte 0");
    assert_eq!(
        parse_ron_subset("99999999999999999999").unwrap_err().message,
        "Invalid integer literal \"99999999999999999999\""
    );
    assert_eq!(parse_ron_subset("(a: 1").unwrap_err().message, "Expected identifier at byte 5");
}

#[test]
fn numbers_compare_by_value() {
    let a = JsonNumber::Float("1.50".to_string());
    let b = JsonNumber::Float("15e-1".to_string());
    assert_eq!(compare_numbers(&a, &b), 0);
    assert_eq!(compare_numbers(&JsonNumber::PosInt(2), &JsonNumber::Float("1.999".to_string())), 1);
    assert_eq!(compare_numbers(&JsonNumber::NegInt(-3), &JsonNumber::PosInt(0)), -1);
}

#[test]
fn float_literals_must_be_finite_f64() {
    assert!(parse_ron_subset("1.7976931348623157e308").is_ok());
    assert!(parse_ron_subset("1e-400").is_ok());
    assert_eq!(parse_ron_subset("1e400").unwrap_err().message, "Invalid float literal \"1e400\"");
    assert_eq!(parse_ron_subset("-1.8e308").unwrap_err().message, "Invalid float literal \"-1.8e308\"");
    assert_eq!(parse_ron_subset("1e").unwrap_err().message, "Invalid float literal \"1e\"");
}

#[test]
fn parsed_values_are_valid_and_invalid_ones_are_found() {
    let parsed = parse_ron_subset(r#"(z: 1, a: [(y: 2, b: 3)], m: "x")"#).expect("parses");
    assert!(json_value_wf(&parsed));
    let unordered = JsonValue::Object(vec![("b".to_string(), num(1)), ("a".to_string(), num(2))]);
    assert!(!json_value_wf(&unordered));
    let repeated = JsonValue::Object(vec![("a".to_string(), num(1)), ("a".to_string(), num(2))]);
    assert!(!json_value_wf(&repeated));
    let nested = JsonValue::Array(vec![num(1), JsonValue::Object(vec![("b".to_string(), s("x")), ("a".to_string(), num(2))])]);
    assert!(!json_value_wf(&nested));
    assert!(json_value_wf(&JsonValue::Object(vec![("a".to_string(), num(1)), ("b".to_string(), num(2))])));
}
