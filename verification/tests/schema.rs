use aa_engine::json::{JsonNumber, JsonValue};
use aa_engine::ron_subset::parse_ron_subset;
use aa_engine::schema_subset::{
    is_project_relative_path, json_type_name, matches_string_pattern, resolve_ref, type_matches, validate_schema,
    validate_schema_with_fuel, json_document,
};

fn j(text: &str) -> JsonValue {
    parse_ron_subset(text).expect("fixture parses")
}

fn check(schema: &JsonValue, value: &JsonValue) -> Result<(), String> {
    validate_schema(schema, value, schema, "$").map_err(|e| e.message)
}

#[test]
fn accepts_valid_documents() {
    let schema = j(r#"(type: "object", required: ["id"], properties: (id: (type: "string", minLength: 1), n: (type: "integer", minimum: 0)))"#);
    assert_eq!(check(&schema, &j(r#"(id: "x", n: 3)"#)), Ok(()));
}

#[test]
fn reports_violations() {
    let schema = j(r#"(type: "object", required: ["id"], additionalProperties: false, properties: (id: (type: "string")))"#);
    assert_eq!(check(&schema, &j("(other: 1)")), Err("$: missing required key \"id\"".to_string()));
    assert_eq!(check(&schema, &j(r#"(id: "a", zz: 1)"#)), Err("$: unexpected keys [\"zz\"]".to_string()));
    assert_eq!(check(&schema, &j("(id: 5)")), Err("$.id: expected type \"string\", got integer".to_string()));
    let items = j(r#"(type: "array", items: (type: "integer", maximum: 3), maxItems: 2)"#);
    assert_eq!(check(&items, &j("[1, 4]")), Err("$[1]: 4 > maximum 3".to_string()));
    assert_eq!(check(&items, &j("[1, 2, 3]")), Err("$: array longer than maxItems 2".to_string()));
    let unique = j("(uniqueItems: true)");
    assert_eq!(check(&unique, &j("[1, 2, 1]")), Err("$: array items are not unique".to_string()));
    let pattern = j(r#"(pattern: "^[a-z]+$")"#);
    assert_eq!(check(&pattern, &j(r#""abc""#)), Ok(()));
    assert_eq!(check(&pattern, &j(r#""ab1""#)), Err("$: string does not match pattern \"^[a-z]+$\": \"ab1\"".to_string()));
}

#[test]
fn follows_local_refs_and_one_of() {
    let schema = j(r##"(defs: (name: (type: "string")), oneOf: [("$ref": "#/defs/name"), (type: "integer")])"##);
    assert_eq!(check(&schema, &j(r#""x""#)), Ok(()));
    assert_eq!(check(&schema, &j("7")), Ok(()));
    assert!(check(&schema, &j("true")).unwrap_err().starts_with("$: expected exactly one oneOf match, got 0."));
    assert!(resolve_ref("#/defs/name", &schema).is_ok());
    assert_eq!(
        resolve_ref("#/defs/missing", &schema).unwrap_err().message,
        "unresolved $ref \"#/defs/missing\""
    );
    assert_eq!(
        resolve_ref("other.json", &schema).unwrap_err().message,
        "unsupported $ref \"other.json\"; only local refs are supported"
    );
}

#[test]
fn pattern_helpers() {
    assert!(is_project_relative_path("assets/a.ron"));
    assert!(!is_project_relative_path("/abs"));
    assert!(!is_project_relative_path("a/../b"));
    assert_eq!(matches_string_pattern("^(?!/)(?!.*\\.\\.)(?!.*\\\\).+$", "a/b"), Ok(true));
    assert_eq!(matches_string_pattern("^$|^(?!/)(?!.*\\.\\.)(?!.*\\\\).+$", ""), Ok(true));
    assert_eq!(
        matches_string_pattern("(?!x)", "x").unwrap_err().message,
        "unsupported look-around pattern \"(?!x)\""
    );
    assert!(matches_string_pattern("(", "x").unwrap_err().message.starts_with("invalid schema pattern \"(\": "));
    assert_eq!(matches_string_pattern("b+", "abbc"), Ok(true));
}

#[test]
fn type_names() {
    assert!(type_matches("integer", &JsonValue::Number(JsonNumber::NegInt(-1))));
    assert!(!type_matches("integer", &JsonValue::Number(JsonNumber::Float("1.5".to_string()))));
    assert!(type_matches("number", &JsonValue::Number(JsonNumber::Float("1.5".to_string()))));
    assert_eq!(json_type_name(&JsonValue::Null), "null");
    assert_eq!(json_type_name(&JsonValue::Number(JsonNumber::PosInt(u64::MAX))), "number");
    assert_eq!(json_type_name(&JsonValue::Array(vec![])), "array");
}

#[test]
fn numbers_compare_by_value_within_their_kind() {
    let one_of = j("(enum: [1.5, 2])");
    assert_eq!(check(&one_of, &j("1.50")), Ok(()));
    assert_eq!(check(&one_of, &j("2")), Ok(()));
    assert!(check(&one_of, &j("2.0")).is_err());
    let fixed = j("(const: 1)");
    assert_eq!(check(&fixed, &j("1")), Ok(()));
    assert!(check(&fixed, &j("1.0")).is_err());
    let unique = j("(uniqueItems: true)");
    assert_eq!(check(&unique, &j("[1.0, 1.00]")), Err("$: array items are not unique".to_string()));
    assert_eq!(check(&unique, &j("[1, 1.0]")), Ok(()));
}

#[test]
fn bounded_validation_stops_on_ref_cycles() {
    let cyclic = j(r##"(defs: (a: ("$ref": "#/defs/b"), b: ("$ref": "#/defs/a")), "$ref": "#/defs/a")"##);
    assert!(validate_schema_with_fuel(&cyclic, &j("1"), &cyclic, "$", 50).is_none());
    let schema = j(r#"(type: "array", items: (type: "integer", maximum: 3))"#);
    let bad = j("[1, 4]");
    let full = validate_schema(&schema, &bad, &schema, "$").map_err(|e| e.message);
    let bounded = validate_schema_with_fuel(&schema, &bad, &schema, "$", 10).map(|r| r.map_err(|e| e.message));
    assert_eq!(bounded, Some(full));
    assert!(validate_schema_with_fuel(&schema, &bad, &schema, "$", 1).is_none());
    assert_eq!(validate_schema_with_fuel(&schema, &j("[1, 2]"), &schema, "$", 2).map(|r| r.is_ok()), Some(true));
}

#[test]
fn one_of_needs_exactly_one_match() {
    let schema = j(r#"(type: "string", oneOf: [(type: "integer"), (type: "number"), (type: "boolean")])"#);
    assert_eq!(check(&schema, &j("true")), Ok(()));
    assert!(check(&schema, &j("3")).unwrap_err().contains("expected exactly one oneOf match, got 2"));
    assert!(check(&schema, &j(r#""x""#)).unwrap_err().contains("got 0"));
}

#[test]
fn json_documents_are_read_with_serde_json() {
    let doc = json_document("s.json", r#"{"b": [1, -2, 2.5], "a": {"z": null, "y": true}}"#).expect("valid JSON");
    assert!(aa_engine::json::json_value_wf(&doc));
    match &doc {
        JsonValue::Object(entries) => {
            assert_eq!(entries[0].0, "a");
            assert_eq!(entries[1].0, "b");
            match &entries[1].1 {
                JsonValue::Array(items) => {
                    assert!(matches!(items[0], JsonValue::Number(JsonNumber::PosInt(1))));
                    assert!(matches!(items[1], JsonValue::Number(JsonNumber::NegInt(-2))));
                    assert!(matches!(&items[2], JsonValue::Number(JsonNumber::Float(t)) if t == "2.5"));
                }
                _ => panic!("expected an array"),
            }
        }
        _ => panic!("expected an object"),
    }
    let err = json_document("s.json", "{oops").unwrap_err();
    assert!(err.message.starts_with("s.json: invalid JSON: "));
    assert!(err.message.len() > "s.json: invalid JSON: ".len());
}
