use sentry_options::evolution::detect_changes;
use sentry_options::json::Json;
use sentry_options::schema::{SchemaRegistry, ValidationError};
use serde_json::Value;

fn to_json(v: Value) -> Json {
    match v {
        Value::Null => Json::Null,
        Value::Bool(b) => Json::Bool(b),
        Value::Number(n) => match n.as_i64() {
            Some(i) => Json::Int(i),
            None => Json::Float(n.as_f64().unwrap().to_bits(), n.to_string()),
        },
        Value::String(s) => Json::Str(s),
        Value::Array(a) => Json::Array(a.into_iter().map(to_json).collect()),
        Value::Object(m) => Json::Object(m.into_iter().map(|(k, v)| (k, to_json(v))).collect()),
    }
}

fn option(option_type: &str, default: Value) -> Value {
    let mut m = serde_json::Map::new();
    m.insert("type".to_string(), Value::String(option_type.to_string()));
    m.insert("default".to_string(), default);
    m.insert("description".to_string(), Value::String("Test option".to_string()));
    Value::Object(m)
}

fn build_schema(options: serde_json::Map<String, Value>) -> Value {
    let mut m = serde_json::Map::new();
    m.insert("version".to_string(), Value::String("1.0".to_string()));
    m.insert("type".to_string(), Value::String("object".to_string()));
    m.insert("properties".to_string(), Value::Object(options));
    Value::Object(m)
}

fn modify_schema(schema: &Value, f: impl FnOnce(&mut serde_json::Map<String, Value>)) -> Value {
    let mut new_schema = schema.clone();
    if let Some(opts) = new_schema.get_mut("properties").and_then(|p| p.as_object_mut()) {
        f(opts);
    }
    new_schema
}

fn registry(schemas: Vec<(&str, &Value)>) -> SchemaRegistry {
    let mut sorted = schemas;
    sorted.sort_by(|a, b| a.0.cmp(b.0));
    SchemaRegistry::from_documents(
        sorted
            .into_iter()
            .map(|(ns, v)| (ns.to_string(), format!("schemas/{ns}/schema.json"), to_json(v.clone())))
            .collect(),
    )
    .ok()
    .unwrap()
}

fn check(old: Vec<(&str, &Value)>, new: Vec<(&str, &Value)>, repo: &str) -> Result<(), ValidationError> {
    detect_changes(&registry(old), &registry(new), repo).into_result()
}

fn assert_error_contains(errors: &[ValidationError], text: &str) {
    let found = errors.iter().any(|e| e.message().contains(text));
    assert!(found, "Expected error containing '{}' not found in errors", text);
}

fn string_option_schema(default: &str) -> Value {
    let mut options = serde_json::Map::new();
    options.insert("key1".to_string(), option("string", Value::String(default.to_string())));
    build_schema(options)
}

#[test]
fn test_identical_schemas_pass() {
    let schema = string_option_schema("test");
    assert!(check(vec![("test", &schema)], vec![("test", &schema)], "test").is_ok());
}

#[test]
fn test_removed_namespace_fails() {
    let schema = string_option_schema("test");
    match check(vec![("test", &schema)], vec![], "test") {
        Err(ValidationError::ValidationErrors(errors)) => {
            assert_eq!(errors.len(), 1);
            assert_error_contains(&errors, "Namespace 'test' was removed");
        }
        _ => panic!("Expected ValidationErrors for removed namespace"),
    }
}

#[test]
fn test_removed_option_fails() {
    let mut old_options = serde_json::Map::new();
    old_options.insert("key1".to_string(), option("string", Value::String("test".to_string())));
    old_options.insert("key2".to_string(), option("integer", Value::from(42)));
    let old_schema = build_schema(old_options);
    let new_schema = modify_schema(&old_schema, |options| {
        options.remove("key2");
    });
    match check(vec![("test", &old_schema)], vec![("test", &new_schema)], "test") {
        Err(ValidationError::ValidationErrors(errors)) => {
            assert_eq!(errors.len(), 1);
            assert_error_contains(&errors, "Option 'test.key2' was removed");
        }
        _ => panic!("Expected ValidationErrors for removed option"),
    }
}

#[test]
fn test_type_change_fails() {
    let old_schema = string_option_schema("test");
    let new_schema = modify_schema(&old_schema, |options| {
        options.insert("key1".to_string(), option("integer", Value::from(42)));
    });
    match check(vec![("test", &old_schema)], vec![("test", &new_schema)], "test") {
        Err(ValidationError::ValidationErrors(errors)) => {
            assert_eq!(errors.len(), 2);
            assert_error_contains(&errors, "type changed from 'string' to 'integer'");
        }
        _ => panic!("Expected ValidationErrors for type change"),
    }
}

#[test]
fn test_default_value_change_fails() {
    let old_schema = string_option_schema("old-value");
    let new_schema = modify_schema(&old_schema, |options| {
        options.insert("key1".to_string(), option("string", Value::String("new-value".to_string())));
    });
    match check(vec![("test", &old_schema)], vec![("test", &new_schema)], "test") {
        Err(ValidationError::ValidationErrors(errors)) => {
            assert_eq!(errors.len(), 1);
            assert_error_contains(&errors, "default value changed");
            assert_error_contains(&errors, "old-value");
            assert_error_contains(&errors, "new-value");
        }
        _ => panic!("Expected ValidationErrors for default value change"),
    }
}

#[test]
fn test_added_namespace_passes() {
    let schema = string_option_schema("test");
    assert!(check(
        vec![("test", &schema)],
        vec![("test", &schema), ("test-new", &schema)],
        "test"
    )
    .is_ok());
}

#[test]
fn test_added_option_passes() {
    let old_schema = string_option_schema("test");
    let new_schema = modify_schema(&old_schema, |options| {
        options.insert("key2".to_string(), option("integer", Value::from(42)));
    });
    assert!(check(vec![("test", &old_schema)], vec![("test", &new_schema)], "test").is_ok());
}

#[test]
fn test_integer_to_number_type_change_fails() {
    let mut options = serde_json::Map::new();
    options.insert("key1".to_string(), option("integer", Value::from(42)));
    let old_schema = build_schema(options);
    let new_schema = modify_schema(&old_schema, |options| {
        options.insert("key1".to_string(), option("number", Value::from(42.0)));
    });
    match check(vec![("test", &old_schema)], vec![("test", &new_schema)], "test") {
        Err(ValidationError::ValidationErrors(errors)) => {
            assert_eq!(errors.len(), 2);
            assert_error_contains(&errors, "type changed from 'integer' to 'number'");
            assert_error_contains(&errors, "default value changed from 42 to 42.0");
        }
        _ => panic!("Expected ValidationErrors for integer to number change"),
    }
}

#[test]
fn schema_evolution_test_multiple_namespaces() {
    let schema1 = string_option_schema("test");
    let mut options2 = serde_json::Map::new();
    options2.insert("key2".to_string(), option("boolean", Value::Bool(true)));
    let schema2 = build_schema(options2);
    assert!(check(
        vec![("test-ns1", &schema1), ("test-ns2", &schema2)],
        vec![("test-ns1", &schema1), ("test-ns2", &schema2)],
        "test"
    )
    .is_ok());
}

#[test]
fn test_namespace_prefix_exact_match_passes() {
    let schema = string_option_schema("test");
    assert!(check(vec![("myrepo", &schema)], vec![("myrepo", &schema)], "myrepo").is_ok());
}

#[test]
fn test_namespace_prefix_with_suffix_passes() {
    let schema = string_option_schema("test");
    assert!(check(
        vec![("myrepo-testing", &schema)],
        vec![("myrepo-testing", &schema)],
        "myrepo"
    )
    .is_ok());
}

#[test]
fn test_namespace_prefix_invalid_fails() {
    let schema = string_option_schema("test");
    match check(vec![], vec![("other-testing", &schema)], "myrepo") {
        Err(ValidationError::ValidationErrors(errors)) => {
            assert_error_contains(&errors, "is invalid. Expected either");
        }
        _ => panic!("Expected ValidationErrors for invalid namespace prefix"),
    }
}

#[test]
fn test_namespace_prefix_no_prefix_fails() {
    let schema = string_option_schema("test");
    match check(vec![], vec![("testing", &schema)], "myrepo") {
        Err(ValidationError::ValidationErrors(errors)) => {
            assert_error_contains(&errors, "is invalid. Expected either");
        }
        _ => panic!("Expected ValidationErrors for missing namespace prefix"),
    }
}

#[test]
fn changelog_lists_removals_changes_and_additions() {
    let mut old_options = serde_json::Map::new();
    old_options.insert("a".to_string(), option("integer", Value::from(1)));
    old_options.insert("b".to_string(), option("integer", Value::from(2)));
    let old_schema = build_schema(old_options);
    let new_schema = modify_schema(&old_schema, |options| {
        options.remove("a");
        options.insert("b".to_string(), option("integer", Value::from(3)));
        options.insert("c".to_string(), option("boolean", Value::Bool(false)));
    });
    let diff = detect_changes(
        &registry(vec![("r", &old_schema)]),
        &registry(vec![("r", &new_schema), ("r-new", &new_schema)]),
        "r",
    );
    let lines: Vec<String> = diff.changelog.iter().map(|c| c.describe()).collect();
    assert_eq!(
        lines,
        vec![
            "- Option:\t r.a".to_string(),
            "~ Default:\t r.b: 2 -> 3".to_string(),
            "+ Option:\t r.c".to_string(),
            "+ Namespace:\t r-new".to_string(),
        ]
    );
    assert_eq!(diff.errors.len(), 2);
}

#[test]
fn zero_and_negative_zero_defaults_are_equal() {
    let mut a = serde_json::Map::new();
    a.insert("f".to_string(), option("number", Value::from(0.0)));
    let mut b = serde_json::Map::new();
    b.insert("f".to_string(), option("number", Value::from(-0.0)));
    assert!(check(vec![("t", &build_schema(a))], vec![("t", &build_schema(b))], "t").is_ok());
}

#[test]
fn one_error_per_violation() {
    let mut old_options = serde_json::Map::new();
    old_options.insert("a".to_string(), option("integer", Value::from(1)));
    old_options.insert("b".to_string(), option("integer", Value::from(2)));
    let old_schema = build_schema(old_options);
    let new_schema = modify_schema(&old_schema, |options| {
        options.remove("a");
        options.insert("b".to_string(), option("string", Value::String("x".to_string())));
    });
    let diff = detect_changes(
        &registry(vec![("r", &old_schema), ("r-gone", &old_schema)]),
        &registry(vec![("r", &new_schema), ("bad", &new_schema)]),
        "r",
    );
    // removed a, type and default of b, removed r-gone, foreign "bad"
    assert_eq!(diff.errors.len(), 5);
    let lines: Vec<String> = diff.changelog.iter().map(|c| c.describe()).collect();
    assert_eq!(
        lines,
        vec![
            "- Option:\t r.a".to_string(),
            "~ Type:\t\t r.b: integer -> string".to_string(),
            "~ Default:\t r.b: 2 -> \"x\"".to_string(),
            "- Namespace:\t r-gone".to_string(),
            "+ Namespace:\t bad".to_string(),
        ]
    );
    let message = diff.into_result().err().unwrap().message();
    assert_eq!(message.lines().count(), 5);
}

fn unsorted_schema(keys: &[&str]) -> Json {
    let props: Vec<(String, Json)> = keys
        .iter()
        .map(|k| {
            (
                k.to_string(),
                Json::Object(vec![
                    ("type".to_string(), Json::Str("integer".to_string())),
                    ("default".to_string(), Json::Int(1)),
                ]),
            )
        })
        .collect();
    Json::Object(vec![
        ("version".to_string(), Json::Str("1.0".to_string())),
        ("properties".to_string(), Json::Object(props)),
    ])
}

#[test]
fn changelog_is_sorted_by_key_whatever_the_input_order() {
    let old = SchemaRegistry::from_documents(vec![
        ("r-b".to_string(), "f".to_string(), unsorted_schema(&["z", "m", "a"])),
        ("r-a".to_string(), "f".to_string(), unsorted_schema(&["x"])),
    ])
    .ok()
    .unwrap();
    let new = SchemaRegistry::from_documents(vec![
        ("r-c".to_string(), "f".to_string(), unsorted_schema(&[])),
        ("r-b".to_string(), "f".to_string(), unsorted_schema(&["q", "b"])),
    ])
    .ok()
    .unwrap();
    let diff = detect_changes(&old, &new, "r");
    let lines: Vec<String> = diff.changelog.iter().map(|c| c.describe()).collect();
    assert_eq!(
        lines,
        vec![
            "- Namespace:\t r-a".to_string(),
            "- Option:\t r-b.a".to_string(),
            "- Option:\t r-b.m".to_string(),
            "- Option:\t r-b.z".to_string(),
            "+ Option:\t r-b.b".to_string(),
            "+ Option:\t r-b.q".to_string(),
            "+ Namespace:\t r-c".to_string(),
        ]
    );
    assert_eq!(diff.errors.len(), 4);
}
