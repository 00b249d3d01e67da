use sentry_options::context::FeatureContext;
use sentry_options::features::evaluate_config;
use sentry_options::json::Json;
use sentry_options::options::{init, FeatureChecker, NamespaceOptions, Options, OptionsError};
use sentry_options::overrides::OverrideStore;
use sentry_options::schema::{SchemaRegistry, ValidationError};

fn to_json(v: serde_json::Value) -> Json {
    match v {
        serde_json::Value::Null => Json::Null,
        serde_json::Value::Bool(b) => Json::Bool(b),
        serde_json::Value::Number(n) => match n.as_i64() {
            Some(i) => Json::Int(i),
            None => Json::Float(n.as_f64().unwrap().to_bits(), n.to_string()),
        },
        serde_json::Value::String(s) => Json::Str(s),
        serde_json::Value::Array(a) => Json::Array(a.into_iter().map(to_json).collect()),
        serde_json::Value::Object(m) => {
            Json::Object(m.into_iter().map(|(k, v)| (k, to_json(v))).collect())
        }
    }
}

fn parse(text: &str) -> Json {
    to_json(serde_json::from_str(text).unwrap())
}

fn registry(schemas: Vec<(&str, &str)>) -> Result<SchemaRegistry, ValidationError> {
    SchemaRegistry::from_documents(
        schemas
            .into_iter()
            .map(|(ns, text)| (ns.to_string(), format!("schemas/{ns}/schema.json"), parse(text)))
            .collect(),
    )
}

fn options(schemas: Vec<(&str, &str)>, values: Vec<(&str, &str)>) -> Options {
    let reg = registry(schemas).ok().unwrap();
    Options::from_parts(
        reg,
        values.into_iter().map(|(ns, text)| (ns.to_string(), parse(text))).collect(),
    )
    .ok()
    .unwrap()
}

#[test]
fn test_get_value() {
    let options = options(
        vec![(
            "test",
            r#"{"version": "1.0", "type": "object", "properties": {"enabled": {"type": "boolean", "default": false, "description": "Enable feature"}}}"#,
        )],
        vec![("test", r#"{"options": {"enabled": true}}"#)],
    );
    assert_eq!(options.get("test", "enabled").ok().unwrap(), &Json::Bool(true));
}

#[test]
fn test_get_default() {
    let options = options(
        vec![(
            "test",
            r#"{"version": "1.0", "type": "object", "properties": {"timeout": {"type": "integer", "default": 30, "description": "Timeout"}}}"#,
        )],
        vec![],
    );
    assert_eq!(options.get("test", "timeout").ok().unwrap(), &Json::Int(30));
}

#[test]
fn lib_test_unknown_namespace() {
    let options = options(
        vec![("test", r#"{"version": "1.0", "type": "object", "properties": {}}"#)],
        vec![],
    );
    assert!(matches!(options.get("unknown", "key"), Err(OptionsError::UnknownNamespace(_))));

    let empty = SchemaRegistry::from_documents(vec![]).ok().unwrap();
    let result = empty.validate_values("unknown", &Json::Object(vec![]));
    assert!(matches!(result, Err(ValidationError::UnknownNamespace(..))));
}

#[test]
fn test_unknown_option() {
    let options = options(
        vec![(
            "test",
            r#"{"version": "1.0", "type": "object", "properties": {"known": {"type": "string", "default": "x", "description": "Known"}}}"#,
        )],
        vec![],
    );
    assert!(matches!(options.get("test", "unknown"), Err(OptionsError::UnknownOption { .. })));
}

#[test]
fn test_missing_values_dir() {
    let options = options(
        vec![(
            "test",
            r#"{"version": "1.0", "type": "object", "properties": {"opt": {"type": "string", "default": "default_val", "description": "Opt"}}}"#,
        )],
        vec![],
    );
    assert_eq!(options.get("test", "opt").ok().unwrap(), &Json::Str("default_val".to_string()));
}

#[test]
fn isset_with_defined_and_undefined_keys() {
    let options = options(
        vec![(
            "test",
            r#"{"version": "1.0", "type": "object", "properties": {
                "has-value": {"type": "string", "default": "", "description": ""},
                "defined-with-default": {"type": "string", "default": "default_val", "description": "Opt"}}}"#,
        )],
        vec![("test", r#"{"options": {"has-value": "yes"}}"#)],
    );
    assert!(options.isset("test", "not-defined").is_err());
    assert!(!options.isset("test", "defined-with-default").ok().unwrap());
    assert!(options.isset("test", "has-value").ok().unwrap());
    assert!(matches!(options.isset("nope", "x"), Err(OptionsError::UnknownNamespace(_))));
}

#[test]
fn namespace_handle_reads_through() {
    let options = options(
        vec![(
            "test",
            r#"{"version": "1.0", "type": "object", "properties": {"a": {"type": "integer", "default": 1}}}"#,
        )],
        vec![("test", r#"{"options": {"a": 7}}"#)],
    );
    let handle = NamespaceOptions { namespace: "test".to_string(), options: &options };
    assert_eq!(handle.get("a").ok().unwrap(), &Json::Int(7));
    assert!(handle.isset("a").ok().unwrap());
}

#[test]
fn invalid_values_reject_the_store() {
    let reg = registry(vec![(
        "test",
        r#"{"version": "1.0", "type": "object", "properties": {"a": {"type": "integer", "default": 1}}}"#,
    )])
    .ok()
    .unwrap();
    let result = Options::from_parts(reg, vec![("test".to_string(), parse(r#"{"options": {"a": "x"}}"#))]);
    assert!(matches!(result, Err(OptionsError::Schema(_))));
}

#[test]
fn values_for_unknown_namespace_reject_the_store() {
    let reg = registry(vec![("test", r#"{"version": "1.0", "properties": {}}"#)]).ok().unwrap();
    let result = Options::from_parts(reg, vec![("other".to_string(), parse(r#"{"options": {}}"#))]);
    assert!(matches!(result, Err(OptionsError::Schema(ValidationError::UnknownNamespace(_)))));
}

#[test]
fn closed_schema_rejects_unknown_keys_open_schema_accepts_them() {
    let closed = registry(vec![(
        "test",
        r#"{"version": "1.0", "properties": {"a": {"type": "integer", "default": 1}}, "additionalProperties": false}"#,
    )])
    .ok()
    .unwrap();
    assert!(closed.validate_values("test", &parse(r#"{"b": 1}"#)).is_err());
    assert!(closed.validate_values("test", &parse(r#"{"a": 2}"#)).is_ok());
    let open = registry(vec![(
        "test",
        r#"{"version": "1.0", "properties": {"a": {"type": "integer", "default": 1}}}"#,
    )])
    .ok()
    .unwrap();
    assert!(open.validate_values("test", &parse(r#"{"b": 1}"#)).is_ok());
    assert!(open.validate_values("test", &parse(r#"{"a": "2"}"#)).is_err());
    assert!(open.validate_values("test", &parse(r#"{"a": 2.5}"#)).is_err());
}

#[test]
fn number_type_accepts_integers_and_floats() {
    let reg = registry(vec![(
        "test",
        r#"{"version": "1.0", "properties": {"r": {"type": "number", "default": 1.5}}}"#,
    )])
    .ok()
    .unwrap();
    assert!(reg.validate_values("test", &parse(r#"{"r": 2}"#)).is_ok());
    assert!(reg.validate_values("test", &parse(r#"{"r": 0.25}"#)).is_ok());
    assert!(reg.validate_values("test", &parse(r#"{"r": true}"#)).is_err());
}

#[test]
fn reload_with_invalid_values_keeps_previous_values() {
    let mut options = options(
        vec![(
            "test",
            r#"{"version": "1.0", "properties": {"a": {"type": "integer", "default": 1}}}"#,
        )],
        vec![("test", r#"{"options": {"a": 5}}"#)],
    );
    assert_eq!(options.get("test", "a").ok().unwrap(), &Json::Int(5));
    assert!(options.reload(vec![("test".to_string(), parse(r#"{"options": {"a": "bad"}}"#))]).is_err());
    assert_eq!(options.get("test", "a").ok().unwrap(), &Json::Int(5));
    assert!(options.reload(vec![("test".to_string(), parse(r#"{"options": {"a": 9}}"#))]).is_ok());
    assert_eq!(options.get("test", "a").ok().unwrap(), &Json::Int(9));
    assert!(options.reload(vec![]).is_ok());
    assert_eq!(options.get("test", "a").ok().unwrap(), &Json::Int(1));
}

#[test]
fn test_load_schema_valid() {
    assert!(registry(vec![(
        "test",
        r#"{"version": "1.0", "type": "object", "properties": {"test-key": {"type": "string", "default": "test", "description": "Test option"}}}"#,
    )])
    .is_ok());
}

#[test]
fn test_load_schema_missing_version() {
    let result = registry(vec![("test", r#"{"type": "object", "properties": {}}"#)]);
    match result {
        Err(ValidationError::SchemaError { message, .. }) => {
            assert!(message.eq("Schema validation failed:
Error: \"version\" is a required property"));
        }
        _ => panic!("Expected SchemaError for missing version"),
    }
}

#[test]
fn lib_test_multiple_namespaces() {
    let reg = registry(vec![
        (
            "ns1",
            r#"{"version": "1.0", "type": "object", "properties": {"opt1": {"type": "string", "default": "default1"}}}"#,
        ),
        (
            "ns2",
            r#"{"version": "2.0", "type": "object", "properties": {"opt2": {"type": "integer", "default": 42}}}"#,
        ),
    ])
    .ok()
    .unwrap();
    assert!(reg.get("ns1").is_some());
    assert!(reg.get("ns2").is_some());
    assert!(reg.get("ns3").is_none());
}

#[test]
fn test_invalid_default_type() {
    let result = registry(vec![(
        "test",
        r#"{"version": "1.0", "type": "object", "properties": {"bad-default": {"type": "integer", "default": "not-a-number"}}}"#,
    )]);
    match result {
        Err(ValidationError::SchemaError { message, .. }) => {
            assert!(message.eq("Property 'bad-default': default value does not match type 'integer': \"not-a-number\" is not of type \"integer\""));
        }
        _ => panic!("Expected SchemaError for invalid default type"),
    }
}

#[test]
fn default_type_error_escapes_and_renders_scalars() {
    let result = registry(vec![(
        "test",
        r#"{"version": "1.0", "properties": {"b": {"type": "boolean", "default": "a\"b\\c\n\u0001"}}}"#,
    )]);
    match result {
        Err(ValidationError::SchemaError { message, .. }) => {
            assert_eq!(message, "Property 'b': default value does not match type 'boolean': \"a\\\"b\\\\c\\n\\u0001\" is not of type \"boolean\"");
        }
        _ => panic!("Expected SchemaError"),
    }
    let result = registry(vec![(
        "test",
        r#"{"version": "1.0", "properties": {"s": {"type": "string", "default": -12}}}"#,
    )]);
    match result {
        Err(ValidationError::SchemaError { message, .. }) => {
            assert_eq!(message, "Property 's': default value does not match type 'string': -12 is not of type \"string\"");
        }
        _ => panic!("Expected SchemaError"),
    }
}

#[test]
fn schema_load_is_all_or_nothing() {
    let result = registry(vec![
        ("ok", r#"{"version": "1.0", "properties": {}}"#),
        ("bad", r#"{"version": "1.0", "properties": {"x": {"type": "list", "default": []}}}"#),
    ]);
    assert!(result.is_err());
}

fn checker_options(feature_json: &str) -> Options {
    let schema = r#"{"version":"1.0","type":"object","properties":{"features.organizations:fury-mode":{"type":"string","default":"","description":"Feature flag config"}}}"#;
    let values = format!(
        r#"{{"options":{{"features.organizations:fury-mode":{}}}}}"#,
        serde_json::to_string(feature_json).unwrap()
    );
    options(vec![("test", schema)], vec![("test", values.as_str())])
}

fn has(options: &Options, name: &str, ctx: &mut FeatureContext) -> bool {
    let checker = FeatureChecker::new("test", options);
    let overrides = OverrideStore::new();
    let parsed = checker
        .config_text(&overrides, name)
        .and_then(|t| serde_json::from_str::<serde_json::Value>(t).ok())
        .map(to_json);
    evaluate_config(parsed, name, ctx)
}

#[test]
fn test_has_unknown_feature_returns_false() {
    let options = options(vec![("test", r#"{"version": "1.0", "type": "object", "properties": {}}"#)], vec![]);
    let mut ctx = FeatureContext::new();
    assert!(!has(&options, "organizations:fury-mode", &mut ctx));
}

#[test]
fn test_has_disabled_feature_returns_false() {
    let options = checker_options(r#"{"enabled": false, "segments": [{"name": "all", "rollout": 100, "conditions": []}]}"#);
    let mut ctx = FeatureContext::new();
    assert!(!has(&options, "organizations:fury-mode", &mut ctx));
}

#[test]
fn test_has_matching_context_returns_true() {
    let options = checker_options(r#"{"enabled": true, "segments": [{"name": "sentry orgs", "rollout": 100, "conditions": [{"property": "organization_slug", "operator": {"kind": "in", "value": ["sentry", "sentry-test"]}}]}]}"#);
    let mut ctx = FeatureContext::new();
    ctx.insert("organization_slug", "sentry".into());
    assert!(has(&options, "organizations:fury-mode", &mut ctx));
}

#[test]
fn test_has_missing_context_field_returns_false() {
    let options = checker_options(r#"{"enabled": true, "segments": [{"name": "sentry orgs", "rollout": 100, "conditions": [{"property": "organization_slug", "operator": {"kind": "in", "value": ["sentry"]}}]}]}"#);
    let mut ctx = FeatureContext::new();
    assert!(!has(&options, "organizations:fury-mode", &mut ctx));
}

#[test]
fn test_has_invalid_operator_kind_returns_false() {
    let options = checker_options(r#"{"enabled": true, "segments": [{"name": "all", "rollout": 100, "conditions": [{"property": "organization_slug", "operator": {"kind": "bananas", "value": ["sentry"]}}]}]}"#);
    let mut ctx = FeatureContext::new();
    assert!(!has(&options, "organizations:fury-mode", &mut ctx));
}

#[test]
fn test_has_invalid_segment_rollout_returns_false() {
    let options = checker_options(r#"{"enabled": true, "segments": [{"name": "all", "rollout": 500, "conditions": []}]}"#);
    let mut ctx = FeatureContext::new();
    assert!(!has(&options, "organizations:fury-mode", &mut ctx));
}

#[test]
fn test_has_invalid_condition_missing_property_returns_false() {
    let options = checker_options(r#"{"enabled": true, "segments": [{"name": "all", "rollout": 100, "conditions": [{"operator": {"kind": "in", "value": ["sentry"]}}]}]}"#);
    let mut ctx = FeatureContext::new();
    assert!(!has(&options, "organizations:fury-mode", &mut ctx));
}

#[test]
fn config_text_reads_the_feature_key() {
    let options = checker_options(r#"{"enabled": true}"#);
    let checker = FeatureChecker::new("test", &options);
    let mut overrides = OverrideStore::new();
    assert_eq!(checker.config_text(&overrides, "organizations:fury-mode").unwrap(), r#"{"enabled": true}"#);
    assert!(checker.config_text(&overrides, "other").is_none());
    overrides.set("test", "features.organizations:fury-mode", Json::Str("{}".to_string()));
    assert_eq!(checker.config_text(&overrides, "organizations:fury-mode").unwrap(), "{}");
}

#[test]
fn init_installs_once() {
    let mut slot: Option<u8> = None;
    assert!(init(&mut slot, Ok(1)).is_ok());
    assert_eq!(slot, Some(1));
    assert!(matches!(init(&mut slot, Ok(2)), Err(OptionsError::AlreadyInitialized)));
    assert_eq!(slot, Some(1));
    assert!(matches!(
        init(&mut slot, Err(OptionsError::UnknownNamespace("x".to_string()))),
        Err(OptionsError::UnknownNamespace(_))
    ));
}

#[test]
fn integer_type_accepts_whole_floats_only() {
    let reg = registry(vec![(
        "test",
        r#"{"version": "1.0", "properties": {"i": {"type": "integer", "default": 1}}}"#,
    )])
    .ok()
    .unwrap();
    for whole in ["42.0", "0.0", "-0.0", "1e300", "-7.0", "4503599627370496.0"] {
        let doc = format!(r#"{{"i": {whole}}}"#);
        assert!(reg.validate_values("test", &parse(&doc)).is_ok(), "{whole}");
    }
    for fractional in ["3.5", "0.5", "-0.25", "12345.75", "1e-300"] {
        let doc = format!(r#"{{"i": {fractional}}}"#);
        assert!(reg.validate_values("test", &parse(&doc)).is_err(), "{fractional}");
    }
}
