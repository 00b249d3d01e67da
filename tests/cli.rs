use sentry_options::cli::{validate_configmap_name, MAX_CONFIGMAP_NAME_LEN};

#[test]
fn test_validate_configmap_name_valid() {
    assert!(validate_configmap_name("sentry-options-relay-default").is_ok());
    assert!(validate_configmap_name("sentry-options-my.service-prod").is_ok());
    assert!(validate_configmap_name("a1-b2").is_ok());
}

#[test]
fn test_validate_configmap_name_rejects_uppercase() {
    let result = validate_configmap_name("sentry-options-MyService-default");
    assert!(result.is_err());
    assert!(result.err().unwrap().message().contains("invalid character"));
}

#[test]
fn test_validate_configmap_name_rejects_underscore() {
    let result = validate_configmap_name("sentry-options-my_service-default");
    assert!(result.is_err());
    assert!(result.err().unwrap().message().contains("invalid character"));
}

#[test]
fn test_validate_configmap_name_rejects_leading_hyphen() {
    let result = validate_configmap_name("-sentry-options");
    assert!(result.is_err());
    assert!(result
        .err()
        .unwrap()
        .message()
        .contains("start and end with alphanumeric"));
}

#[test]
fn test_validate_configmap_name_rejects_trailing_hyphen() {
    let result = validate_configmap_name("sentry-options-");
    assert!(result.is_err());
    assert!(result
        .err()
        .unwrap()
        .message()
        .contains("start and end with alphanumeric"));
}

#[test]
fn test_validate_configmap_name_rejects_over_max_len() {
    assert!(validate_configmap_name(&"a".repeat(MAX_CONFIGMAP_NAME_LEN)).is_ok());
    let result = validate_configmap_name(&"a".repeat(MAX_CONFIGMAP_NAME_LEN + 1));
    assert!(result.is_err());
    assert!(result.err().unwrap().message().contains("character limit"));
}

#[test]
fn configmap_name_empty_is_rejected() {
    assert!(validate_configmap_name("").is_err());
}

#[test]
fn configmap_name_reports_the_bad_character() {
    let m = validate_configmap_name("ab_c").err().unwrap().message();
    assert_eq!(
        m,
        "Invalid ConfigMap name 'ab_c': invalid character '_'. Use lowercase alphanumeric, '-', or '.'"
    );
}

use sentry_options::cli::{check_option_usage, AppError};

fn in_use(keys: &[&str]) -> Vec<String> {
    keys.iter().map(|k| k.to_string()).collect()
}

#[test]
fn test_no_options_in_use() {
    let used = in_use(&["sentry:feature.enabled", "sentry:system.url"]);
    let deletions = "sentry:removed.option sentry:old.feature";
    assert_eq!(check_option_usage(deletions, &used).ok().unwrap(), "");
}

#[test]
fn test_some_options_in_use() {
    let used = in_use(&["sentry:feature.enabled", "sentry:system.url", "sentry:traces.sample-rate"]);
    let deletions = "sentry:feature.enabled sentry:removed.option sentry:traces.sample-rate";
    assert_eq!(
        check_option_usage(deletions, &used).ok().unwrap(),
        "sentry:feature.enabled sentry:traces.sample-rate"
    );
}

#[test]
fn test_all_options_in_use() {
    let used = in_use(&["sentry:feature.enabled", "sentry:system.url"]);
    let deletions = "sentry:feature.enabled sentry:system.url";
    assert_eq!(
        check_option_usage(deletions, &used).ok().unwrap(),
        "sentry:feature.enabled sentry:system.url"
    );
}

#[test]
fn option_usage_test_multiple_namespaces() {
    let used = in_use(&["sentry:feature.enabled", "relay:relay.enabled", "getsentry:billing.enabled"]);
    let deletions = "sentry:feature.enabled relay:relay.enabled relay:removed.option getsentry:billing.enabled";
    assert_eq!(
        check_option_usage(deletions, &used).ok().unwrap(),
        "sentry:feature.enabled relay:relay.enabled getsentry:billing.enabled"
    );
}

#[test]
fn test_namespace_not_exists() {
    let used = in_use(&[]);
    assert_eq!(check_option_usage("nonexistent:some.option", &used).ok().unwrap(), "");
}

#[test]
fn test_values_yaml_not_exists() {
    let used = in_use(&[]);
    assert_eq!(check_option_usage("sentry:some.option", &used).ok().unwrap(), "");
}

#[test]
fn test_empty_deletions() {
    let used = in_use(&["sentry:feature.enabled"]);
    assert_eq!(check_option_usage("", &used).ok().unwrap(), "");
}

#[test]
fn test_multiple_targets_and_files() {
    let used = in_use(&["sentry:feature.enabled", "sentry:s4s.option", "sentry:core.option"]);
    let deletions = "sentry:feature.enabled sentry:s4s.option sentry:core.option sentry:missing.option";
    assert_eq!(
        check_option_usage(deletions, &used).ok().unwrap(),
        "sentry:feature.enabled sentry:s4s.option sentry:core.option"
    );
}

#[test]
fn option_usage_rejects_key_without_colon() {
    let used = in_use(&["sentry:a"]);
    match check_option_usage("sentry:a badkey", &used) {
        Err(AppError::Validation(m)) => {
            assert_eq!(m, "Invalid key format 'badkey', expected 'namespace:option'")
        }
        _ => panic!("expected a validation error"),
    }
}

#[test]
fn option_usage_splits_on_any_white_space() {
    let used = in_use(&["a:x", "b:y"]);
    assert_eq!(
        check_option_usage("  a:x\t\nb:y \u{3000} c:z  ", &used).ok().unwrap(),
        "a:x b:y"
    );
}

use sentry_options::cli::{ensure_no_duplicate_keys, FileData};
use sentry_options::json::Json;

fn file(path: &str, keys: &[&str]) -> FileData {
    FileData {
        path: path.to_string(),
        data: keys.iter().map(|k| (k.to_string(), Json::Bool(true))).collect(),
    }
}

#[test]
fn duplicate_key_in_one_target_is_reported() {
    let grouped = vec![(
        "sentry".to_string(),
        vec![(
            "default".to_string(),
            vec![file("sentry/default/a.yaml", &["x", "y"]), file("sentry/default/b.yaml", &["z", "y"])],
        )],
    )];
    match ensure_no_duplicate_keys(&grouped) {
        Err(AppError::DuplicateKey { key, first_file, second_file }) => {
            assert_eq!(key, "y");
            assert_eq!(first_file, "sentry/default/a.yaml");
            assert_eq!(second_file, "sentry/default/b.yaml");
        }
        _ => panic!("expected a duplicate key"),
    }
}

#[test]
fn same_key_in_different_targets_is_fine() {
    let grouped = vec![(
        "sentry".to_string(),
        vec![
            ("default".to_string(), vec![file("sentry/default/a.yaml", &["x"])]),
            ("s4s".to_string(), vec![file("sentry/s4s/a.yaml", &["x"])]),
        ],
    )];
    assert!(ensure_no_duplicate_keys(&grouped).is_ok());
}

#[test]
fn duplicate_key_message() {
    let e = AppError::DuplicateKey {
        key: "k".to_string(),
        first_file: "a".to_string(),
        second_file: "b".to_string(),
    };
    assert_eq!(e.message(), "Duplicate key 'k' found in a and b");
}

use sentry_options::cli::merge_options_for_target;

fn valued(path: &str, entries: &[(&str, i64)]) -> FileData {
    FileData {
        path: path.to_string(),
        data: entries.iter().map(|(k, v)| (k.to_string(), Json::Int(*v))).collect(),
    }
}

fn lookup<'a>(merged: &'a [(String, &Json)], key: &str) -> Option<&'a Json> {
    merged.iter().find(|(k, _)| k == key).map(|(_, v)| *v)
}

#[test]
fn merge_target_overrides_default() {
    let maps = vec![(
        "myns".to_string(),
        vec![
            ("default".to_string(), vec![valued("a", &[("x", 1), ("y", 2)]), valued("b", &[("z", 3)])]),
            ("prod".to_string(), vec![valued("c", &[("y", 20)])]),
        ],
    )];
    let merged = merge_options_for_target(&maps, "myns", "prod").ok().unwrap();
    assert_eq!(merged.len(), 3);
    assert_eq!(lookup(&merged, "x"), Some(&Json::Int(1)));
    assert_eq!(lookup(&merged, "y"), Some(&Json::Int(20)));
    assert_eq!(lookup(&merged, "z"), Some(&Json::Int(3)));
    let default = merge_options_for_target(&maps, "myns", "default").ok().unwrap();
    assert_eq!(lookup(&default, "y"), Some(&Json::Int(2)));
}

#[test]
fn merge_reports_missing_namespace_target_and_default() {
    let maps = vec![
        ("myns".to_string(), vec![("default".to_string(), vec![valued("a", &[("x", 1)])])]),
        ("nodefault".to_string(), vec![("prod".to_string(), vec![valued("a", &[("x", 1)])])]),
    ];
    let m = merge_options_for_target(&maps, "nonexistent", "default").err().unwrap().message();
    assert!(m.contains("not found"));
    let m = merge_options_for_target(&maps, "myns", "nonexistent").err().unwrap().message();
    assert_eq!(m, "Target 'nonexistent' not found in namespace 'myns'");
    let m = merge_options_for_target(&maps, "nodefault", "prod").err().unwrap().message();
    assert_eq!(m, "Namespace 'nodefault' is missing required 'default' target");
}

use sentry_options::cli::{
    add_file, classify_values_file, ensure_default_targets, options_of_values_file, sort_files,
    FileRole,
};
use sentry_options::schema::SchemaRegistry;

fn text(s: &str) -> Json {
    Json::Str(s.to_string())
}

fn object(members: Vec<(&str, Json)>) -> Json {
    Json::Object(members.into_iter().map(|(k, v)| (k.to_string(), v)).collect())
}

fn testing_registry() -> SchemaRegistry {
    let option = object(vec![("type", text("string")), ("default", text("d"))]);
    let doc = object(vec![
        ("version", text("1.0")),
        ("properties", object(vec![("name", option)])),
        ("additionalProperties", Json::Bool(false)),
    ]);
    SchemaRegistry::from_documents(vec![("sentry".to_string(), "schema.json".to_string(), doc)])
        .ok()
        .unwrap()
}

fn parts(p: &[&str]) -> Vec<String> {
    p.iter().map(|s| s.to_string()).collect()
}

#[test]
fn values_file_roles() {
    let reg = testing_registry();
    let yml = classify_values_file("sentry/default/a.yml", &parts(&["sentry", "default", "a.yml"]), Some("yml"), &reg);
    assert_eq!(yml.err().unwrap().message(), "Invalid file sentry/default/a.yml: expected .yaml, found .yml");
    let readme = classify_values_file("README.md", &parts(&["README.md"]), Some("md"), &reg);
    assert!(matches!(readme, Ok(FileRole::Skip)));
    let shallow = classify_values_file("sentry/a.yaml", &parts(&["sentry", "a.yaml"]), Some("yaml"), &reg);
    assert_eq!(
        shallow.err().unwrap().message(),
        "Invalid directory structure in sentry/a.yaml: expected namespace/target/file.yaml"
    );
    let unknown = classify_values_file("other/default/a.yaml", &parts(&["other", "default", "a.yaml"]), Some("yaml"), &reg);
    assert!(unknown.err().unwrap().message().contains("Unknown namespace 'other'"));
    match classify_values_file("sentry/s4s/a.yaml", &parts(&["sentry", "s4s", "a.yaml"]), Some("yaml"), &reg) {
        Ok(FileRole::Values { namespace, target }) => {
            assert_eq!(namespace, "sentry");
            assert_eq!(target, "s4s");
        }
        _ => panic!("expected a values file"),
    }
}

#[test]
fn values_file_contents_are_checked() {
    let reg = testing_registry();
    let ok = options_of_values_file("f", "sentry", object(vec![("options", object(vec![("name", text("x"))]))]), &reg);
    assert_eq!(ok.ok().unwrap().len(), 1);
    let two = options_of_values_file("f", "sentry", object(vec![("options", object(vec![])), ("extra", Json::Null)]), &reg);
    assert_eq!(
        two.err().unwrap().message(),
        "Invalid YAML structure in f: expected exactly one top level key 'options', found [\"options\", \"extra\"]"
    );
    let wrong_key = options_of_values_file("f", "sentry", object(vec![("values", object(vec![]))]), &reg);
    assert!(wrong_key.err().unwrap().message().contains("expected top level key 'options'"));
    let not_map = options_of_values_file("f", "sentry", object(vec![("options", text("x"))]), &reg);
    assert_eq!(not_map.err().unwrap().message(), "Invalid YAML structure in f: expected 'options' to be a mapping");
    let bad_type = options_of_values_file("f", "sentry", object(vec![("options", object(vec![("name", Json::Int(1))]))]), &reg);
    assert!(bad_type.err().unwrap().message().starts_with("In file f: "));
}

#[test]
fn files_are_grouped_and_sorted() {
    let mut grouped = Vec::new();
    add_file(&mut grouped, "sentry", "default", file("b.yaml", &["x"]));
    add_file(&mut grouped, "sentry", "default", file("a.yaml", &["y"]));
    add_file(&mut grouped, "sentry", "s4s", file("c.yaml", &["z"]));
    add_file(&mut grouped, "relay", "default", file("d.yaml", &["w"]));
    assert_eq!(grouped.len(), 2);
    assert_eq!(grouped[0].1.len(), 2);
    assert_eq!(grouped[0].1[0].1.len(), 2);
    assert!(ensure_default_targets(&grouped).is_ok());
    let (_, targets) = grouped.remove(0);
    let (_, files) = targets.into_iter().next().unwrap();
    let sorted = sort_files(files);
    let paths: Vec<&str> = sorted.iter().map(|f| f.path.as_str()).collect();
    assert_eq!(paths, vec!["a.yaml", "b.yaml"]);
}

#[test]
fn namespace_without_default_target_is_refused() {
    let mut grouped = Vec::new();
    add_file(&mut grouped, "sentry", "s4s", file("a.yaml", &["x"]));
    assert_eq!(
        ensure_default_targets(&grouped).err().unwrap().message(),
        "Namespace 'sentry' is missing required 'default' target"
    );
}
