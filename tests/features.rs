use sentry_options::context::{ContextValue, FeatureContext};
use sentry_options::features::{
    default_rollout, evaluate_config, Sampler, ConditionData, FeatureData, OperatorData, OperatorKind,
    SegmentData,
};
use sentry_options::json::Json;

fn s(v: &str) -> Json {
    Json::Str(v.to_string())
}

fn arr(items: Vec<Json>) -> Json {
    Json::Array(items)
}

fn obj(members: Vec<(&str, Json)>) -> Json {
    Json::Object(members.into_iter().map(|(k, v)| (k.to_string(), v)).collect())
}

fn make_condition(property: &str, kind: OperatorKind, value: Json) -> ConditionData {
    ConditionData {
        property: property.to_string(),
        operator: OperatorData { kind, value },
    }
}

fn make_segment(rollout: u8, conditions: Vec<ConditionData>) -> SegmentData {
    SegmentData {
        name: "test-segment".to_string(),
        rollout,
        conditions,
    }
}

fn make_feature(enabled: bool, segments: Vec<SegmentData>) -> FeatureData {
    FeatureData { enabled, segments }
}

#[test]
fn test_empty_context_id_matches_python() {
    let mut ctx = FeatureContext::new();
    assert_eq!(ctx.id() % 100, 5);
}

#[test]
fn test_context_id_with_fields() {
    let mut ctx = FeatureContext::new();
    ctx.identity_fields(vec!["foo"]);
    ctx.insert("foo", "bar".into());
    assert_eq!(ctx.id() % 100, 93);
}

#[test]
fn test_id_is_cached() {
    let mut ctx = FeatureContext::new();
    ctx.identity_fields(vec!["org"]);
    ctx.insert("org", "sentry".into());
    let first = ctx.id();
    assert_eq!(first, ctx.id());
}

#[test]
fn test_id_resets_on_identity_fields_change() {
    let mut ctx = FeatureContext::new();
    ctx.insert("org", "sentry".into());
    ctx.insert("user", "mark".into());
    ctx.identity_fields(vec!["org"]);
    let id1 = ctx.id();
    ctx.identity_fields(vec!["user"]);
    let id2 = ctx.id();
    assert_ne!(id1, id2);
}

#[test]
fn id_ignores_insertion_order() {
    let mut a = FeatureContext::new();
    a.insert("org", "sentry".into());
    a.insert("user", "mark".into());
    a.insert("count", 42i64.into());
    let mut b = FeatureContext::new();
    b.insert("count", 42i64.into());
    b.insert("user", "mark".into());
    b.insert("org", "sentry".into());
    assert_eq!(a.id(), b.id());
    a.identity_fields(vec!["user", "org"]);
    b.identity_fields(vec!["user", "org"]);
    assert_eq!(a.id(), b.id());
}

#[test]
fn id_uses_only_identity_field_values() {
    let mut a = FeatureContext::new();
    a.identity_fields(vec!["foo"]);
    a.insert("foo", "bar".into());
    a.insert("other", "ignored".into());
    let mut b = FeatureContext::new();
    b.identity_fields(vec!["foo"]);
    b.insert("foo", "bar".into());
    assert_eq!(a.id(), b.id());
    assert_eq!(b.id(), 93);
}

#[test]
fn id_changes_after_insert() {
    let mut ctx = FeatureContext::new();
    assert_eq!(ctx.id(), 5);
    ctx.insert("foo", "bar".into());
    assert_eq!(ctx.id(), 93);
}

#[test]
fn id_is_below_one_hundred_for_lists_and_scalars() {
    let mut ctx = FeatureContext::new();
    ctx.insert("ids", ContextValue::IntList(vec![1, -2, 300]));
    ctx.insert("flags", ContextValue::BoolList(vec![true, false]));
    ctx.insert("names", ContextValue::StringList(vec!["a\"b".to_string()]));
    ctx.insert("on", true.into());
    ctx.insert("n", (-17i64).into());
    assert!(ctx.id() < 100);
}

#[test]
fn test_disabled_feature_returns_false() {
    let feature = make_feature(false, vec![make_segment(100, vec![])]);
    let mut ctx = FeatureContext::new();
    assert!(!feature.evaluate("test", &mut ctx));
}

#[test]
fn test_no_segments_returns_false() {
    let feature = make_feature(true, vec![]);
    let mut ctx = FeatureContext::new();
    assert!(!feature.evaluate("test", &mut ctx));
}

#[test]
fn test_matching_context_returns_true() {
    let feature = make_feature(
        true,
        vec![make_segment(
            100,
            vec![make_condition("org", OperatorKind::In, arr(vec![s("sentry"), s("test")]))],
        )],
    );
    let mut ctx = FeatureContext::new();
    ctx.insert("org", "sentry".into());
    assert!(feature.evaluate("test", &mut ctx));
}

#[test]
fn test_missing_context_field_returns_false() {
    let feature = make_feature(
        true,
        vec![make_segment(
            100,
            vec![make_condition("org", OperatorKind::In, arr(vec![s("sentry")]))],
        )],
    );
    let mut ctx = FeatureContext::new();
    assert!(!feature.evaluate("test", &mut ctx));
}

#[test]
fn test_context_key_present_but_value_does_not_match() {
    let feature = make_feature(
        true,
        vec![make_segment(
            100,
            vec![make_condition("org", OperatorKind::In, arr(vec![s("sentry")]))],
        )],
    );
    let mut ctx = FeatureContext::new();
    ctx.insert("org", "other".into());
    assert!(!feature.evaluate("test", &mut ctx));
}

#[test]
fn test_rollout_zero_returns_false() {
    let feature = make_feature(true, vec![make_segment(0, vec![])]);
    let mut ctx = FeatureContext::new();
    assert!(!feature.evaluate("test", &mut ctx));
}

#[test]
fn test_rollout_hundred_returns_true() {
    let feature = make_feature(true, vec![make_segment(100, vec![])]);
    let mut ctx = FeatureContext::new();
    assert!(feature.evaluate("test", &mut ctx));
}

#[test]
fn rollout_compares_bucket_inclusively() {
    // the empty context falls in bucket 5
    let mut ctx = FeatureContext::new();
    assert!(make_feature(true, vec![make_segment(5, vec![])]).evaluate("t", &mut ctx));
    assert!(!make_feature(true, vec![make_segment(4, vec![])]).evaluate("t", &mut ctx));
}

#[test]
fn segment_out_of_rollout_falls_through_to_next() {
    let feature = make_feature(true, vec![make_segment(1, vec![]), make_segment(100, vec![])]);
    let mut ctx = FeatureContext::new();
    assert!(feature.evaluate("t", &mut ctx));
}

#[test]
fn test_rollout_determinism() {
    let feature = make_feature(
        true,
        vec![make_segment(
            50,
            vec![make_condition("org", OperatorKind::Equals, s("sentry"))],
        )],
    );
    let mut ctx = FeatureContext::new();
    ctx.identity_fields(vec!["org"]);
    ctx.insert("org", "sentry".into());
    let result = feature.evaluate("test", &mut ctx);
    for _ in 0..10 {
        assert_eq!(feature.evaluate("test", &mut ctx), result);
    }
}

#[test]
fn test_in_operator_matching() {
    let mut ctx = FeatureContext::new();
    ctx.insert("org", "Sentry".into());
    let cond = make_condition("org", OperatorKind::In, arr(vec![s("sentry"), s("test")]));
    assert!(cond.evaluate(&ctx));
}

#[test]
fn test_in_operator_no_match() {
    let mut ctx = FeatureContext::new();
    ctx.insert("org", "other".into());
    let cond = make_condition("org", OperatorKind::In, arr(vec![s("sentry"), s("test")]));
    assert!(!cond.evaluate(&ctx));
}

#[test]
fn test_not_in_operator() {
    let mut ctx = FeatureContext::new();
    ctx.insert("org", "other".into());
    let cond = make_condition("org", OperatorKind::NotIn, arr(vec![s("sentry"), s("test")]));
    assert!(cond.evaluate(&ctx));
    let cond2 = make_condition("org", OperatorKind::NotIn, arr(vec![s("other")]));
    assert!(!cond2.evaluate(&ctx));
}

#[test]
fn test_contains_operator() {
    let mut ctx = FeatureContext::new();
    ctx.insert(
        "orgs",
        ContextValue::StringList(vec!["sentry".to_string(), "test".to_string()]),
    );
    let cond = make_condition("orgs", OperatorKind::Contains, s("Sentry"));
    assert!(cond.evaluate(&ctx));
    let cond2 = make_condition("orgs", OperatorKind::Contains, s("other"));
    assert!(!cond2.evaluate(&ctx));
}

#[test]
fn test_not_contains_operator() {
    let mut ctx = FeatureContext::new();
    ctx.insert("orgs", ContextValue::StringList(vec!["sentry".to_string()]));
    let cond = make_condition("orgs", OperatorKind::NotContains, s("other"));
    assert!(cond.evaluate(&ctx));
    let cond2 = make_condition("orgs", OperatorKind::NotContains, s("sentry"));
    assert!(!cond2.evaluate(&ctx));
}

#[test]
fn test_equals_string_case_insensitive() {
    let mut ctx = FeatureContext::new();
    ctx.insert("name", "Sentry".into());
    let cond = make_condition("name", OperatorKind::Equals, s("sentry"));
    assert!(cond.evaluate(&ctx));
}

#[test]
fn test_equals_int() {
    let mut ctx = FeatureContext::new();
    ctx.insert("count", 42i64.into());
    let cond = make_condition("count", OperatorKind::Equals, Json::Int(42));
    assert!(cond.evaluate(&ctx));
    let cond2 = make_condition("count", OperatorKind::Equals, Json::Int(43));
    assert!(!cond2.evaluate(&ctx));
}

#[test]
fn test_equals_bool() {
    let mut ctx = FeatureContext::new();
    ctx.insert("active", true.into());
    let cond = make_condition("active", OperatorKind::Equals, Json::Bool(true));
    assert!(cond.evaluate(&ctx));
    let cond2 = make_condition("active", OperatorKind::Equals, Json::Bool(false));
    assert!(!cond2.evaluate(&ctx));
}

#[test]
fn test_equals_type_mismatch_returns_false() {
    let mut ctx = FeatureContext::new();
    ctx.insert("count", 42i64.into());
    let cond = make_condition("count", OperatorKind::Equals, s("42"));
    assert!(!cond.evaluate(&ctx));

    let mut ctx2 = FeatureContext::new();
    ctx2.insert("name", "42".into());
    let cond2 = make_condition("name", OperatorKind::Equals, Json::Int(42));
    assert!(!cond2.evaluate(&ctx2));

    let mut ctx3 = FeatureContext::new();
    ctx3.insert("active", true.into());
    let cond3 = make_condition("active", OperatorKind::Equals, Json::Int(1));
    assert!(!cond3.evaluate(&ctx3));
}

#[test]
fn test_not_equals_operator() {
    let mut ctx = FeatureContext::new();
    ctx.insert("status", "active".into());
    let cond = make_condition("status", OperatorKind::NotEquals, s("inactive"));
    assert!(cond.evaluate(&ctx));
    let cond2 = make_condition("status", OperatorKind::NotEquals, s("active"));
    assert!(!cond2.evaluate(&ctx));
}

#[test]
fn test_context_value_from_string_owned() {
    let cv: ContextValue = String::from("hello").into();
    assert!(matches!(cv, ContextValue::String(s) if s == "hello"));
}

#[test]
fn test_context_value_from_vec_string() {
    let cv: ContextValue = vec!["a".to_string(), "b".to_string()].into();
    assert!(matches!(cv, ContextValue::StringList(v) if v.len() == 2));
}

#[test]
fn test_context_value_from_vec_i64() {
    let cv: ContextValue = vec![1i64, 2i64, 3i64].into();
    assert!(matches!(cv, ContextValue::IntList(v) if v.len() == 3));
}

#[test]
fn test_feature_context_has() {
    let mut ctx = FeatureContext::new();
    assert!(!ctx.has("org"));
    ctx.insert("org", "sentry".into());
    assert!(ctx.has("org"));
    assert!(!ctx.has("user"));
}

#[test]
fn test_feature_context_default_is_empty() {
    let ctx = FeatureContext::default();
    assert!(!ctx.has("anything"));
}

#[test]
fn insert_overwrites_value() {
    let mut ctx = FeatureContext::new();
    ctx.insert("org", "sentry".into());
    ctx.insert("org", "other".into());
    assert!(matches!(ctx.get("org"), Some(ContextValue::String(s)) if s == "other"));
}

#[test]
fn test_in_operator_with_list_prop_returns_false() {
    let mut ctx = FeatureContext::new();
    ctx.insert("orgs", ContextValue::StringList(vec!["sentry".to_string()]));
    let cond = make_condition("orgs", OperatorKind::In, arr(vec![s("sentry")]));
    assert!(!cond.evaluate(&ctx));
}

#[test]
fn test_in_operator_non_array_value_returns_false() {
    let mut ctx = FeatureContext::new();
    ctx.insert("org", "sentry".into());
    let cond = make_condition("org", OperatorKind::In, s("sentry"));
    assert!(!cond.evaluate(&ctx));
}

#[test]
fn test_contains_missing_prop_returns_false() {
    let ctx = FeatureContext::new();
    let cond = make_condition("orgs", OperatorKind::Contains, s("sentry"));
    assert!(!cond.evaluate(&ctx));
}

#[test]
fn test_contains_int_list() {
    let mut ctx = FeatureContext::new();
    ctx.insert("ids", ContextValue::IntList(vec![1, 2, 3]));
    let cond = make_condition("ids", OperatorKind::Contains, Json::Int(2));
    assert!(cond.evaluate(&ctx));
    let cond2 = make_condition("ids", OperatorKind::Contains, Json::Int(4));
    assert!(!cond2.evaluate(&ctx));
}

#[test]
fn test_contains_bool_list() {
    let mut ctx = FeatureContext::new();
    ctx.insert("flags", ContextValue::BoolList(vec![true, false]));
    let cond = make_condition("flags", OperatorKind::Contains, Json::Bool(true));
    assert!(cond.evaluate(&ctx));
    let cond2 = make_condition("flags", OperatorKind::Contains, Json::Bool(false));
    assert!(cond2.evaluate(&ctx));
}

#[test]
fn test_contains_scalar_prop_returns_false() {
    let mut ctx = FeatureContext::new();
    ctx.insert("org", "sentry".into());
    let cond = make_condition("org", OperatorKind::Contains, s("sentry"));
    assert!(!cond.evaluate(&ctx));
}

#[test]
fn test_equals_list_type_returns_false() {
    let mut ctx = FeatureContext::new();
    ctx.insert("orgs", ContextValue::StringList(vec!["sentry".to_string()]));
    let cond = make_condition("orgs", OperatorKind::Equals, s("sentry"));
    assert!(!cond.evaluate(&ctx));
}

#[test]
fn missing_property_makes_every_condition_false() {
    let ctx = FeatureContext::new();
    assert!(!make_condition("x", OperatorKind::In, arr(vec![s("a")])).evaluate(&ctx));
    assert!(!make_condition("x", OperatorKind::NotIn, arr(vec![s("a")])).evaluate(&ctx));
    assert!(!make_condition("x", OperatorKind::Contains, s("a")).evaluate(&ctx));
    assert!(!make_condition("x", OperatorKind::NotContains, s("a")).evaluate(&ctx));
    assert!(!make_condition("x", OperatorKind::Equals, s("a")).evaluate(&ctx));
    assert!(!make_condition("x", OperatorKind::NotEquals, s("a")).evaluate(&ctx));
}

#[test]
fn negation_on_missing_property_keeps_feature_off() {
    let feature = make_feature(
        true,
        vec![make_segment(100, vec![make_condition("org", OperatorKind::NotIn, arr(vec![s("x")]))])],
    );
    let mut ctx = FeatureContext::new();
    assert!(!feature.evaluate("t", &mut ctx));
    ctx.insert("org", "sentry".into());
    assert!(feature.evaluate("t", &mut ctx));
}

#[test]
fn test_default_rollout_via_deserialization() {
    let segment = SegmentData::from_json(obj(vec![("name", s("test")), ("conditions", arr(vec![]))]))
        .unwrap();
    assert_eq!(segment.rollout, 100);
    assert_eq!(default_rollout(), 100);
}

#[test]
fn test_multi_condition_segment_and_logic() {
    let feature = make_feature(
        true,
        vec![make_segment(
            100,
            vec![
                make_condition("org", OperatorKind::In, arr(vec![s("sentry")])),
                make_condition("user", OperatorKind::In, arr(vec![s("mark@sentry.io")])),
            ],
        )],
    );

    let mut ctx_both = FeatureContext::new();
    ctx_both.insert("org", "sentry".into());
    ctx_both.insert("user", "mark@sentry.io".into());
    assert!(feature.evaluate("test", &mut ctx_both));

    let mut ctx_one = FeatureContext::new();
    ctx_one.insert("org", "sentry".into());
    ctx_one.insert("user", "other@test.com".into());
    assert!(!feature.evaluate("test", &mut ctx_one));
}

#[test]
fn test_multi_segment_or_logic() {
    let feature = make_feature(
        true,
        vec![
            make_segment(100, vec![make_condition("org", OperatorKind::In, arr(vec![s("sentry")]))]),
            make_segment(
                100,
                vec![make_condition("is_free", OperatorKind::Equals, Json::Bool(true))],
            ),
        ],
    );

    let mut ctx1 = FeatureContext::new();
    ctx1.insert("org", "sentry".into());
    assert!(feature.evaluate("test", &mut ctx1));

    let mut ctx2 = FeatureContext::new();
    ctx2.insert("is_free", true.into());
    assert!(feature.evaluate("test", &mut ctx2));

    let mut ctx3 = FeatureContext::new();
    ctx3.insert("org", "other".into());
    ctx3.insert("is_free", false.into());
    assert!(!feature.evaluate("test", &mut ctx3));
}

fn feature_doc(enabled: Json, segments: Vec<Json>) -> Json {
    obj(vec![("enabled", enabled), ("segments", arr(segments))])
}

fn segment_doc(rollout: Option<Json>, conditions: Vec<Json>) -> Json {
    let mut members = vec![("name", s("all"))];
    if let Some(r) = rollout {
        members.push(("rollout", r));
    }
    members.push(("conditions", arr(conditions)));
    obj(members)
}

fn condition_doc(property: &str, kind: &str, value: Json) -> Json {
    obj(vec![
        ("property", s(property)),
        ("operator", obj(vec![("kind", s(kind)), ("value", value)])),
    ])
}

#[test]
fn config_matching_context_is_on() {
    let doc = feature_doc(
        Json::Bool(true),
        vec![segment_doc(
            Some(Json::Int(100)),
            vec![condition_doc("organization_slug", "in", arr(vec![s("sentry"), s("sentry-test")]))],
        )],
    );
    let mut ctx = FeatureContext::new();
    ctx.insert("organization_slug", "sentry".into());
    assert!(evaluate_config(Some(doc), "f", &mut ctx));
}

#[test]
fn config_missing_is_off() {
    let mut ctx = FeatureContext::new();
    assert!(!evaluate_config(None, "f", &mut ctx));
}

#[test]
fn config_with_unknown_operator_is_off() {
    let doc = feature_doc(
        Json::Bool(true),
        vec![segment_doc(None, vec![condition_doc("org", "bananas", arr(vec![s("sentry")]))])],
    );
    let mut ctx = FeatureContext::new();
    ctx.insert("org", "sentry".into());
    assert!(!evaluate_config(Some(doc), "f", &mut ctx));
}

#[test]
fn config_with_rollout_out_of_range_is_off() {
    for r in [101i64, 500, -1] {
        let doc = feature_doc(Json::Bool(true), vec![segment_doc(Some(Json::Int(r)), vec![])]);
        let mut ctx = FeatureContext::new();
        assert!(!evaluate_config(Some(doc), "f", &mut ctx));
    }
}

#[test]
fn config_condition_without_property_is_off() {
    let cond = obj(vec![("operator", obj(vec![("kind", s("in")), ("value", arr(vec![s("x")]))]))]);
    let doc = feature_doc(Json::Bool(true), vec![segment_doc(None, vec![cond])]);
    let mut ctx = FeatureContext::new();
    assert!(!evaluate_config(Some(doc), "f", &mut ctx));
}

#[test]
fn config_enabled_must_be_boolean() {
    let doc = feature_doc(s("true"), vec![segment_doc(None, vec![])]);
    let mut ctx = FeatureContext::new();
    assert!(!evaluate_config(Some(doc), "f", &mut ctx));
    let ok = feature_doc(Json::Bool(true), vec![segment_doc(None, vec![])]);
    assert!(evaluate_config(Some(ok), "f", &mut ctx));
}

#[test]
fn config_disabled_is_off() {
    let doc = feature_doc(Json::Bool(false), vec![segment_doc(Some(Json::Int(100)), vec![])]);
    let mut ctx = FeatureContext::new();
    assert!(!evaluate_config(Some(doc), "f", &mut ctx));
}

#[test]
fn config_parses_every_operator_kind() {
    let kinds = [
        ("in", OperatorKind::In),
        ("not_in", OperatorKind::NotIn),
        ("contains", OperatorKind::Contains),
        ("not_contains", OperatorKind::NotContains),
        ("equals", OperatorKind::Equals),
        ("not_equals", OperatorKind::NotEquals),
    ];
    for (name, kind) in kinds {
        let c = ConditionData::from_json(condition_doc("p", name, Json::Null)).unwrap();
        assert!(c.operator.kind == kind);
        assert_eq!(c.property, "p");
    }
}

#[test]
fn sampler_every_call() {
    let mut s = Sampler::new(1);
    assert!((0..5).all(|_| s.should_sample()));
}

#[test]
fn sampler_never() {
    let mut s = Sampler::new(0);
    assert!((0..5).all(|_| !s.should_sample()));
}

#[test]
fn sampler_every_second_call() {
    let mut s = Sampler::new(2);
    let results: Vec<bool> = (0..6).map(|_| s.should_sample()).collect();
    assert_eq!(results, vec![true, false, true, false, true, false]);
}

fn shown(v: &ContextValue) -> String {
    String::from_utf8(v.identity_text()).unwrap()
}

#[test]
fn test_context_value_display_scalar_types() {
    assert_eq!(shown(&ContextValue::String("hello".to_string())), "hello");
    assert_eq!(shown(&ContextValue::Int(42)), "42");
    assert_eq!(shown(&ContextValue::Bool(true)), "True");
    assert_eq!(shown(&ContextValue::Bool(false)), "False");
}

#[test]
fn test_context_value_display_list_types() {
    let sl = ContextValue::StringList(vec!["a".to_string(), "b".to_string()]);
    assert!(shown(&sl).contains("a"));
    let il = ContextValue::IntList(vec![1, 2, 3]);
    assert!(shown(&il).contains("1"));
    let bl = ContextValue::BoolList(vec![true, false]);
    assert!(shown(&bl).contains("true"));
}

#[test]
fn identity_text_of_lists_matches_debug_form() {
    assert_eq!(shown(&ContextValue::StringList(vec!["a".to_string(), "b\"c".to_string()])), "[\"a\", \"b\\\"c\"]");
    assert_eq!(shown(&ContextValue::IntList(vec![1, -20, 300])), "[1, -20, 300]");
    assert_eq!(shown(&ContextValue::BoolList(vec![true, false])), "[true, false]");
    assert_eq!(shown(&ContextValue::IntList(vec![])), "[]");
    assert_eq!(shown(&ContextValue::Int(i64::MIN)), "-9223372036854775808");
}
