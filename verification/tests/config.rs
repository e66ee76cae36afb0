use mdx_formatter::config::{
    deep_merge_json, exclude_patterns, json_eq, lookup, merge_layers, package_config_of_text,
    parse_json, remove_key, JsonValue,
};

fn j(text: &str) -> JsonValue {
    parse_json(text).expect("valid JSON")
}

fn same(a: &JsonValue, b: &str) -> bool {
    json_eq(a, &j(b))
}

#[test]
fn deep_merge_json_scalar_override() {
    let target = j(r#"{"a": 1, "b": 2}"#);
    let source = j(r#"{"b": 99}"#);
    let result = deep_merge_json(&target, &source);
    assert!(same(&result, r#"{"a": 1, "b": 99}"#));
}

#[test]
fn deep_merge_json_nested_objects() {
    let target = j(r#"{"outer": {"a": 1, "b": 2}}"#);
    let source = j(r#"{"outer": {"b": 99, "c": 3}}"#);
    let result = deep_merge_json(&target, &source);
    assert!(same(&result, r#"{"outer": {"a": 1, "b": 99, "c": 3}}"#));
}

#[test]
fn deep_merge_json_array_replacement() {
    let target = j(r#"{"items": [1, 2, 3]}"#);
    let source = j(r#"{"items": [4, 5]}"#);
    let result = deep_merge_json(&target, &source);
    assert!(same(&result, r#"{"items": [4, 5]}"#));
}

#[test]
fn deep_merge_json_add_new_keys() {
    let target = j(r#"{"a": 1}"#);
    let source = j(r#"{"b": 2}"#);
    let result = deep_merge_json(&target, &source);
    assert!(same(&result, r#"{"a": 1, "b": 2}"#));
}

#[test]
fn deep_merge_json_deeply_nested() {
    let target = j(r#"{"l1": {"l2": {"l3": {"a": 1, "b": 2}}}}"#);
    let source = j(r#"{"l1": {"l2": {"l3": {"b": 99}}}}"#);
    let result = deep_merge_json(&target, &source);
    assert!(same(&result, r#"{"l1": {"l2": {"l3": {"a": 1, "b": 99}}}}"#));
}

#[test]
fn deep_merge_json_empty_source() {
    let target = j(r#"{"a": 1, "b": 2}"#);
    let source = j(r#"{}"#);
    let result = deep_merge_json(&target, &source);
    assert!(same(&result, r#"{"a": 1, "b": 2}"#));
}

#[test]
fn deep_merge_json_source_replaces_object_with_scalar() {
    let target = j(r#"{"a": {"nested": 1}}"#);
    let source = j(r#"{"a": "replaced"}"#);
    let result = deep_merge_json(&target, &source);
    assert!(same(&result, r#"{"a": "replaced"}"#));
}

#[test]
fn merge_non_object_source_replaces_target() {
    let target = j(r#"{"a": 1}"#);
    let source = j(r#"[1, 2]"#);
    assert!(same(&deep_merge_json(&target, &source), "[1, 2]"));
    assert!(same(&deep_merge_json(&j("3"), &j(r#"{"x": true}"#)), r#"{"x": true}"#));
}

#[test]
fn merge_keeps_target_keys_first() {
    let target = j(r#"{"b": 1, "d": 2}"#);
    let source = j(r#"{"a": 3, "d": 4}"#);
    let result = deep_merge_json(&target, &source);
    match &result {
        JsonValue::Object(entries) => {
            let keys: Vec<&str> = entries.iter().map(|(k, _)| k.as_str()).collect();
            assert_eq!(keys, vec!["b", "d", "a"]);
        }
        other => panic!("expected an object, got {:?}", other),
    }
}

#[test]
fn json_eq_distinguishes_values() {
    assert!(json_eq(&j(r#"{"a": [1, "x", null, true]}"#), &j(r#"{"a": [1, "x", null, true]}"#)));
    assert!(!json_eq(&j(r#"{"a": 1}"#), &j(r#"{"a": 2}"#)));
    assert!(!json_eq(&j("[1]"), &j("[1, 1]")));
    assert!(!json_eq(&j("true"), &j("false")));
    assert!(!json_eq(&j(r#""1""#), &j("1")));
}

#[test]
fn parse_json_rejects_invalid_text() {
    assert!(parse_json("not json").is_none());
    assert!(parse_json("{\"a\": }").is_none());
}

#[test]
fn exclude_patterns_keeps_strings_only() {
    let fc = j(r#"{"exclude": ["valid", 123, null, "also-valid"]}"#);
    assert_eq!(exclude_patterns(&fc), vec!["valid".to_string(), "also-valid".to_string()]);
    assert!(exclude_patterns(&j(r#"{"exclude": "x"}"#)).is_empty());
    assert!(exclude_patterns(&j(r#"{"other": ["x"]}"#)).is_empty());
}

#[test]
fn remove_key_drops_only_that_key() {
    let v = j(r#"{"a": 1, "exclude": ["x"], "z": 2}"#);
    assert!(same(&remove_key(&v, "exclude"), r#"{"a": 1, "z": 2}"#));
    assert!(same(&remove_key(&v, "missing"), r#"{"a": 1, "exclude": ["x"], "z": 2}"#));
}

#[test]
fn lookup_finds_a_key() {
    let v = j(r#"{"a": {"b": 5}}"#);
    let found = lookup(&v, "a").expect("present");
    assert!(same(found, r#"{"b": 5}"#));
    assert!(lookup(&v, "b").is_none());
    assert!(lookup(&j("[1]"), "a").is_none());
}

#[test]
fn merge_layers_three_layers() {
    let defaults = j(r#"{"formatMultiLineJsx": {"indentSize": 2, "enabled": true}, "expandSingleLineJsx": {"enabled": false, "propsThreshold": 3}}"#);
    let file = j(r#"{"exclude": ["node_modules/**", "dist/**"], "formatMultiLineJsx": {"indentSize": 4}, "expandSingleLineJsx": {"enabled": true, "propsThreshold": 5}}"#);
    let overrides = j(r#"{"formatMultiLineJsx": {"indentSize": 10}}"#);
    let (merged, excludes) = merge_layers(&defaults, Some(&file), Some(&overrides));
    assert_eq!(excludes, vec!["node_modules/**".to_string(), "dist/**".to_string()]);
    assert!(same(
        &merged,
        r#"{"formatMultiLineJsx": {"indentSize": 10, "enabled": true}, "expandSingleLineJsx": {"enabled": true, "propsThreshold": 5}}"#
    ));
}

#[test]
fn merge_layers_without_file() {
    let defaults = j(r#"{"a": {"b": 1}}"#);
    let (merged, excludes) = merge_layers(&defaults, None, None);
    assert!(excludes.is_empty());
    assert!(same(&merged, r#"{"a": {"b": 1}}"#));
}

#[test]
fn package_config_takes_the_formatter_section() {
    let text = r#"{"name": "test", "mdx-formatter": {"expandSingleLineJsx": {"enabled": true}}}"#;
    let c = package_config_of_text(text).expect("section");
    assert!(same(&c, r#"{"expandSingleLineJsx": {"enabled": true}}"#));
    assert!(package_config_of_text(r#"{"name": "test"}"#).is_none());
    assert!(package_config_of_text(r#"{"mdx-formatter": 3}"#).is_none());
    assert!(package_config_of_text("nonsense").is_none());
}

#[test]
fn exclude_key_does_not_reach_the_merged_settings() {
    let defaults = j(r#"{"addEmptyLineBetweenElements": {"enabled": true}}"#);
    let file = j(r#"{"exclude": ["*.tmp"], "formatMultiLineJsx": {"indentSize": 3}}"#);
    let (merged, excludes) = merge_layers(&defaults, Some(&file), None);
    assert_eq!(excludes, vec!["*.tmp".to_string()]);
    assert!(lookup(&merged, "exclude").is_none());
    assert!(same(
        &merged,
        r#"{"addEmptyLineBetweenElements": {"enabled": true}, "formatMultiLineJsx": {"indentSize": 3}}"#
    ));
}
