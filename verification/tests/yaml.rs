use mdx_formatter::yaml::{
    is_block_scalar_indicator, is_block_scalar_key_line, needs_quoting, preprocess_yaml_for_parsing,
    quote_string,
};

#[test]
fn test_preprocess_skip_already_quoted() {
    let input = "title: \"Hello: World\"";
    let result = preprocess_yaml_for_parsing(input);
    assert_eq!(result, input);
}

#[test]
fn test_preprocess_skip_single_quoted() {
    let input = "title: 'Hello: World'";
    let result = preprocess_yaml_for_parsing(input);
    assert_eq!(result, input);
}

#[test]
fn test_preprocess_skip_flow_sequence() {
    let input = "tags: [a, b, c]";
    let result = preprocess_yaml_for_parsing(input);
    assert_eq!(result, input);
}

#[test]
fn test_preprocess_skip_flow_mapping() {
    let input = "meta: {key: value}";
    let result = preprocess_yaml_for_parsing(input);
    assert_eq!(result, input);
}

#[test]
fn test_preprocess_skip_block_scalar() {
    let input = "description: >";
    let result = preprocess_yaml_for_parsing(input);
    assert_eq!(result, input);
}

#[test]
fn test_preprocess_quote_colon() {
    let input = "title: Hello: World";
    let result = preprocess_yaml_for_parsing(input);
    assert_eq!(result, "title: \"Hello: World\"");
}

#[test]
fn test_preprocess_quote_hash() {
    let input = "title: Hello #world";
    let result = preprocess_yaml_for_parsing(input);
    assert_eq!(result, "title: \"Hello #world\"");
}

#[test]
fn test_preprocess_quote_special_start_chars() {
    let input = "title: !important";
    let result = preprocess_yaml_for_parsing(input);
    assert_eq!(result, "title: \"!important\"");
}

#[test]
fn test_preprocess_escape_quotes_in_value() {
    let input = "title: She said \"hello\": goodbye";
    let result = preprocess_yaml_for_parsing(input);
    assert_eq!(result, "title: \"She said \\\"hello\\\": goodbye\"");
}

#[test]
fn test_needs_quoting_empty() {
    assert!(needs_quoting(""));
}

#[test]
fn test_needs_quoting_keywords() {
    assert!(needs_quoting("true"));
    assert!(needs_quoting("false"));
    assert!(needs_quoting("null"));
    assert!(needs_quoting("yes"));
    assert!(needs_quoting("no"));
    assert!(needs_quoting("True"));
    assert!(needs_quoting("FALSE"));
}

#[test]
fn test_needs_quoting_numbers() {
    assert!(needs_quoting("42"));
    assert!(needs_quoting("3.14"));
    assert!(needs_quoting("-1"));
}

#[test]
fn test_needs_quoting_special_chars() {
    assert!(needs_quoting("hello: world"));
    assert!(needs_quoting("hello #comment"));
    assert!(needs_quoting("!important"));
    assert!(needs_quoting("&anchor"));
    assert!(needs_quoting("*alias"));
}

#[test]
fn test_needs_quoting_normal_strings() {
    assert!(!needs_quoting("hello"));
    assert!(!needs_quoting("Hello World"));
    assert!(!needs_quoting("my-title"));
    assert!(!needs_quoting("some_value"));
}

#[test]
fn test_block_scalar_re_variants() {
    for indicator in &[">", "|", ">-", "|-", ">+", "|+", "|2-", ">1+", "|2", ">3"] {
        assert!(
            is_block_scalar_indicator(indicator),
            "BLOCK_SCALAR_RE should match {:?}",
            indicator
        );
    }
    for not_indicator in &["text", "42", ">text", "| extra"] {
        assert!(
            !is_block_scalar_indicator(not_indicator),
            "BLOCK_SCALAR_RE should NOT match {:?}",
            not_indicator
        );
    }
}

#[test]
fn test_yaml_block_scalar_key_re_indent_indicators() {
    for key_line in &[
        "description: |2-",
        "description: >1+",
        "body: |+",
        "body: >+",
    ] {
        assert!(
            is_block_scalar_key_line(key_line),
            "YAML_BLOCK_SCALAR_KEY_RE should match {:?}",
            key_line
        );
    }
}

#[test]
fn test_yaml_block_scalar_key_re_trailing_comment() {
    let line = "description: >- # this is a note";
    assert!(
        is_block_scalar_key_line(line),
        "Trailing comment should not prevent block scalar detection"
    );
}

#[test]
fn needs_quoting_float_forms() {
    assert!(needs_quoting("1e5"));
    assert!(needs_quoting("+.5"));
    assert!(needs_quoting("inf"));
    assert!(needs_quoting("NaN"));
    assert!(!needs_quoting("1.2.3"));
    assert!(!needs_quoting("e5"));
}

#[test]
fn quote_string_escapes() {
    assert_eq!(quote_string("a\"b\\c", "\""), "\"a\\\"b\\\\c\"");
    assert_eq!(quote_string("it's", "'"), "'it''s'");
}
