use mdx_formatter::lines::ensure_block_element_spacing;

const FENCED_TOP_LEVEL_INPUT: &str = "## Heading\n\nHere is a sample:\n\n```ts\nexport default {\n  site: \"https://example.com\",\n};\n```\n";

const FENCED_NESTED_4BACKTICK_INPUT: &str = "## 複雑な内容（コードブロック、複数段落を含む） → 見出し構造\n\n````markdown\n## 使用方法\n\n### 1. HTMLマークアップ\n\n```html\n<div id=\"app\"></div>\n```\n\n### 2. 初期化\n\n```js\nmyLibrary.init({\n  /* ... */\n});\n```\n````\n";

const FENCED_TILDE_INPUT: &str = "~~~ts\nconst x = 1;\n~~~\n";

#[test]
fn regression_bulleted_continuation_post_processing_inserts_nothing() {
    let input = "- **Device Override** — settings can now be tailored per device on top of a\n  shared base settings file. Each install picks a local device name.";
    let mut lines: Vec<String> = input.split('\n').map(|s| s.to_string()).collect();
    let before = lines.clone();
    ensure_block_element_spacing(&mut lines);
    assert_eq!(
        lines, before,
        "ensure_block_element_spacing must be a no-op for bulleted list-item continuation; before={:?}\nafter={:?}",
        before, lines
    );
}

#[test]
fn regression_ordered_continuation_post_processing_inserts_nothing() {
    let input = "1. **Confirm with the user**: Before doing anything, use `AskUserQuestion` to\n   confirm what the user wants to document and verify they intentionally\n   triggered update mode.\n2. **Understand the new info**: Ask the user what they learned or want to\n   document. The topic keyword (if provided) hints at the subject area.";
    let mut lines: Vec<String> = input.split('\n').map(|s| s.to_string()).collect();
    let before = lines.clone();
    ensure_block_element_spacing(&mut lines);
    assert_eq!(
        lines, before,
        "ensure_block_element_spacing must be a no-op for ordered list-item continuation; before={:?}\nafter={:?}",
        before, lines
    );
}

#[test]
fn regression_fenced_top_level_post_processing_is_noop() {
    let mut lines: Vec<String> =
        FENCED_TOP_LEVEL_INPUT.split('\n').map(|s| s.to_string()).collect();
    let before = lines.clone();
    ensure_block_element_spacing(&mut lines);
    assert_eq!(
        lines, before,
        "ensure_block_element_spacing must be a no-op inside a top-level fenced block"
    );
}

#[test]
fn regression_fenced_nested_4backtick_post_processing_is_noop() {
    let mut lines: Vec<String> = FENCED_NESTED_4BACKTICK_INPUT
        .split('\n')
        .map(|s| s.to_string())
        .collect();
    let before = lines.clone();
    ensure_block_element_spacing(&mut lines);
    assert_eq!(
        lines, before,
        "ensure_block_element_spacing must be a no-op for nested 4-backtick / html+js case; \
         fence-nesting state must not leak between the two inner blocks"
    );
}

#[test]
fn regression_fenced_tilde_post_processing_is_noop() {
    let mut lines: Vec<String> =
        FENCED_TILDE_INPUT.split('\n').map(|s| s.to_string()).collect();
    let before = lines.clone();
    ensure_block_element_spacing(&mut lines);
    assert_eq!(
        lines, before,
        "ensure_block_element_spacing must be a no-op inside a tilde-fenced block"
    );
}

#[test]
fn paragraph_then_heading_gets_blank_line() {
    let mut lines: Vec<String> = vec!["Some text".to_string(), "## Title".to_string()];
    ensure_block_element_spacing(&mut lines);
    assert_eq!(lines, vec!["Some text".to_string(), String::new(), "## Title".to_string()]);
}

#[test]
fn list_then_paragraph_gets_blank_line() {
    let mut lines: Vec<String> = vec!["- item".to_string(), "After".to_string()];
    ensure_block_element_spacing(&mut lines);
    assert_eq!(lines, vec!["- item".to_string(), String::new(), "After".to_string()]);
}

#[test]
fn frontmatter_is_left_alone() {
    let mut lines: Vec<String> = vec!["---".to_string(), "title: x".to_string(), "- a: b".to_string(), "---".to_string()];
    let before = lines.clone();
    ensure_block_element_spacing(&mut lines);
    assert_eq!(lines, before);
}
