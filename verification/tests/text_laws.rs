use mdx_formatter::html_formatter::format_html_block;
use mdx_formatter::lines::{ensure_block_element_spacing, normalize_empty_lines};
use mdx_formatter::yaml::preprocess_yaml_for_parsing;

#[test]
fn normalizing_twice_changes_nothing() {
    for input in [
        "a\n\n\n\nb\n",
        "\n",
        "\n\n\n",
        "- one\n\n\n- two\n",
        "text\n\n\n\n",
        "",
    ] {
        let once = normalize_empty_lines(input);
        assert_eq!(normalize_empty_lines(&once), once, "input: {input:?}");
    }
    assert_eq!(normalize_empty_lines("\n\n\n"), "\n");
}

#[test]
fn yaml_preprocessing_keeps_lines() {
    let input = "title: Hello: World\nplain: value\n  nested: a # b\nlist:\n  - x";
    let out = preprocess_yaml_for_parsing(input);
    let before: Vec<&str> = input.split('\n').collect();
    let after: Vec<&str> = out.split('\n').collect();
    assert_eq!(before.len(), after.len());
    assert_eq!(after[0], "title: \"Hello: World\"");
    assert_eq!(after[1], "plain: value");
    assert_eq!(after[2], "  nested: \"a # b\"");
    assert_eq!(after[3], "list:");
    assert_eq!(after[4], "  - x");
}

#[test]
fn html_block_only_reindents() {
    let input = "<div>\n<p>\nhello\n</p>\n\n   </div>";
    let out = format_html_block(input, 2);
    let a: Vec<&str> = input.split('\n').map(|l| l.trim()).collect();
    let b: Vec<&str> = out.split('\n').map(|l| l.trim()).collect();
    assert_eq!(a, b);
    for line in out.split('\n') {
        let lead = line.len() - line.trim_start().len();
        assert_eq!(lead % 2, 0);
    }
}

#[test]
fn block_spacing_inserts_only_between_nonblank_lines() {
    let input: Vec<String> = "---\ntitle: x\n---\nSome text\n# Heading\n```\ncode\n# not a heading\n```\nafter"
        .split('\n')
        .map(|l| l.to_string())
        .collect();
    let mut out = input.clone();
    ensure_block_element_spacing(&mut out);
    // frontmatter and fenced lines stay together
    assert_eq!(&out[0..3], &input[0..3]);
    let fence = out.iter().position(|l| l == "```").unwrap();
    assert_eq!(out[fence + 1], "code");
    assert_eq!(out[fence + 2], "# not a heading");
    // a blank line went in between the paragraph and the heading
    let p = out.iter().position(|l| l == "Some text").unwrap();
    assert_eq!(out[p + 1], "");
    assert_eq!(out[p + 2], "# Heading");
}
