use mdx_formatter::formatter::{format_with_sink, try_format};
use mdx_formatter::lines::{ensure_block_element_spacing, normalize_empty_lines};
use mdx_formatter::report::{report_entry_lines, ReportEntry, VecSink};
use mdx_formatter::types::{
    FormatterSettings, RecoverEscapedCodeMode, RecoverEscapedParagraphsMode,
    RecoverEscapedTablesMode, TightenListContinuationsMode, TightenListItemSpacingMode,
};
use mdx_formatter::yaml_emit::{parse_yaml, YamlValue};

fn lines(s: &str) -> Vec<String> {
    s.split('\n').map(|l| l.to_string()).collect()
}

fn nonblank(ls: &[String]) -> Vec<String> {
    ls.iter().filter(|l| !l.trim().is_empty()).cloned().collect()
}

#[test]
fn block_spacing_only_adds_empty_lines() {
    let input = lines("Some paragraph\n# Heading\ntext\n- item\n```js\nx\n```\nafter");
    let mut out = input.clone();
    ensure_block_element_spacing(&mut out);
    assert_eq!(nonblank(&out), nonblank(&input));
    assert!(out.len() > input.len());
    for l in &out {
        assert!(input.contains(l) || l.is_empty());
    }
    assert_eq!(out[0], "Some paragraph");
    assert_eq!(out[1], "");
    assert_eq!(out[2], "# Heading");
}

#[test]
fn normalize_collapses_blank_runs() {
    assert_eq!(normalize_empty_lines("a\n\n\n\nb"), "a\n\nb");
    assert_eq!(normalize_empty_lines("a\n   \n\t\nb\n"), "a\n\nb\n");
    assert_eq!(normalize_empty_lines("- a\n\n\n- b"), "- a\n\n\n- b");
    assert_eq!(normalize_empty_lines("text\n\n\n- b"), "text\n\n- b");
}

#[test]
fn normalize_keeps_nonblank_lines_and_no_triple_blank() {
    let input = "x\n\n\n\n\ny\n  \n\nz\n\n\n\n";
    let out = normalize_empty_lines(input);
    assert_eq!(nonblank(&lines(&out)), nonblank(&lines(input)));
    assert!(!out.contains("\n\n\n\n"));
}

#[test]
fn format_result_is_stable_under_another_pass() {
    let s = FormatterSettings::default();
    for input in [
        "# Title\nSome text\n- a\n- b\n",
        "---\ntitle: x\n---\n# Hi\n\n\n\ntext\n",
        "- first line of the item, which is long and continues\n\n  with more prose.\n",
        "<div>\n<p>hello</p>\n</div>\n",
    ] {
        let once = try_format(input, &s).expect("formats");
        let twice = try_format(&once, &s).expect("formats");
        assert_eq!(once, twice, "input: {input:?}");
    }
}

#[test]
fn format_with_sink_reports_first_pass_changes() {
    let s = FormatterSettings::default();
    let input = "- first line of the item, which is long and continues\n\n  with more prose.\n";
    let mut sink = VecSink::new();
    let out = format_with_sink(input, &s, &mut sink);
    assert_eq!(out, try_format(input, &s).unwrap());
    assert!(!sink.entries.is_empty());
    let e = &sink.entries[0];
    assert_eq!(e.rule, "tighten-list-continuations");
    assert_eq!(e.start_line, 1);
    assert_eq!(e.end_line, 1);
    assert_eq!(e.before, vec![String::new()]);
    assert!(e.after.is_empty());
}

#[test]
fn clean_content_reports_nothing() {
    let s = FormatterSettings::default();
    let mut sink = VecSink::new();
    let out = format_with_sink("# Title\n\nText.\n", &s, &mut sink);
    assert_eq!(out, "# Title\n\nText.\n");
    assert!(sink.entries.is_empty());
}

#[test]
fn report_entry_lines_format() {
    let e = ReportEntry {
        rule: "tighten-list-continuations",
        start_line: 2,
        end_line: 4,
        before: vec!["one".into(), "two".into(), "three".into(), "four".into()],
        after: vec![],
    };
    assert_eq!(
        report_entry_lines("docs/a.md", &e),
        vec![
            "docs/a.md:3-5 [tighten-list-continuations]".to_string(),
            "  - one".to_string(),
            "  - two".to_string(),
            "  - three".to_string(),
            "  - …".to_string(),
            "  + (deleted)".to_string(),
        ]
    );
    let f = ReportEntry {
        rule: "recover-escaped-code-in-lists",
        start_line: 0,
        end_line: 0,
        before: vec!["x".into()],
        after: vec!["y".into(), "z".into()],
    };
    assert_eq!(
        report_entry_lines("b.md", &f),
        vec![
            "b.md:1-1 [recover-escaped-code-in-lists]".to_string(),
            "  - x".to_string(),
            "  + y".to_string(),
            "  + z".to_string(),
        ]
    );
}

#[test]
fn readme_example_heading_then_text() {
    let s = FormatterSettings::default();
    assert_eq!(mdx_formatter::formatter::format("# Hello\nWorld", &s), "# Hello\n\nWorld");
}

#[test]
fn list_normalize_off_reports_nothing() {
    let mut s = FormatterSettings::default();
    s.list_normalize.tighten_list_continuations = TightenListContinuationsMode::Off;
    s.list_normalize.tighten_list_item_spacing = TightenListItemSpacingMode::Off;
    s.list_normalize.recover_escaped_code_in_lists = RecoverEscapedCodeMode::Off;
    s.list_normalize.recover_escaped_tables_in_lists = RecoverEscapedTablesMode::Off;
    s.list_normalize.recover_escaped_paragraphs_in_lists = RecoverEscapedParagraphsMode::Off;
    let input = "- first line of the item, which is long and continues\n\n  with more prose.\n";
    let mut sink = VecSink::new();
    let out = format_with_sink(input, &s, &mut sink);
    assert!(sink.entries.is_empty());
    assert!(out.contains("continues\n\n  with more prose."));
}

#[test]
fn yaml_parse_accepts_and_rejects() {
    assert!(parse_yaml("a: [1, 2").is_none());
    match parse_yaml("title: Hello") {
        Some(YamlValue::Mapping(entries, _)) => {
            assert_eq!(entries.len(), 1);
            assert!(matches!(&entries[0].0, YamlValue::Str(k) if k == "title"));
            assert!(matches!(&entries[0].1, YamlValue::Str(v) if v == "Hello"));
        }
        other => panic!("expected a mapping, got {:?}", other),
    }
}

#[test]
fn pass_without_rules_keeps_nonblank_lines() {
    let mut s = FormatterSettings::default();
    s.add_empty_line_between_elements.enabled = false;
    s.format_multi_line_jsx.enabled = false;
    s.expand_single_line_jsx.enabled = false;
    s.indent_jsx_content.enabled = false;
    s.add_empty_lines_in_block_jsx.enabled = false;
    s.format_yaml_frontmatter.enabled = false;
    s.format_html_blocks_in_mdx.enabled = false;
    s.list_normalize.tighten_list_continuations = TightenListContinuationsMode::Off;
    s.list_normalize.tighten_list_item_spacing = TightenListItemSpacingMode::Off;
    s.list_normalize.recover_escaped_code_in_lists = RecoverEscapedCodeMode::Off;
    s.list_normalize.recover_escaped_tables_in_lists = RecoverEscapedTablesMode::Off;
    let input = "# A\ntext\n\n\n\nmore\n```js\nconst x = 1;\n```\nend\n";
    let out = mdx_formatter::formatter::format(input, &s);
    assert_eq!(nonblank(&lines(&out)), nonblank(&lines(input)));
    assert!(!out.contains("\n\n\n"));
}

#[test]
fn dry_run_summary_line() {
    assert_eq!(
        mdx_formatter::report::dry_run_summary(1, 1),
        "\n1 entry across 1 file (dry-run; no files were modified)."
    );
    assert_eq!(
        mdx_formatter::report::dry_run_summary(12, 3),
        "\n12 entries across 3 files (dry-run; no files were modified)."
    );
    assert_eq!(
        mdx_formatter::report::dry_run_summary(0, 0),
        "\n0 entries across 0 files (dry-run; no files were modified)."
    );
}

#[test]
fn template_literal_prop_keeps_element_self_closing() {
    let name: Vec<char> = "Comp".chars().collect();
    let text: Vec<char> = "<Comp\n  html={`<code>{x}</code>`}\n/>".chars().collect();
    let attrs = vec![mdx_formatter::ast::JsxAttr::Expression(
        "html".to_string(),
        "`<code>{x}</code>`".to_string(),
    )];
    let out: String = mdx_formatter::jsx::format_jsx_element(
        &name,
        &attrs,
        true,
        &text,
        1,
        3,
        &FormatterSettings::default(),
    )
    .into_iter()
    .collect();
    assert!(!out.contains("</Comp>"), "output: {out}");
    assert!(out.trim_end().ends_with("/>"), "output: {out}");
    let doc = "<Comp\n  html={`<code>{x}</code>`}\n/>\n";
    let formatted = mdx_formatter::formatter::format(doc, &FormatterSettings::default());
    assert!(!formatted.contains("</Comp>"), "output: {formatted}");
}

#[test]
fn key_value_continuation_is_kept() {
    let s = FormatterSettings::default();
    let input = "- task item here\n\n  priority: urgent\n";
    let out = mdx_formatter::formatter::format(input, &s);
    assert!(out.contains("here\n\n  priority: urgent"), "output: {out}");
    let input2 = "- see the docs at\n\n  https://example.com for details\n";
    let out2 = mdx_formatter::formatter::format(input2, &s);
    assert!(!out2.contains("at\n\n  https"), "output: {out2}");
}
