use mdx_formatter::config::{deep_merge_json, json_eq, lookup, parse_json, JsonValue};
use mdx_formatter::discovery::{explicit_filtered, matched_filtered, IgnoreMatch};
use mdx_formatter::formatter::{format_once, format_with_sink};
use mdx_formatter::paths::has_glob_magic;
use mdx_formatter::report::{NullSink, VecSink};
use mdx_formatter::run::{exit_status, file_status, run_mode, run_summary, RunMode, Tone};
use mdx_formatter::types::FormatterSettings;

fn texts(mode: RunMode, changed: usize, errors: usize) -> Vec<String> {
    run_summary(mode, changed, errors).into_iter().map(|l| l.text).collect()
}

#[test]
fn write_wins_over_check() {
    assert!(matches!(run_mode(true, true), RunMode::Write));
    assert!(matches!(run_mode(false, true), RunMode::Check));
    assert!(matches!(run_mode(false, false), RunMode::List));
}

#[test]
fn file_status_words() {
    let (t, m, w) = file_status(RunMode::Write, true);
    assert!(matches!(t, Tone::Success));
    assert_eq!((m, w.as_str()), ('✓', "formatted"));
    let (t, m, w) = file_status(RunMode::Write, false);
    assert!(matches!(t, Tone::Muted));
    assert_eq!((m, w.as_str()), ('○', "unchanged"));
    let (t, m, w) = file_status(RunMode::Check, true);
    assert!(matches!(t, Tone::Warning));
    assert_eq!((m, w.as_str()), ('⚠', "needs formatting"));
    let (_, m, w) = file_status(RunMode::Check, false);
    assert_eq!((m, w.as_str()), ('✓', "formatted correctly"));
    let (t, m, w) = file_status(RunMode::List, true);
    assert!(matches!(t, Tone::Info));
    assert_eq!((m, w.as_str()), ('→', "would be formatted"));
    let (_, m, w) = file_status(RunMode::List, false);
    assert_eq!((m, w.as_str()), ('○', "already formatted"));
}

#[test]
fn summary_lines_by_mode() {
    assert_eq!(texts(RunMode::Write, 3, 0), vec!["✓ Formatted 3 file(s)".to_string()]);
    assert_eq!(texts(RunMode::Write, 0, 0), vec!["All files are already formatted".to_string()]);
    assert_eq!(texts(RunMode::Check, 12, 0), vec!["⚠ 12 file(s) need formatting".to_string()]);
    assert_eq!(texts(RunMode::Check, 0, 0), vec!["✓ All files are formatted correctly".to_string()]);
    assert_eq!(
        texts(RunMode::List, 2, 0),
        vec!["→ 2 file(s) would be formatted".to_string(), "Use --write to apply changes".to_string()]
    );
    assert_eq!(
        texts(RunMode::List, 0, 1),
        vec!["All files are already formatted".to_string(), "✗ 1 error(s) occurred".to_string()]
    );
    let lines = run_summary(RunMode::Check, 0, 2);
    assert!(matches!(lines[1].tone, Tone::Error));
}

#[test]
fn exit_status_rules() {
    assert_eq!(exit_status(RunMode::Write, 5, 0), 0);
    assert_eq!(exit_status(RunMode::List, 5, 0), 0);
    assert_eq!(exit_status(RunMode::Check, 5, 0), 1);
    assert_eq!(exit_status(RunMode::Check, 0, 0), 0);
    assert_eq!(exit_status(RunMode::Write, 0, 1), 1);
}

#[test]
fn explicit_files_ignore_config_excludes() {
    let cli = vec!["drafts/**".to_string()];
    let none: Vec<IgnoreMatch> = vec![];
    assert!(explicit_filtered("drafts/a.md", &cli, &none));
    assert!(!explicit_filtered("docs/a.md", &cli, &none));
    assert!(explicit_filtered("docs/a.md", &cli, &vec![IgnoreMatch::Ignore]));
    assert!(!explicit_filtered("docs/a.md", &cli, &vec![IgnoreMatch::Ignore, IgnoreMatch::Whitelist]));
    let config = vec!["docs/**".to_string()];
    assert!(matched_filtered("docs/a.md", &cli, &config, &none));
    assert!(!matched_filtered("notes/a.md", &cli, &config, &none));
    assert!(matched_filtered("drafts/b.md", &cli, &config, &none));
}

#[test]
fn brace_is_not_glob_magic() {
    assert!(!has_glob_magic("a{b,c}.md"));
    assert!(has_glob_magic("\\\\*.md"));
    assert!(!has_glob_magic("\\\\\\*.md"));
}

#[test]
fn formatting_twice_changes_nothing() {
    let s = FormatterSettings::default();
    for input in ["# Hello\nWorld", "Text\n- a\n- b\n\n\n\n\nend\n", "---\ntitle: x\n---\nbody\n"] {
        let once = mdx_formatter::formatter::format(input, &s);
        assert_eq!(mdx_formatter::formatter::format(&once, &s), once, "input: {input:?}");
    }
    assert_eq!(mdx_formatter::formatter::format("# Hello\nWorld", &s), "# Hello\n\nWorld");
}

#[test]
fn sink_receives_exactly_the_first_pass_entries() {
    let s = FormatterSettings::default();
    let input = "- first line of the item, which is long and continues\n\n  with more prose.\n";
    let mut sink = VecSink::new();
    let _ = format_with_sink(input, &s, &mut sink);
    let n = sink.entries.len();
    let _ = format_with_sink(input, &s, &mut sink);
    assert_eq!(sink.entries.len(), 2 * n);
    assert_eq!(sink.entries[0].rule, sink.entries[n].rule);
}

fn j(text: &str) -> JsonValue {
    parse_json(text).expect("valid JSON")
}

#[test]
fn deep_merge_key_union() {
    let r = deep_merge_json(&j(r#"{"a":{"x":1,"y":2},"b":1}"#), &j(r#"{"a":{"y":3,"z":4},"c":[1]}"#));
    assert!(json_eq(&r, &j(r#"{"a":{"x":1,"y":3,"z":4},"b":1,"c":[1]}"#)));
    assert!(lookup(&r, "b").is_some());
    assert!(lookup(&r, "d").is_none());
}

#[test]
fn lone_carriage_return_gets_only_whole_document_passes() {
    let s = FormatterSettings::default();
    // The parser breaks lines at the lone `\r`; the line split does not, so
    // no rule runs and the text (already spaced and normalized) stays.
    let input = "Para\r# Heading\n";
    let once = mdx_formatter::formatter::format(input, &s);
    assert_eq!(once, input);
    assert_eq!(mdx_formatter::formatter::format(&once, &s), once);
}

#[test]
fn loop_result_matches_separate_passes() {
    let s = FormatterSettings::default();
    for input in ["# Hello\nWorld", "Text\n- a\n- b\n", "plain\n"] {
        let mut null = NullSink;
        let p1 = format_once(input, &s, &mut null);
        let p2 = format_once(&p1, &s, &mut null);
        let p3 = format_once(&p2, &s, &mut null);
        let expected = if p1 == input {
            input.to_string()
        } else if p2 == p1 {
            p1.clone()
        } else if p3 == p2 {
            p2.clone()
        } else {
            input.to_string()
        };
        assert_eq!(mdx_formatter::formatter::format(input, &s), expected);
        let mut sink = VecSink::new();
        assert_eq!(format_with_sink(input, &s, &mut sink), expected);
    }
}

#[test]
fn report_before_lines_are_source_lines() {
    let s = FormatterSettings::default();
    let input = "- first line of the item, which is long and continues\n\n  with more prose.\n";
    let lines: Vec<&str> = input.split('\n').collect();
    let mut sink = VecSink::new();
    let _ = format_with_sink(input, &s, &mut sink);
    assert!(!sink.entries.is_empty());
    for e in &sink.entries {
        let want: Vec<String> = (e.start_line..=e.end_line.min(lines.len() - 1))
            .map(|i| lines[i].to_string())
            .collect();
        assert_eq!(e.before, want);
    }
}
