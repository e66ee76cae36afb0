use mdx_formatter::discovery::{
    classify_operand, ignored_by_matches, nothing_to_do, Discovery, IgnoreMatch, Operand,
    OperandStat,
};

#[test]
fn existing_file_is_explicit() {
    assert!(matches!(classify_operand("docs/a.md", &OperandStat::File), Operand::Explicit));
}

#[test]
fn directory_operand_suggests_a_glob() {
    match classify_operand("docs//", &OperandStat::Dir) {
        Operand::Error(m) => assert_eq!(
            m,
            "docs//: is a directory (pass a glob such as 'docs/**/*.md' to format its contents)"
        ),
        other => panic!("unexpected {:?}", other),
    }
    match classify_operand("docs\\", &OperandStat::Dir) {
        Operand::Error(m) => assert_eq!(
            m,
            "docs\\: is a directory (pass a glob such as 'docs/**/*.md' to format its contents)"
        ),
        other => panic!("unexpected {:?}", other),
    }
}

#[test]
fn missing_operand_is_pattern_only_with_magic() {
    match classify_operand("./docs/**/*.md", &OperandStat::Missing) {
        Operand::Pattern(p) => assert_eq!(p, "docs/**/*.md"),
        other => panic!("unexpected {:?}", other),
    }
    match classify_operand("a{b,c}.md", &OperandStat::Missing) {
        Operand::Error(m) => assert_eq!(m, "a{b,c}.md: no such file"),
        other => panic!("unexpected {:?}", other),
    }
    match classify_operand("fifo", &OperandStat::Other) {
        Operand::Error(m) => assert_eq!(m, "fifo: no such file"),
        other => panic!("unexpected {:?}", other),
    }
}

#[test]
fn failure_keeps_its_message() {
    match classify_operand("x.md", &OperandStat::Failed("Permission denied".to_string())) {
        Operand::Error(m) => assert_eq!(m, "x.md: Permission denied"),
        other => panic!("unexpected {:?}", other),
    }
}

#[test]
fn last_matching_rule_wins() {
    assert!(!ignored_by_matches(&vec![]));
    assert!(ignored_by_matches(&vec![IgnoreMatch::Ignore, IgnoreMatch::Unmatched]));
    assert!(!ignored_by_matches(&vec![
        IgnoreMatch::Ignore,
        IgnoreMatch::Whitelist,
        IgnoreMatch::Unmatched
    ]));
    assert!(ignored_by_matches(&vec![IgnoreMatch::Whitelist, IgnoreMatch::Ignore]));
}

#[test]
fn nothing_to_do_messages() {
    assert_eq!(
        nothing_to_do(true, true),
        "All matching files were excluded by ignore/exclude patterns — 0 files to process."
    );
    assert_eq!(nothing_to_do(true, false), "No files found matching the patterns.");
    assert_eq!(nothing_to_do(false, false), "No files found matching the patterns.");
}

#[test]
fn ignore_option_is_split_and_trimmed() {
    assert_eq!(
        mdx_formatter::discovery::ignore_list("node_modules/**, dist/** ,build/**"),
        vec!["node_modules/**".to_string(), "dist/**".to_string(), "build/**".to_string()]
    );
    assert_eq!(mdx_formatter::discovery::ignore_list(""), vec![String::new()]);
    assert_eq!(
        mdx_formatter::discovery::ignore_list("a,,b"),
        vec!["a".to_string(), String::new(), "b".to_string()]
    );
}

#[test]
fn discovery_lists_each_file_once_explicit_first() {
    let mut d = Discovery::new();
    assert!(!d.had_matches());
    assert!(d.add_explicit("/r/a.md", "./a.md".to_string(), false));
    assert!(!d.add_explicit("/r/a.md", "a.md".to_string(), false));
    assert!(!d.add_match("/r/a.md", "a.md".to_string(), false));
    assert!(d.add_match("/r/b.md", "b.md".to_string(), false));
    assert_eq!(d.len(), 2);
    assert_eq!(d.display(0), "./a.md");
    assert_eq!(d.display(1), "b.md");
    assert!(d.had_matches());
    assert!(!d.had_filtered_matches());
}

#[test]
fn discovery_records_filtered_matches() {
    let mut d = Discovery::new();
    assert!(!d.add_match("/r/x.md", "x.md".to_string(), true));
    assert!(d.had_matches());
    assert!(d.had_filtered_matches());
    assert_eq!(d.len(), 0);
    let mut e = Discovery::new();
    assert!(e.add_match("/r/y.md", "y.md".to_string(), false));
    assert!(!e.add_match("/r/y.md", "y.md".to_string(), true));
    assert!(!e.had_filtered_matches());
    let mut h = Discovery::new();
    h.note_hidden_match();
    assert!(h.had_matches() && h.had_filtered_matches());
    assert_eq!(
        nothing_to_do(h.had_matches(), h.had_filtered_matches()),
        "All matching files were excluded by ignore/exclude patterns — 0 files to process."
    );
}
