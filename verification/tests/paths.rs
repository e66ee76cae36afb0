use mdx_formatter::paths::{
    has_glob_magic, is_ignored, lexical_absolute, matching_path, matching_pattern,
    normalize_operand, pattern_is_within_cwd, PathPart,
};

fn n(s: &str) -> PathPart {
    PathPart::Normal(s.to_string())
}

fn abs(parts: &[&str]) -> Vec<PathPart> {
    let mut v = vec![PathPart::RootDir];
    v.extend(parts.iter().map(|p| n(p)));
    v
}

#[test]
fn normalize_operand_strips_dot_slash_and_backslashes() {
    assert_eq!(normalize_operand("./docs/a.md"), "docs/a.md");
    assert_eq!(normalize_operand(".\\docs\\a.md"), "docs/a.md");
    assert_eq!(normalize_operand("docs\\sub\\b.mdx"), "docs/sub/b.mdx");
    assert_eq!(normalize_operand("../x.md"), "../x.md");
}

#[test]
fn glob_magic_respects_escapes() {
    assert!(has_glob_magic("**/*.md"));
    assert!(has_glob_magic("a?.md"));
    assert!(has_glob_magic("[ab].md"));
    assert!(!has_glob_magic("a{b,c}.md"));
    assert!(!has_glob_magic("plain.md"));
    assert!(!has_glob_magic("\\*.md"));
    assert!(has_glob_magic("\\**.md"));
}

#[test]
fn lexical_absolute_resolves_dots() {
    let cwd = abs(&["home", "u"]);
    let rel = vec![n("docs"), PathPart::CurDir, n("x"), PathPart::ParentDir, n("a.md")];
    let r = lexical_absolute(&cwd, &rel);
    assert_eq!(matching_path(&r, &abs(&[])), "home/u/docs/a.md");
    let up = vec![PathPart::ParentDir, n("other.md")];
    let r2 = lexical_absolute(&cwd, &up);
    assert_eq!(matching_path(&r2, &cwd), "/home/other.md");
    let absolute = abs(&["etc", "x.md"]);
    let r3 = lexical_absolute(&cwd, &absolute);
    assert_eq!(matching_path(&r3, &cwd), "/etc/x.md");
}

#[test]
fn matching_path_is_relative_under_cwd() {
    let cwd = abs(&["repo"]);
    let p = abs(&["repo", "docs", "a.md"]);
    assert_eq!(matching_path(&p, &cwd), "docs/a.md");
    let outside = abs(&["tmp", "b.md"]);
    assert_eq!(matching_path(&outside, &cwd), "/tmp/b.md");
}

#[test]
fn within_cwd_checks() {
    let rel = vec![n("docs"), n("**"), n("*.md")];
    assert!(pattern_is_within_cwd("docs/**/*.md", &rel, "/repo"));
    let up = vec![PathPart::ParentDir, n("*.md")];
    assert!(!pattern_is_within_cwd("../*.md", &up, "/repo"));
    let a = abs(&["repo", "*.md"]);
    assert!(pattern_is_within_cwd("/repo/*.md", &a, "/repo"));
    let b = abs(&["repository", "*.md"]);
    assert!(!pattern_is_within_cwd("/repository/*.md", &b, "/repo"));
    assert!(pattern_is_within_cwd("/repo", &abs(&["repo"]), "/repo"));
}

#[test]
fn ignore_patterns_match_with_glob() {
    let patterns = vec!["node_modules/**".to_string(), "dist/**".to_string(), "[".to_string()];
    assert!(is_ignored("node_modules/pkg/readme.md", &patterns));
    assert!(is_ignored("dist/a.md", &patterns));
    assert!(!is_ignored("docs/a.md", &patterns));
    assert!(!is_ignored("[", &patterns));
    assert!(!is_ignored("node_modules/**", &Vec::new()));
}

#[test]
fn matching_pattern_picks_first_by_absoluteness() {
    let patterns = vec![
        ("/repo/docs/*.md".to_string(), true),
        ("**/*.md".to_string(), false),
    ];
    assert_eq!(matching_pattern(&patterns, "docs/a.md", "/repo/docs/a.md"), Some(0));
    assert_eq!(matching_pattern(&patterns, "blog/b.md", "/repo/blog/b.md"), Some(1));
    assert_eq!(matching_pattern(&patterns, "blog/b.txt", "/repo/blog/b.txt"), None);
}
