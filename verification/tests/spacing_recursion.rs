use mdx_formatter::types::FormatterSettings;

fn sr_settings() -> FormatterSettings {
    FormatterSettings::default()
}

#[test]
fn heading_inside_blockquote_gets_spacing() {
    // The heading ends at line 0. Next line `> Content` is non-empty and
    // doesn't start with '#', so an empty line is inserted.
    // This matches TS behavior: the raw-line check doesn't strip blockquote markers.
    let input = "> # Heading\n> Content after heading";
    let result = mdx_formatter::formatter::format(input, &sr_settings());
    assert_eq!(result, "> # Heading\n\n> Content after heading");
}

#[test]
fn heading_inside_blockquote_idempotent() {
    let input = "> # Heading\n> Content after heading";
    let first = mdx_formatter::formatter::format(input, &sr_settings());
    let second = mdx_formatter::formatter::format(&first, &sr_settings());
    assert_eq!(first, second, "Heading in blockquote spacing should be idempotent");
}

#[test]
fn multiple_headings_in_blockquote() {
    let input = "> # First\n> Content\n> ## Second\n> More content";
    let result = mdx_formatter::formatter::format(input, &sr_settings());
    // Both headings should get spacing
    assert!(result.contains("# First\n\n> Content"),
        "First heading in blockquote should get spacing");
    // Idempotent
    let second = mdx_formatter::formatter::format(&result, &sr_settings());
    assert_eq!(result, second, "Multiple headings in blockquote should be idempotent");
}

#[test]
fn heading_inside_jsx_container_gets_spacing() {
    let input = "<Container>\n\n# Inner Heading\nContent inside container\n\n</Container>";
    let result = mdx_formatter::formatter::format(input, &sr_settings());
    assert!(result.contains("# Inner Heading\n\nContent inside container"),
        "Heading inside JSX should get spacing");
}

#[test]
fn heading_inside_jsx_already_spaced() {
    let input = "<Container>\n\n# Inner Heading\n\nContent inside container\n\n</Container>";
    let result = mdx_formatter::formatter::format(input, &sr_settings());
    assert_eq!(result, input, "Already-spaced heading in JSX should be stable");
}

#[test]
fn heading_in_jsx_container_idempotent() {
    let input = "<Container>\n\n# Inner Heading\nContent inside\n\n</Container>";
    let first = mdx_formatter::formatter::format(input, &sr_settings());
    let second = mdx_formatter::formatter::format(&first, &sr_settings());
    assert_eq!(first, second, "Heading in JSX container spacing should be idempotent");
}

#[test]
fn jsx_inside_jsx_gets_spacing_before_text() {
    let input = "<Outer>\n\n<Inner />\nText after inner\n\n</Outer>";
    let result = mdx_formatter::formatter::format(input, &sr_settings());
    assert!(result.contains("<Inner />\n\nText after inner"),
        "JSX inside JSX should get spacing before text");
}

#[test]
fn jsx_inside_jsx_idempotent() {
    let input = "<Outer>\n\n<Inner />\nText after inner\n\n</Outer>";
    let first = mdx_formatter::formatter::format(input, &sr_settings());
    let second = mdx_formatter::formatter::format(&first, &sr_settings());
    assert_eq!(first, second, "Nested JSX spacing should be idempotent");
}

#[test]
fn heading_followed_by_heading_in_blockquote() {
    // In blockquote, the next raw line starts with '>' not '#',
    // so spacing IS inserted (unlike root-level heading→heading).
    let input = "> # First\n> ## Second";
    let first = mdx_formatter::formatter::format(input, &sr_settings());
    let second = mdx_formatter::formatter::format(&first, &sr_settings());
    assert_eq!(first, second, "Should at least be idempotent");
}

#[test]
fn deeply_nested_content_preserved() {
    let input = "> > # Deep heading\n> >\n> > Content";
    let result = mdx_formatter::formatter::format(input, &sr_settings());
    assert!(result.contains("Deep heading"), "Deep heading text should be preserved");
    let second = mdx_formatter::formatter::format(&result, &sr_settings());
    assert_eq!(result, second, "Deep nesting should be idempotent");
}

#[test]
fn heading_spacing_disabled_no_nested_effect() {
    let mut settings = sr_settings();
    settings.add_empty_line_between_elements.enabled = false;
    let input = "<Container>\n\n# Heading\nContent\n\n</Container>";
    let result = mdx_formatter::formatter::format(input, &settings);
    // With spacing disabled, no empty line should be inserted
    assert!(result.contains("# Heading\nContent"),
        "Disabled spacing should not affect nested headings");
}
