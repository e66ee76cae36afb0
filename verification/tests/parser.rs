use mdx_formatter::ast::NodeKind;
use mdx_formatter::parser::{parse, try_parse};

#[test]
fn test_parse_basic_markdown() {
    let content = "# Hello\n\nWorld";
    let ast = parse(content);
    assert_eq!(ast.kind, NodeKind::Root, "Expected Root node");
    assert!(!ast.children.is_empty());
}

#[test]
fn test_parse_frontmatter() {
    let content = "---\ntitle: Test\n---\n\n# Content";
    let ast = parse(content);
    assert_eq!(ast.kind, NodeKind::Root, "Expected Root node");
    // First child should be YAML frontmatter
    assert_eq!(ast.children[0].kind, NodeKind::Yaml);
}

#[test]
fn test_parse_mdx_jsx() {
    let content = "<Component prop=\"value\" />";
    let ast = parse(content);
    assert_eq!(ast.kind, NodeKind::Root, "Expected Root node");
    assert!(!ast.children.is_empty());
    // Should parse as MdxJsxFlowElement
    assert_eq!(ast.children[0].kind, NodeKind::MdxJsxFlowElement, "Expected MdxJsxFlowElement, got: {:?}", ast.children[0].kind);
}

#[test]
fn test_parse_gfm_table() {
    let content = "| Header |\n| --- |\n| Cell |";
    let ast = parse(content);
    assert_eq!(ast.kind, NodeKind::Root, "Expected Root node");
    assert!(!ast.children.is_empty());
}

#[test]
fn test_parse_list() {
    let content = "- item 1\n- item 2\n  - nested";
    let ast = parse(content);
    assert_eq!(ast.kind, NodeKind::Root, "Expected Root node");
    assert_eq!(ast.children[0].kind, NodeKind::List);
}

#[test]
fn parse_reads_positions_names_and_list_numbering() {
    let content = "3. three\n4. four\n\n<Note kind=\"x\">\nhi\n</Note>";
    let ast = parse(content);
    let list = &ast.children[0];
    assert_eq!(list.kind, NodeKind::List);
    assert!(list.ordered);
    assert_eq!(list.start, Some(3));
    assert_eq!(list.children.len(), 2);
    let p = list.children[1].position.unwrap();
    assert_eq!((p.start_line, p.start_column), (2, 1));
    let jsx = &ast.children[1];
    assert_eq!(jsx.kind, NodeKind::MdxJsxFlowElement);
    assert_eq!(jsx.name.as_deref(), Some("Note"));
    assert_eq!(jsx.attributes.len(), 1);
    let q = jsx.position.unwrap();
    assert_eq!((q.start_line, q.end_line), (4, 6));
}

#[test]
fn try_parse_accepts_plain_markdown() {
    assert!(try_parse("# Title\n\ntext").is_ok());
}
