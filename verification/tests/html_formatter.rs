use mdx_formatter::html_formatter::format_html_block;


#[test]
fn test_simple_dl() {
    let input = "<dl>\n<dt>Term 1</dt>\n<dd>Definition 1</dd>\n</dl>";
    let expected = "<dl>\n  <dt>Term 1</dt>\n  <dd>Definition 1</dd>\n</dl>";
    assert_eq!(format_html_block(input, 2), expected);
}

#[test]
fn test_dl_with_excessive_whitespace() {
    let input = "<dl>\n  <dt>  Term with spaces  </dt>\n  <dd>   Definition with spaces   </dd>\n</dl>";
    let expected = "<dl>\n  <dt>Term with spaces</dt>\n  <dd>Definition with spaces</dd>\n</dl>";
    assert_eq!(format_html_block(input, 2), expected);
}

#[test]
fn test_dl_with_div_wrappers() {
    let input = "<dl>\n<div>\n<dt>Term 1</dt>\n<dd>Definition 1</dd>\n</div>\n<div>\n<dt>Term 2</dt>\n<dd>Definition 2</dd>\n</div>\n</dl>";
    let expected = "<dl>\n  <div>\n    <dt>Term 1</dt>\n    <dd>Definition 1</dd>\n  </div>\n  <div>\n    <dt>Term 2</dt>\n    <dd>Definition 2</dd>\n  </div>\n</dl>";
    assert_eq!(format_html_block(input, 2), expected);
}

#[test]
fn test_nested_definition_lists() {
    let input = "<dl>\n<dt>Outer Term</dt>\n<dd>\n<dl>\n<dt>Inner Term</dt>\n<dd>Inner Definition</dd>\n</dl>\n</dd>\n</dl>";
    let expected = "<dl>\n  <dt>Outer Term</dt>\n  <dd>\n    <dl>\n      <dt>Inner Term</dt>\n      <dd>Inner Definition</dd>\n    </dl>\n  </dd>\n</dl>";
    assert_eq!(format_html_block(input, 2), expected);
}

#[test]
fn test_simple_table() {
    let input = "<table>\n<tr>\n<td>Cell 1</td>\n<td>Cell 2</td>\n</tr>\n<tr>\n<td>Cell 3</td>\n<td>Cell 4</td>\n</tr>\n</table>";
    let expected = "<table>\n  <tr>\n    <td>Cell 1</td>\n    <td>Cell 2</td>\n  </tr>\n  <tr>\n    <td>Cell 3</td>\n    <td>Cell 4</td>\n  </tr>\n</table>";
    assert_eq!(format_html_block(input, 2), expected);
}

#[test]
fn test_table_with_thead_tbody() {
    let input = "<table>\n<thead>\n<tr>\n<th>Header 1</th>\n<th>Header 2</th>\n</tr>\n</thead>\n<tbody>\n<tr>\n<td>Data 1</td>\n<td>Data 2</td>\n</tr>\n</tbody>\n</table>";
    let expected = "<table>\n  <thead>\n    <tr>\n      <th>Header 1</th>\n      <th>Header 2</th>\n    </tr>\n  </thead>\n  <tbody>\n    <tr>\n      <td>Data 1</td>\n      <td>Data 2</td>\n    </tr>\n  </tbody>\n</table>";
    assert_eq!(format_html_block(input, 2), expected);
}

#[test]
fn test_table_with_attributes() {
    let input = "<table class=\"data-table\" id=\"results\">\n<tr class=\"row-highlight\">\n<td colspan=\"2\">Merged Cell</td>\n</tr>\n</table>";
    let expected = "<table class=\"data-table\" id=\"results\">\n  <tr class=\"row-highlight\">\n    <td colspan=\"2\">Merged Cell</td>\n  </tr>\n</table>";
    assert_eq!(format_html_block(input, 2), expected);
}

#[test]
fn test_unordered_list() {
    let input = "<ul>\n<li>Item 1</li>\n<li>Item 2</li>\n<li>Item 3</li>\n</ul>";
    let expected = "<ul>\n  <li>Item 1</li>\n  <li>Item 2</li>\n  <li>Item 3</li>\n</ul>";
    assert_eq!(format_html_block(input, 2), expected);
}

#[test]
fn test_ordered_list() {
    let input = "<ol>\n<li>First</li>\n<li>Second</li>\n<li>Third</li>\n</ol>";
    let expected = "<ol>\n  <li>First</li>\n  <li>Second</li>\n  <li>Third</li>\n</ol>";
    assert_eq!(format_html_block(input, 2), expected);
}

#[test]
fn test_nested_divs() {
    let input = "<div class=\"container\">\n<div class=\"row\">\n<div class=\"col\">Content</div>\n</div>\n</div>";
    let expected = "<div class=\"container\">\n  <div class=\"row\">\n    <div class=\"col\">Content</div>\n  </div>\n</div>";
    assert_eq!(format_html_block(input, 2), expected);
}

#[test]
fn test_div_with_mixed_content() {
    let input = "<div>\n<h3>Title</h3>\n<p>Paragraph text here.</p>\n<ul>\n<li>List item</li>\n</ul>\n</div>";
    let expected = "<div>\n  <h3>Title</h3>\n  <p>Paragraph text here.</p>\n  <ul>\n    <li>List item</li>\n  </ul>\n</div>";
    assert_eq!(format_html_block(input, 2), expected);
}

#[test]
fn test_select_options() {
    let input = "<select name=\"choice\">\n<option value=\"1\">Option 1</option>\n<option value=\"2\">Option 2</option>\n<option value=\"3\">Option 3</option>\n</select>";
    let expected = "<select name=\"choice\">\n  <option value=\"1\">Option 1</option>\n  <option value=\"2\">Option 2</option>\n  <option value=\"3\">Option 3</option>\n</select>";
    assert_eq!(format_html_block(input, 2), expected);
}

#[test]
fn test_empty_elements() {
    // Single-line empty elements should remain unchanged
    let input = "<div></div>";
    let expected = "<div></div>";
    assert_eq!(format_html_block(input, 2), expected);
}

#[test]
fn test_self_closing_void_elements() {
    let input = "<div>\n<img src=\"image.jpg\" alt=\"Test\" />\n<br />\n<hr />\n</div>";
    let expected = "<div>\n  <img src=\"image.jpg\" alt=\"Test\" />\n  <br />\n  <hr />\n</div>";
    assert_eq!(format_html_block(input, 2), expected);
}

#[test]
fn test_deeply_nested() {
    let input = "<div>\n<section>\n<article>\n<header>\n<h1>Title</h1>\n</header>\n<main>\n<p>Content</p>\n</main>\n<footer>\n<p>Footer</p>\n</footer>\n</article>\n</section>\n</div>";
    let expected = "<div>\n  <section>\n    <article>\n      <header>\n        <h1>Title</h1>\n      </header>\n      <main>\n        <p>Content</p>\n      </main>\n      <footer>\n        <p>Footer</p>\n      </footer>\n    </article>\n  </section>\n</div>";
    assert_eq!(format_html_block(input, 2), expected);
}

#[test]
fn test_long_attributes_no_wrapping() {
    let input = "<div class=\"very-long-class-name\" id=\"very-long-id\" data-attribute=\"very-long-value\">\n<p>Content</p>\n</div>";
    let expected = "<div class=\"very-long-class-name\" id=\"very-long-id\" data-attribute=\"very-long-value\">\n  <p>Content</p>\n</div>";
    assert_eq!(format_html_block(input, 2), expected);
}

#[test]
fn test_already_formatted() {
    // Input that's already properly indented should not change
    let input = "<dl>\n  <dt>Term</dt>\n  <dd>Definition</dd>\n</dl>";
    let expected = "<dl>\n  <dt>Term</dt>\n  <dd>Definition</dd>\n</dl>";
    assert_eq!(format_html_block(input, 2), expected);
}

#[test]
fn test_dt_dd_multiline_collapse() {
    // Multi-line dt/dd content should be collapsed to single line
    let input = "<dl>\n<dt>\n  Term across\n  multiple lines\n</dt>\n<dd>\n  Definition across\n  lines\n</dd>\n</dl>";
    let expected = "<dl>\n  <dt>Term across multiple lines</dt>\n  <dd>Definition across lines</dd>\n</dl>";
    assert_eq!(format_html_block(input, 2), expected);
}

#[test]
fn test_inline_span_elements() {
    let input = "<div>\n<span class=\"highlight\">Important</span> text with <span>inline</span> elements.\n</div>";
    let result = format_html_block(input, 2);
    assert!(result.contains("Important"));
    assert!(result.contains("inline"));
}

#[test]
fn test_div_with_markdown_content() {
    let input = "<div>\n**Bold text** and *italic text* within HTML.\n[Link](https://example.com) in a div.\n</div>";
    let result = format_html_block(input, 2);
    assert!(result.contains("Bold text"));
    assert!(result.contains("italic text"));
    assert!(result.contains("https://example.com"));
}
