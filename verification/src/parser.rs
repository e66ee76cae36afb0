//! Parsing markdown / MDX with the `markdown` crate, and reading its syntax
//! tree into the library's own `MdNode` tree.
use vstd::prelude::*;
use markdown::mdast::{AttributeContent, AttributeValue, Node};
use markdown::{Constructs, ParseOptions};
use crate::ast::{MdNode, NodeKind, Pos, JsxAttr, tree_fits, kids_fit, pos_fits, opt_pos_fits};
use crate::text::{split_lines, chars_of, split_lines_vec, string_of};

verus! {

#[verifier::external_type_specification]
#[verifier::external_body]
pub struct ExNode(Node);

#[verifier::external_type_specification]
#[verifier::external_body]
pub struct ExAttributeContent(AttributeContent);

/// The tree `markdown::to_mdast` builds for `content` with the MDX
/// constructs on, in the library's form (see `mdast_tree`); `None` where
/// it reports an error (MDX, unlike markdown, has syntax errors).
pub uninterp spec fn mdx_tree_of(content: Seq<char>) -> Option<MdNode>;

/// The tree `markdown::to_mdast` builds for `content` with frontmatter and
/// GFM constructs (no MDX), in the library's form.
pub uninterp spec fn gfm_tree_of(content: Seq<char>) -> MdNode;

/// The tree `markdown::to_mdast` builds for `content` with the default
/// (CommonMark) options, in the library's form.
pub uninterp spec fn commonmark_tree_of(content: Seq<char>) -> MdNode;

/// `markdown::to_mdast` with frontmatter, GFM and MDX constructs enabled and
/// HTML disabled (MDX JSX takes its place), its tree converted node for node
/// by `mdast_tree`; the error is the message's `Display` text. The tree is
/// named `mdx_tree_of`; the message text is not stated.
#[verifier::external_body]
fn to_mdast_mdx(content: &str) -> (r: Result<MdNode, String>)
    ensures
        match r {
            Ok(t) => mdx_tree_of(content@) == Some(t),
            Err(_) => mdx_tree_of(content@) is None,
        },
{
    let constructs = Constructs {
        frontmatter: true, gfm_table: true, gfm_task_list_item: true, gfm_strikethrough: true,
        gfm_autolink_literal: true, mdx_jsx_flow: true, mdx_jsx_text: true, mdx_esm: true,
        mdx_expression_flow: true, mdx_expression_text: true, html_flow: false, html_text: false,
        ..Constructs::default()
    };
    let opts = ParseOptions { constructs, ..ParseOptions::default() };
    markdown::to_mdast(content, &opts).map(|n| mdast_tree(&n)).map_err(|m| m.to_string())
}

/// `markdown::to_mdast` with frontmatter and GFM constructs enabled (no MDX),
/// converted by `mdast_tree`. It succeeds: the crate documents that
/// `to_mdast` never errors on markdown without MDX. The tree is named
/// `gfm_tree_of`.
#[verifier::external_body]
fn to_mdast_gfm(content: &str) -> (r: Result<MdNode, String>)
    ensures
        match r {
            Ok(t) => t == gfm_tree_of(content@),
            Err(_) => false,
        },
{
    let constructs = Constructs {
        frontmatter: true, gfm_table: true, gfm_task_list_item: true, gfm_strikethrough: true,
        gfm_autolink_literal: true, ..Constructs::default()
    };
    let opts = ParseOptions { constructs, ..ParseOptions::default() };
    markdown::to_mdast(content, &opts).map(|n| mdast_tree(&n)).map_err(|m| m.to_string())
}

/// `markdown::to_mdast` with the default (CommonMark) options, converted by
/// `mdast_tree`. It succeeds (no MDX); the tree is named `commonmark_tree_of`.
#[verifier::external_body]
fn to_mdast_commonmark(content: &str) -> (r: Result<MdNode, String>)
    ensures
        match r {
            Ok(t) => t == commonmark_tree_of(content@),
            Err(_) => false,
        },
{
    markdown::to_mdast(content, &ParseOptions::default()).map(|n| mdast_tree(&n)).map_err(|m| m.to_string())
}

/// A `markdown` syntax tree in the library's form, node for node: the kind,
/// the position (field by field), the children, and a JSX element's name and
/// attributes, a list's numbering and the text value of YAML, text, code and
/// inline-code nodes. It serves the `to_mdast_*` wrappers, whose contracts
/// name the result.
#[verifier::external_body]
fn mdast_tree(n: &Node) -> MdNode {
    let (ordered, start) = list_numbering(n);
    MdNode {
        kind: node_kind(n),
        position: node_position(n),
        children: node_children(n).iter().map(mdast_tree).collect(),
        name: jsx_name(n),
        attributes: jsx_attributes(n).iter().map(jsx_attribute).collect(),
        ordered,
        start,
        value: node_value(n),
    }
}

/// The kind of a node (`Node`'s variant): the block-level variants here,
/// the others by `inline_kind`.
#[verifier::external_body]
fn node_kind(n: &Node) -> NodeKind {
    match n {
        Node::Root(_) => NodeKind::Root, Node::Heading(_) => NodeKind::Heading,
        Node::Paragraph(_) => NodeKind::Paragraph, Node::List(_) => NodeKind::List,
        Node::ListItem(_) => NodeKind::ListItem, Node::Blockquote(_) => NodeKind::Blockquote,
        Node::Code(_) => NodeKind::Code, Node::Table(_) => NodeKind::Table,
        Node::TableRow(_) => NodeKind::TableRow, Node::TableCell(_) => NodeKind::TableCell,
        Node::Yaml(_) => NodeKind::Yaml, _ => inline_kind(n),
    }
}

/// The kind of a node that is not block-level (`Node`'s variant); `Other`
/// for the variants the formatting rules do not distinguish.
#[verifier::external_body]
fn inline_kind(n: &Node) -> NodeKind {
    match n {
        Node::Emphasis(_) => NodeKind::Emphasis, Node::Strong(_) => NodeKind::Strong,
        Node::Link(_) => NodeKind::Link, Node::Delete(_) => NodeKind::Delete,
        Node::FootnoteDefinition(_) => NodeKind::FootnoteDefinition,
        Node::MdxJsxFlowElement(_) => NodeKind::MdxJsxFlowElement,
        Node::MdxJsxTextElement(_) => NodeKind::MdxJsxTextElement,
        Node::Text(_) => NodeKind::Text, Node::InlineCode(_) => NodeKind::InlineCode,
        _ => NodeKind::Other,
    }
}

/// `Node::position`, field by field.
#[verifier::external_body]
fn node_position(n: &Node) -> Option<Pos> {
    n.position().map(|p| Pos {
        start_line: p.start.line, start_column: p.start.column,
        end_line: p.end.line, end_column: p.end.column,
    })
}

/// `Node::children`, or no children where it has none.
#[verifier::external_body]
fn node_children(n: &Node) -> &[Node] {
    match n.children() {
        Some(c) => c.as_slice(),
        None => &[],
    }
}

/// The `name` of a JSX element node; `None` for other nodes.
#[verifier::external_body]
fn jsx_name(n: &Node) -> Option<String> {
    match n {
        Node::MdxJsxFlowElement(e) => e.name.clone(),
        Node::MdxJsxTextElement(e) => e.name.clone(),
        _ => None,
    }
}

/// The `attributes` of a JSX element node; none for other nodes.
#[verifier::external_body]
fn jsx_attributes(n: &Node) -> &[AttributeContent] {
    match n {
        Node::MdxJsxFlowElement(e) => e.attributes.as_slice(),
        Node::MdxJsxTextElement(e) => e.attributes.as_slice(),
        _ => &[],
    }
}

/// One JSX attribute, variant by variant.
#[verifier::external_body]
fn jsx_attribute(a: &AttributeContent) -> JsxAttr {
    match a {
        AttributeContent::Expression(e) => JsxAttr::Spread(e.value.clone()),
        AttributeContent::Property(p) => match &p.value {
            None => JsxAttr::Boolean(p.name.clone()),
            Some(AttributeValue::Literal(s)) => JsxAttr::Literal(p.name.clone(), s.clone()),
            Some(AttributeValue::Expression(e)) => JsxAttr::Expression(p.name.clone(), e.value.clone()),
        },
    }
}

/// `ordered` and `start` of a list node; `(false, None)` for other nodes.
#[verifier::external_body]
fn list_numbering(n: &Node) -> (bool, Option<u32>) {
    match n {
        Node::List(l) => (l.ordered, l.start),
        _ => (false, None),
    }
}

/// The `value` of a YAML, text, code or inline-code node; empty for others.
#[verifier::external_body]
fn node_value(n: &Node) -> String {
    match n {
        Node::Yaml(y) => y.value.clone(), Node::Text(t) => t.value.clone(),
        Node::Code(c) => c.value.clone(), Node::InlineCode(c) => c.value.clone(),
        _ => String::new(),
    }
}

fn fits_exec(p: &Pos, n_lines: usize) -> (r: bool)
    ensures
        r == pos_fits(*p, n_lines as nat),
{
    1 <= p.start_line && p.start_line <= p.end_line && p.end_line <= n_lines
        && p.start_column >= 1 && p.end_column >= 1
}

/// A position kept where it fits `n` lines, dropped otherwise.
pub open spec fn fit_pos(p: Option<Pos>, n: nat) -> Option<Pos> {
    match p {
        Some(q) => if pos_fits(q, n) { Some(q) } else { None },
        None => None,
    }
}

/// `r` is the tree `t` with every position that does not fit `n` lines
/// dropped; nothing else differs.
pub open spec fn fitted(t: MdNode, r: MdNode, n: nat) -> bool
    decreases t, 1nat,
{
    &&& r.kind == t.kind
    &&& r.position == fit_pos(t.position, n)
    &&& r.name == t.name
    &&& r.attributes == t.attributes
    &&& r.ordered == t.ordered
    &&& r.start == t.start
    &&& r.value == t.value
    &&& r.children@.len() == t.children@.len()
    &&& kids_fitted(t, r, n, t.children@.len() as int)
}

pub open spec fn kids_fitted(t: MdNode, r: MdNode, n: nat, i: int) -> bool
    decreases t, 0nat, i,
{
    if i <= 0 || i > t.children@.len() {
        true
    } else {
        kids_fitted(t, r, n, i - 1) && fitted(t.children@[i - 1], r.children@[i - 1], n)
    }
}

proof fn lemma_all_kids_fitted(t: MdNode, r: MdNode, n: nat, i: int)
    requires
        0 <= i <= t.children@.len(),
        forall|k: int| 0 <= k < t.children@.len() ==> fitted(#[trigger] t.children@[k], r.children@[k], n),
    ensures
        kids_fitted(t, r, n, i),
    decreases i,
{
    if i > 0 {
        lemma_all_kids_fitted(t, r, n, i - 1);
    }
}

/// A tree that fits is its own fitted tree.
pub proof fn lemma_fits_fitted(t: MdNode, n: nat)
    requires
        tree_fits(t, n),
    ensures
        fitted(t, t, n),
    decreases t,
{
    assert forall|k: int| 0 <= k < t.children@.len() implies fitted(#[trigger] t.children@[k], t.children@[k], n) by {
        crate::ast::lemma_child_fits(t, n, k);
        assert(decreases_to!(t => t.children));
        assert(decreases_to!(t.children => t.children@));
        assert(decreases_to!(t.children@ => t.children@[k]));
        lemma_fits_fitted(t.children@[k], n);
    }
    lemma_all_kids_fitted(t, t, n, t.children@.len() as int);
}

/// Does every position of the tree fit `n` lines?
pub fn tree_fits_exec(t: &MdNode, n: usize) -> (r: bool)
    ensures
        r == tree_fits(*t, n as nat),
    decreases t,
{
    let ok = match &t.position {
        Some(p) => fits_exec(p, n),
        None => true,
    };
    if !ok {
        return false;
    }
    let mut i: usize = 0;
    while i < t.children.len()
        invariant
            i <= t.children.len(),
            kids_fit(*t, n as nat, i as int),
        decreases t.children.len() - i,
    {
        assert(decreases_to!(*t => t.children));
        assert(decreases_to!(t.children => t.children@));
        assert(decreases_to!(t.children@ => t.children@[i as int]));
        if !tree_fits_exec(&t.children[i], n) {
            proof {
                if kids_fit(*t, n as nat, t.children@.len() as int) {
                    crate::ast::lemma_kids_fit(*t, n as nat, t.children@.len() as int, i as int);
                }
            }
            return false;
        }
        i += 1;
    }
    true
}

/// The tree with every position that does not fit `n` lines dropped.
#[verifier::loop_isolation(false)]
fn fit_tree(t: MdNode, n: usize) -> (r: MdNode)
    ensures
        fitted(t, r, n as nat),
        tree_fits(r, n as nat),
    decreases t,
{
    let ghost t0 = t;
    let MdNode { kind, position, children, name, attributes, ordered, start, value } = t;
    let position = match position {
        Some(p) => if fits_exec(&p, n) { Some(p) } else { None },
        None => None,
    };
    let ghost kids = children@;
    let mut rest = children;
    let mut out: Vec<MdNode> = Vec::new();
    let mut k: usize = 0;
    assert(kids.len() == rest.len());
    while rest.len() > 0
        invariant
            kids == t0.children@,
            kids.len() <= usize::MAX,
            k <= kids.len(),
            rest@ == kids.skip(k as int),
            out@.len() == k,
            forall|j: int| 0 <= j < k ==> fitted(#[trigger] kids[j], out@[j], n as nat) && tree_fits(out@[j], n as nat),
        decreases rest.len(),
    {
        assert(k < kids.len()) by {
            if k >= kids.len() {
                assert(kids.skip(k as int).len() == 0);
            }
        }
        let c = rest.remove(0);
        assert(c == kids[k as int]);
        assert(decreases_to!(t0 => t0.children));
        assert(decreases_to!(t0.children => t0.children@));
        assert(decreases_to!(t0.children@ => t0.children@[k as int]));
        let fc = fit_tree(c, n);
        let ghost before = out@;
        out.push(fc);
        assert forall|j: int| 0 <= j < k + 1 implies fitted(#[trigger] kids[j], out@[j], n as nat) && tree_fits(out@[j], n as nat) by {
            if j < k {
                assert(out@[j] == before[j]);
            }
        }
        assert(rest@ =~= kids.skip(k + 1));
        k += 1;
    }
    assert(k == kids.len()) by {
        if k < kids.len() {
            assert(kids.skip(k as int).len() > 0);
        }
    }
    let r = MdNode { kind, position, children: out, name, attributes, ordered, start, value };
    proof {
        lemma_all_kids_fitted(t0, r, n as nat, kids.len() as int);
        assert forall|j: int| 0 <= j < r.children@.len() implies tree_fits(#[trigger] r.children@[j], n as nat) by {
            assert(fitted(kids[j], out@[j], n as nat));
        }
        lemma_all_kids_fit(r, n as nat, r.children@.len() as int);
    }
    r
}

proof fn lemma_all_kids_fit(n: MdNode, n_lines: nat, i: int)
    requires
        0 <= i <= n.children@.len(),
        forall|k: int| 0 <= k < n.children@.len() ==> tree_fits(#[trigger] n.children@[k], n_lines),
    ensures
        kids_fit(n, n_lines, i),
    decreases i,
{
    if i > 0 {
        lemma_all_kids_fit(n, n_lines, i - 1);
    }
}

/// An empty document tree.
pub fn empty_root() -> (r: MdNode)
    ensures
        r.kind == NodeKind::Root,
        r.children@.len() == 0,
        r.position is None,
        r.name is None,
        r.attributes@.len() == 0,
        !r.ordered,
        r.start is None,
        r.value@.len() == 0,
{
    MdNode {
        kind: NodeKind::Root,
        position: None,
        children: Vec::new(),
        name: None,
        attributes: Vec::new(),
        ordered: false,
        start: None,
        value: String::new(),
    }
}

/// Number of lines of `content` (pieces between `'\n'`).
pub fn line_count(content: &str) -> (r: usize)
    ensures
        r == split_lines(content@).len(),
{
    let c = chars_of(content);
    let ls = split_lines_vec(&c);
    ls.len()
}

/// The tree the parser gives for `content`: the MDX tree, or the GFM tree
/// where MDX parsing reports an error.
pub open spec fn parsed_tree(content: Seq<char>) -> MdNode {
    match mdx_tree_of(content) {
        Some(t) => t,
        None => gfm_tree_of(content),
    }
}

/// The parser's tree for `content` as the parser gives it: the MDX tree, or
/// the GFM tree where MDX parsing reports an error.
pub fn parser_tree(content: &str) -> (r: MdNode)
    ensures
        r == parsed_tree(content@),
{
    match to_mdast_mdx(content) {
        Ok(t) => t,
        Err(_) => match to_mdast_gfm(content) {
            Ok(t) => t,
            Err(_) => empty_root(),
        },
    }
}

/// The parser's tree for `content` with the positions that do not fit the
/// content's lines dropped: the tree itself where every position fits.
fn read_tree(t: MdNode, n_lines: usize) -> (r: MdNode)
    ensures
        fitted(t, r, n_lines as nat),
        tree_fits(r, n_lines as nat),
        tree_fits(t, n_lines as nat) ==> r == t,
{
    if tree_fits_exec(&t, n_lines) {
        proof {
            lemma_fits_fitted(t, n_lines as nat);
        }
        t
    } else {
        fit_tree(t, n_lines)
    }
}

/// Parse markdown / MDX content: with MDX constructs, else with GFM only,
/// else as CommonMark, else an empty root. The result is the parser's tree
/// with positions that do not fit the content's lines dropped.
pub fn parse(content: &str) -> (r: MdNode)
    ensures
        fitted(parsed_tree(content@), r, split_lines(content@).len()),
        tree_fits(r, split_lines(content@).len()),
        tree_fits(parsed_tree(content@), split_lines(content@).len()) ==> r == parsed_tree(content@),
{
    let n_lines = line_count(content);
    match to_mdast_mdx(content) {
        Ok(t) => read_tree(t, n_lines),
        Err(_) => match to_mdast_gfm(content) {
            Ok(t) => read_tree(t, n_lines),
            Err(_) => match to_mdast_commonmark(content) {
                Ok(t) => read_tree(t, n_lines),
                Err(_) => {
                    let r = empty_root();
                    proof { lemma_all_kids_fit(r, n_lines as nat, 0); }
                    r
                }
            },
        },
    }
}

/// The error reported when no parse succeeds: `Failed to parse content: `
/// followed by the message of the first (MDX) attempt.
pub fn parse_failure_message(text: &str) -> (r: String)
    ensures
        r@ == seq!['F','a','i','l','e','d',' ','t','o',' ','p','a','r','s','e',' ','c','o','n','t','e','n','t',':',' '] + text@,
{
    let mut v: Vec<char> = vec!['F','a','i','l','e','d',' ','t','o',' ','p','a','r','s','e',' ','c','o','n','t','e','n','t',':',' '];
    let t = chars_of(text);
    crate::text::push_all(&mut v, &t);
    string_of(&v)
}

/// Parse like `parse`, but report failure of all three attempts as an error
/// instead of falling back to an empty root. The markdown attempts do not
/// fail, so the result is the tree `parse` gives.
pub fn try_parse(content: &str) -> (r: Result<MdNode, String>)
    ensures
        r is Ok,
        r matches Ok(t) ==> fitted(parsed_tree(content@), t, split_lines(content@).len())
            && tree_fits(t, split_lines(content@).len())
            && (tree_fits(parsed_tree(content@), split_lines(content@).len()) ==> t == parsed_tree(content@)),
{
    let n_lines = line_count(content);
    match to_mdast_mdx(content) {
        Ok(t) => Ok(read_tree(t, n_lines)),
        Err(e) => match to_mdast_gfm(content) {
            Ok(t) => Ok(read_tree(t, n_lines)),
            Err(_) => match to_mdast_commonmark(content) {
                Ok(t) => Ok(read_tree(t, n_lines)),
                Err(_) => Err(parse_failure_message(e.as_str())),
            },
        },
    }
}

} // verus!
