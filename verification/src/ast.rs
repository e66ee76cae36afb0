//! The document tree the formatting rules read: node kinds, source positions,
//! and the few node properties the rules look at.
use vstd::prelude::*;

verus! {

/// The node kinds the formatting rules distinguish; every other kind is `Other`.
#[derive(PartialEq, Eq, Structural, Clone, Copy, Debug)]
pub enum NodeKind {
    Root,
    Heading,
    Paragraph,
    List,
    ListItem,
    Blockquote,
    Code,
    Table,
    TableRow,
    TableCell,
    Emphasis,
    Strong,
    Link,
    Delete,
    FootnoteDefinition,
    MdxJsxFlowElement,
    MdxJsxTextElement,
    Yaml,
    Text,
    InlineCode,
    Other,
}

/// A source span: 1-indexed lines and 1-indexed columns, as the parser reports them.
#[derive(PartialEq, Eq, Structural, Clone, Copy, Debug)]
pub struct Pos {
    pub start_line: usize,
    pub start_column: usize,
    pub end_line: usize,
    pub end_column: usize,
}

/// A JSX attribute: a spread `{...}` expression, or a named property with an
/// optional literal or expression value.
#[derive(Clone, Debug)]
pub enum JsxAttr {
    Spread(String),
    Boolean(String),
    Literal(String, String),
    Expression(String, String),
}

/// One node of the document tree.
///
/// `name` and `attributes` are those of JSX elements; `ordered` and `start`
/// those of lists; `value` is the text of YAML, text, code and inline-code nodes.
#[derive(Debug)]
pub struct MdNode {
    pub kind: NodeKind,
    pub position: Option<Pos>,
    pub children: Vec<MdNode>,
    pub name: Option<String>,
    pub attributes: Vec<JsxAttr>,
    pub ordered: bool,
    pub start: Option<u32>,
    pub value: String,
}

/// Kinds whose children the generic tree walks descend into.
pub open spec fn has_kids(k: NodeKind) -> bool {
    match k {
        NodeKind::Root | NodeKind::Heading | NodeKind::Paragraph | NodeKind::List
        | NodeKind::ListItem | NodeKind::Blockquote | NodeKind::MdxJsxFlowElement
        | NodeKind::MdxJsxTextElement | NodeKind::Table | NodeKind::TableRow
        | NodeKind::TableCell | NodeKind::Emphasis | NodeKind::Strong | NodeKind::Link
        | NodeKind::Delete | NodeKind::FootnoteDefinition => true,
        _ => false,
    }
}

/// The children a generic walk visits: the node's children for container
/// kinds, none otherwise.
pub open spec fn kids(n: MdNode) -> Seq<MdNode> {
    if has_kids(n.kind) { n.children@ } else { Seq::empty() }
}

pub fn has_children_kind(k: &NodeKind) -> (r: bool)
    ensures
        r == has_kids(*k),
{
    match k {
        NodeKind::Root | NodeKind::Heading | NodeKind::Paragraph | NodeKind::List
        | NodeKind::ListItem | NodeKind::Blockquote | NodeKind::MdxJsxFlowElement
        | NodeKind::MdxJsxTextElement | NodeKind::Table | NodeKind::TableRow
        | NodeKind::TableCell | NodeKind::Emphasis | NodeKind::Strong | NodeKind::Link
        | NodeKind::Delete | NodeKind::FootnoteDefinition => true,
        _ => false,
    }
}

/// 0-indexed line of a 1-indexed line number (saturating at 0).
pub open spec fn line0(l: usize) -> nat {
    if l == 0 { 0 } else { (l - 1) as nat }
}

pub fn line0_exec(l: usize) -> (r: usize)
    ensures
        r == line0(l),
{
    if l == 0 { 0 } else { l - 1 }
}

/// Every position in the tree lies within `n_lines` lines and starts no later
/// than it ends: what a parser of those lines reports.
pub open spec fn pos_fits(p: Pos, n_lines: nat) -> bool {
    &&& 1 <= p.start_line <= p.end_line
    &&& p.end_line <= n_lines
    &&& p.start_column >= 1
    &&& p.end_column >= 1
}

pub open spec fn opt_pos_fits(p: Option<Pos>, n_lines: nat) -> bool {
    match p {
        Some(q) => pos_fits(q, n_lines),
        None => true,
    }
}

pub open spec fn tree_fits(n: MdNode, n_lines: nat) -> bool
    decreases n, 1nat,
{
    &&& opt_pos_fits(n.position, n_lines)
    &&& kids_fit(n, n_lines, n.children.len() as int)
}

pub open spec fn kids_fit(n: MdNode, n_lines: nat, i: int) -> bool
    decreases n, 0nat, i,
{
    if i <= 0 || i > n.children@.len() {
        true
    } else {
        kids_fit(n, n_lines, i - 1) && tree_fits(n.children@[i - 1], n_lines)
    }
}

pub proof fn lemma_kids_fit(n: MdNode, n_lines: nat, i: int, k: int)
    requires
        kids_fit(n, n_lines, i),
        0 <= k < i <= n.children@.len(),
    ensures
        tree_fits(n.children@[k], n_lines),
    decreases i,
{
    if k < i - 1 {
        lemma_kids_fit(n, n_lines, i - 1, k);
    }
}

/// Each child of a fitting node fits.
pub proof fn lemma_child_fits(n: MdNode, n_lines: nat, k: int)
    requires
        tree_fits(n, n_lines),
        0 <= k < n.children@.len(),
    ensures
        tree_fits(n.children@[k], n_lines),
{
    lemma_kids_fit(n, n_lines, n.children.len() as int, k);
}

} // verus!
