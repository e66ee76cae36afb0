//! Tree-driven rules: blank lines after headings and JSX blocks, list item
//! indentation, and HTML block formatting.
use vstd::prelude::*;
use crate::ast::{MdNode, NodeKind, Pos, has_kids, has_children_kind, line0, line0_exec};
use crate::ops::{OpView, views, push_op, views_wf};
use crate::text::{
    lv, is_blank, trim, trim_start, starts_with, spaces, is_blank_line, trim_vec, trim_start_vec,
    starts_with_vec, spaces_vec, string_of, utf8_len, utf8_len_exec, lead_count, ws_pred,
    lead_ws_len, slice_vec, chars_of, join_lines, join_lines_vec,
};
use crate::html_formatter::{html_formatted, format_html_block, seq_eq};
use crate::lines::{is_ordered_marker, is_numbered_list_line, marker_width, list_marker_width,
    is_ordered_list_marker};
use crate::types::FormatterOperation;

verus! {

// ---------------------------------------------------------------------------
// Blank line after headings and JSX flow elements
// ---------------------------------------------------------------------------

pub open spec fn insert_blank(at: int) -> Seq<OpView> {
    seq![OpView::Insert(at as nat, Seq::empty())]
}

/// The operation one node asks for: an empty line after a heading whose next
/// line is non-empty and not a heading, and after a JSX flow element (not in a
/// table row) whose next line is non-empty text, not a heading, list item or tag.
pub open spec fn node_spacing(n: MdNode, ls: Seq<Seq<char>>) -> Seq<OpView> {
    match n.position {
        None => Seq::empty(),
        Some(p) => {
            let e = line0(p.end_line) as int;
            if ls.len() > 1 && e < ls.len() - 1 {
                let next = ls[e + 1];
                let t = trim(next);
                if n.kind == NodeKind::Heading {
                    if !is_blank(next) && !starts_with(next, seq!['#']) {
                        insert_blank(e + 1)
                    } else {
                        Seq::empty()
                    }
                } else if n.kind == NodeKind::MdxJsxFlowElement {
                    if starts_with(trim(ls[e]), seq!['|']) {
                        Seq::empty()
                    } else if !is_blank(next) && !starts_with(t, seq!['#']) && !starts_with(
                        t,
                        seq!['-'],
                    ) && !is_ordered_marker(t) && !starts_with(t, seq!['<']) {
                        insert_blank(e + 1)
                    } else {
                        Seq::empty()
                    }
                } else {
                    Seq::empty()
                }
            } else {
                Seq::empty()
            }
        }
    }
}

/// Spacing operations of a whole tree, in pre-order.
pub open spec fn spacing_ops(n: MdNode, ls: Seq<Seq<char>>) -> Seq<OpView>
    decreases n, 1nat,
{
    node_spacing(n, ls) + if has_kids(n.kind) {
        spacing_kids(n, ls, n.children@.len() as int)
    } else {
        Seq::empty()
    }
}

pub open spec fn spacing_kids(n: MdNode, ls: Seq<Seq<char>>, i: int) -> Seq<OpView>
    decreases n, 0nat, i,
{
    if i <= 0 || i > n.children@.len() {
        Seq::empty()
    } else {
        spacing_kids(n, ls, i - 1) + spacing_ops(n.children@[i - 1], ls)
    }
}

fn one_char(c: char) -> (r: Vec<char>)
    ensures
        r@ == seq![c],
{
    let mut v: Vec<char> = Vec::new();
    v.push(c);
    assert(v@ =~= seq![c]);
    v
}

fn starts_with_char(s: &[char], c: char) -> (r: bool)
    ensures
        r == starts_with(s@, seq![c]),
{
    let p = one_char(c);
    starts_with_vec(s, &p)
}

/// Check if a node (heading or JSX flow element) needs an empty line after it.
pub fn check_node_spacing(n: &MdNode, ls: &Vec<Vec<char>>, out: &mut Vec<FormatterOperation>)
    ensures
        views_wf(views(old(out)@)) ==> views_wf(views(final(out)@)),
        views(final(out)@) == views(old(out)@) + node_spacing(*n, lv(ls@)),
{
    let ghost l = lv(ls@);
    if let Some(p) = &n.position {
        let e = line0_exec(p.end_line);
        if ls.len() > 1 && e < ls.len() - 1 {
            let next = &ls[e + 1];
            let t = trim_vec(next);
            if n.kind == NodeKind::Heading {
                if !is_blank_line(next) && !starts_with_char(next, '#') {
                    push_op(out, FormatterOperation::InsertLine { start_line: e + 1, content: String::new() });
                    assert(views(out@) =~= views(old(out)@) + node_spacing(*n, l));
                    return;
                }
            } else if n.kind == NodeKind::MdxJsxFlowElement {
                let cur = trim_vec(&ls[e]);
                if starts_with_char(&cur, '|') {
                    assert(views(out@) =~= views(old(out)@) + node_spacing(*n, l));
                    return;
                }
                if !is_blank_line(next) && !starts_with_char(&t, '#') && !starts_with_char(&t, '-')
                    && !is_numbered_list_line(next) && !starts_with_char(&t, '<') {
                    push_op(out, FormatterOperation::InsertLine { start_line: e + 1, content: String::new() });
                    assert(views(out@) =~= views(old(out)@) + node_spacing(*n, l));
                    return;
                }
            }
        }
    }
    assert(views(out@) =~= views(old(out)@) + node_spacing(*n, l));
}

/// Walk the whole tree and collect the spacing operations of every node.
pub fn collect_spacing_operations(n: &MdNode, ls: &Vec<Vec<char>>, out: &mut Vec<FormatterOperation>)
    ensures
        views_wf(views(old(out)@)) ==> views_wf(views(final(out)@)),
        views(final(out)@) == views(old(out)@) + spacing_ops(*n, lv(ls@)),
    decreases n,
{
    let ghost o0 = views(out@);
    let ghost l = lv(ls@);
    check_node_spacing(n, ls, out);
    if has_children_kind(&n.kind) {
        let mut i: usize = 0;
        while i < n.children.len()
            invariant
                views_wf(views(old(out)@)) ==> views_wf(views(out@)),
                i <= n.children.len(),
                has_kids(n.kind),
                l == lv(ls@),
                views(out@) == o0 + node_spacing(*n, l) + spacing_kids(*n, l, i as int),
            decreases n.children.len() - i,
        {
            let ghost before = views(out@);
            collect_spacing_operations(&n.children[i], ls, out);
            assert(spacing_kids(*n, l, i + 1) == spacing_kids(*n, l, i as int) + spacing_ops(
                n.children@[i as int],
                l,
            ));
            assert(views(out@) =~= o0 + node_spacing(*n, l) + spacing_kids(*n, l, i + 1));
            i += 1;
        }
        assert(views(out@) =~= o0 + spacing_ops(*n, l));
    } else {
        assert(views(out@) =~= o0 + spacing_ops(*n, l));
    }
}


// ---------------------------------------------------------------------------
// List item indentation
// ---------------------------------------------------------------------------

/// `a + b`, saturating at `usize::MAX`.
pub open spec fn sat_add(a: usize, b: usize) -> usize {
    if a + b > usize::MAX { usize::MAX } else { (a + b) as usize }
}

/// Marker width of the line an item starts on (2 when that line is missing).
pub open spec fn item_marker_width(p: Pos, ls: Seq<Seq<char>>) -> nat {
    let li = line0(p.start_line) as int;
    if li < ls.len() { marker_width(trim_start(ls[li])) } else { 2 }
}

/// Expected indentation of every list item: (0-indexed line, indent) pairs
/// in document order; nested items sit at the parent's indent plus the
/// parent's marker width.
pub open spec fn nesting(n: MdNode, ls: Seq<Seq<char>>, cur: usize) -> Seq<(usize, usize)>
    decreases n, 2nat, 0int,
{
    match n.kind {
        NodeKind::Root => nest_kids(n, ls, 0, n.children@.len() as int),
        NodeKind::List => nest_items(n, ls, cur, n.children@.len() as int),
        NodeKind::Blockquote | NodeKind::ListItem => nest_kids(n, ls, cur, n.children@.len() as int),
        _ => Seq::empty(),
    }
}

pub open spec fn nest_kids(n: MdNode, ls: Seq<Seq<char>>, cur: usize, i: int) -> Seq<(usize, usize)>
    decreases n, 1nat, i,
{
    if i <= 0 || i > n.children@.len() {
        Seq::empty()
    } else {
        nest_kids(n, ls, cur, i - 1) + nesting(n.children@[i - 1], ls, cur)
    }
}

pub open spec fn nest_items(n: MdNode, ls: Seq<Seq<char>>, cur: usize, i: int) -> Seq<(usize, usize)>
    decreases n, 1nat, i,
{
    if i <= 0 || i > n.children@.len() {
        Seq::empty()
    } else {
        let c = n.children@[i - 1];
        nest_items(n, ls, cur, i - 1) + if c.kind == NodeKind::ListItem && c.position is Some {
            let p = c.position.unwrap();
            seq![(line0(p.start_line) as usize, cur)] + nest_kids(
                c,
                ls,
                sat_add(cur, item_marker_width(p, ls) as usize),
                c.children@.len() as int,
            )
        } else {
            Seq::empty()
        }
    }
}

pub fn item_marker_width_exec(p: &Pos, ls: &Vec<Vec<char>>) -> (r: usize)
    ensures
        r == item_marker_width(*p, lv(ls@)),
{
    let li = line0_exec(p.start_line);
    if li < ls.len() {
        let t = trim_start_vec(&ls[li]);
        list_marker_width(&t)
    } else {
        2
    }
}

/// Expected indentation of the items of the list items of `n` (children `0..i`
/// of a list node), appended to `out`.
fn collect_list_items(n: &MdNode, ls: &Vec<Vec<char>>, cur: usize, out: &mut Vec<(usize, usize)>)
    requires
        n.kind == NodeKind::List,
    ensures
        final(out)@ == old(out)@ + nest_items(*n, lv(ls@), cur, n.children@.len() as int),
    decreases n, 1nat, n.children@.len(),
{
    let ghost l = lv(ls@);
    let ghost o0 = out@;
    let mut i: usize = 0;
    while i < n.children.len()
        invariant
            i <= n.children.len(),
            l == lv(ls@),
            out@ == o0 + nest_items(*n, l, cur, i as int),
        decreases n.children.len() - i,
    {
        let c = &n.children[i];
        if c.kind == NodeKind::ListItem {
            if let Some(p) = &c.position {
                out.push((line0_exec(p.start_line), cur));
                let w = item_marker_width_exec(p, ls);
                let child = cur.saturating_add(w);
                collect_kids_nesting(c, ls, child, out);
            }
        }
        assert(out@ =~= o0 + nest_items(*n, l, cur, i + 1));
        i += 1;
    }
}

/// Nesting of every child of `n`, appended to `out`.
fn collect_kids_nesting(n: &MdNode, ls: &Vec<Vec<char>>, cur: usize, out: &mut Vec<(usize, usize)>)
    ensures
        final(out)@ == old(out)@ + nest_kids(*n, lv(ls@), cur, n.children@.len() as int),
    decreases n, 1nat, n.children@.len(),
{
    let ghost l = lv(ls@);
    let ghost o0 = out@;
    let mut i: usize = 0;
    while i < n.children.len()
        invariant
            i <= n.children.len(),
            l == lv(ls@),
            out@ == o0 + nest_kids(*n, l, cur, i as int),
        decreases n.children.len() - i,
    {
        collect_list_nesting(&n.children[i], ls, cur, out);
        assert(out@ =~= o0 + nest_kids(*n, l, cur, i + 1));
        i += 1;
    }
}

/// Walk lists recursively, computing expected indents from marker widths.
pub fn collect_list_nesting(n: &MdNode, ls: &Vec<Vec<char>>, cur: usize, out: &mut Vec<(usize, usize)>)
    ensures
        final(out)@ == old(out)@ + nesting(*n, lv(ls@), cur),
    decreases n, 2nat, 0int,
{
    match n.kind {
        NodeKind::Root => collect_kids_nesting(n, ls, 0, out),
        NodeKind::List => collect_list_items(n, ls, cur, out),
        NodeKind::Blockquote | NodeKind::ListItem => collect_kids_nesting(n, ls, cur, out),
        _ => {
            assert(out@ =~= old(out)@ + nesting(*n, lv(ls@), cur));
        }
    }
}

/// Byte width of a line's leading white space.
pub open spec fn lead_ws_bytes(line: Seq<char>) -> nat {
    utf8_len(line.take(lead_count(line, ws_pred()) as int))
}

pub open spec fn looks_like_item(t: Seq<char>) -> bool {
    starts_with(t, seq!['-', ' ']) || starts_with(t, seq!['*', ' ']) || starts_with(t, seq!['+', ' '])
        || is_ordered_marker(t)
}

/// The fix for one (line, expected indent) target: re-indent a list item
/// line whose current indentation differs.
pub open spec fn indent_fix(t: (usize, usize), ls: Seq<Seq<char>>) -> Seq<OpView> {
    let (li, expected) = t;
    if li < ls.len() && looks_like_item(trim_start(ls[li as int])) && lead_ws_bytes(ls[li as int])
        != expected {
        seq![OpView::FixIndent(li as nat, spaces(expected as nat))]
    } else {
        Seq::empty()
    }
}

pub open spec fn indent_fixes(ts: Seq<(usize, usize)>, ls: Seq<Seq<char>>) -> Seq<OpView>
    decreases ts.len(),
{
    if ts.len() == 0 {
        Seq::empty()
    } else {
        indent_fixes(ts.drop_last(), ls) + indent_fix(ts.last(), ls)
    }
}

pub open spec fn list_indentation_ops(n: MdNode, ls: Seq<Seq<char>>) -> Seq<OpView> {
    indent_fixes(nesting(n, ls, 0), ls)
}

fn two_chars(a: char, b: char) -> (r: Vec<char>)
    ensures
        r@ == seq![a, b],
{
    let mut v: Vec<char> = Vec::new();
    v.push(a);
    v.push(b);
    assert(v@ =~= seq![a, b]);
    v
}

/// Emit `FixListIndent` for every list item line whose indentation differs
/// from the expected one.
pub fn collect_list_indentation_operations(n: &MdNode, ls: &Vec<Vec<char>>, out: &mut Vec<FormatterOperation>)
    ensures
        views_wf(views(old(out)@)) ==> views_wf(views(final(out)@)),
        views(final(out)@) == views(old(out)@) + list_indentation_ops(*n, lv(ls@)),
{
    let ghost l = lv(ls@);
    let ghost o0 = views(out@);
    let mut targets: Vec<(usize, usize)> = Vec::new();
    collect_list_nesting(n, ls, 0, &mut targets);
    assert(targets@ =~= nesting(*n, l, 0));
    let dash = two_chars('-', ' ');
    let star = two_chars('*', ' ');
    let plus = two_chars('+', ' ');
    let mut i: usize = 0;
    while i < targets.len()
        invariant
            views_wf(views(old(out)@)) ==> views_wf(views(out@)),
            i <= targets.len(),
            l == lv(ls@),
            targets@ == nesting(*n, l, 0),
            dash@ == seq!['-', ' '],
            star@ == seq!['*', ' '],
            plus@ == seq!['+', ' '],
            views(out@) == o0 + indent_fixes(targets@.take(i as int), l),
        decreases targets.len() - i,
    {
        let (li, expected) = targets[i];
        assert(targets@.take(i + 1).drop_last() =~= targets@.take(i as int));
        if li < ls.len() {
            let line = &ls[li];
            let k = lead_ws_len(line);
            let t = slice_vec(line, k, line.len());
            let is_item = starts_with_vec(&t, &dash) || starts_with_vec(&t, &star)
                || starts_with_vec(&t, &plus) || is_ordered_list_marker(&t);
            if is_item {
                let lead = slice_vec(line, 0, k);
                let cur = utf8_len_exec(&lead);
                if cur != expected as u128 {
                    let ind = spaces_vec(expected);
                    push_op(out, FormatterOperation::FixListIndent { start_line: li, indent: string_of(&ind) });
                }
            }
        }
        assert(views(out@) =~= o0 + indent_fixes(targets@.take(i + 1), l));
        i += 1;
    }
    assert(targets@.take(targets.len() as int) =~= targets@);
}


// ---------------------------------------------------------------------------
// HTML blocks
// ---------------------------------------------------------------------------

/// An HTML element name: empty, or starting with an ASCII lowercase letter.
pub open spec fn is_html_name(name: Seq<char>) -> bool {
    name.len() == 0 || ('a' <= name[0] && name[0] <= 'z')
}

pub open spec fn nested_in(acc: Seq<(usize, usize)>, s: usize, e: usize) -> bool {
    exists|k: int| 0 <= k < acc.len() && s > (#[trigger] acc[k]).0 && e < acc[k].1
}

/// Line ranges of outermost HTML flow elements, appended to `acc` in
/// document order (a range strictly inside an earlier one is skipped; an
/// HTML element's children are not visited).
pub open spec fn html_walk(n: MdNode, acc: Seq<(usize, usize)>) -> Seq<(usize, usize)>
    decreases n, 1nat, 0int,
{
    if n.kind == NodeKind::MdxJsxFlowElement && n.name is Some && is_html_name(n.name.unwrap()@)
        && n.position is Some {
        let p = n.position.unwrap();
        let s = line0(p.start_line) as usize;
        let e = line0(p.end_line) as usize;
        if nested_in(acc, s, e) { acc } else { acc.push((s, e)) }
    } else if has_kids(n.kind) {
        html_kids(n, acc, n.children@.len() as int)
    } else {
        acc
    }
}

pub open spec fn html_kids(n: MdNode, acc: Seq<(usize, usize)>, i: int) -> Seq<(usize, usize)>
    decreases n, 0nat, i,
{
    if i <= 0 || i > n.children@.len() {
        acc
    } else {
        html_walk(n.children@[i - 1], html_kids(n, acc, i - 1))
    }
}

fn is_html_element(name: &String) -> (r: bool)
    ensures
        r == is_html_name(name@),
{
    let c = chars_of(name.as_str());
    c.len() == 0 || ('a' <= c[0] && c[0] <= 'z')
}

fn is_nested(acc: &Vec<(usize, usize)>, s: usize, e: usize) -> (r: bool)
    ensures
        r == nested_in(acc@, s, e),
{
    let mut k: usize = 0;
    while k < acc.len()
        invariant
            k <= acc.len(),
            forall|j: int| 0 <= j < k ==> !(s > (#[trigger] acc@[j]).0 && e < acc@[j].1),
        decreases acc.len() - k,
    {
        if s > acc[k].0 && e < acc[k].1 {
            return true;
        }
        k += 1;
    }
    false
}

/// Collect the line ranges of the outermost HTML flow elements.
pub fn collect_html_flow_elements(n: &MdNode, acc: &mut Vec<(usize, usize)>)
    ensures
        final(acc)@ == html_walk(*n, old(acc)@),
    decreases n, 1nat, 0int,
{
    if n.kind == NodeKind::MdxJsxFlowElement {
        if let Some(name) = &n.name {
            if is_html_element(name) {
                if let Some(p) = &n.position {
                    let s = line0_exec(p.start_line);
                    let e = line0_exec(p.end_line);
                    if !is_nested(acc, s, e) {
                        acc.push((s, e));
                    }
                    return;
                }
            }
        }
    }
    if has_children_kind(&n.kind) {
        let ghost a0 = acc@;
        let mut i: usize = 0;
        while i < n.children.len()
            invariant
                i <= n.children.len(),
                acc@ == html_kids(*n, a0, i as int),
            decreases n.children.len() - i,
        {
            collect_html_flow_elements(&n.children[i], acc);
            i += 1;
        }
    }
}

/// The operation for one HTML range: replace it by its formatted text when
/// formatting changes it.
pub open spec fn html_op(t: (usize, usize), ls: Seq<Seq<char>>, tab: nat) -> Seq<OpView> {
    let (s, e) = t;
    if s < ls.len() && e < ls.len() && s <= e {
        let html = join_lines(ls.subrange(s as int, e + 1));
        let f = html_formatted(html, tab);
        if f != html { seq![OpView::ReplaceHtml(s as nat, e as nat, f)] } else { Seq::empty() }
    } else {
        Seq::empty()
    }
}

pub open spec fn html_ops(ts: Seq<(usize, usize)>, ls: Seq<Seq<char>>, tab: nat) -> Seq<OpView>
    decreases ts.len(),
{
    if ts.len() == 0 {
        Seq::empty()
    } else {
        html_ops(ts.drop_last(), ls, tab) + html_op(ts.last(), ls, tab)
    }
}

pub open spec fn html_block_ops(n: MdNode, ls: Seq<Seq<char>>, tab: nat) -> Seq<OpView> {
    html_ops(html_walk(n, Seq::empty()), ls, tab)
}

/// Lines `s..=e` joined with newlines.
fn join_range(ls: &Vec<Vec<char>>, s: usize, e: usize) -> (r: Vec<char>)
    requires
        s <= e < ls.len(),
    ensures
        r@ == join_lines(lv(ls@).subrange(s as int, e + 1)),
{
    let mut part: Vec<Vec<char>> = Vec::new();
    let mut k: usize = s;
    while k <= e
        invariant
            s <= k <= e + 1,
            e < ls.len(),
            lv(part@) == lv(ls@).subrange(s as int, k as int),
        decreases e + 1 - k,
    {
        let line = slice_vec(&ls[k], 0, ls[k].len());
        assert(line@ =~= ls@[k as int]@);
        let ghost prev = part@;
        part.push(line);
        assert(lv(part@) =~= lv(prev).push(line@));
        assert(lv(ls@).subrange(s as int, k + 1) =~= lv(ls@).subrange(s as int, k as int).push(ls@[k as int]@));
        k += 1;
    }
    join_lines_vec(&part)
}

/// Format every outermost HTML block and emit `ReplaceHtmlBlock` where it changes.
pub fn collect_html_block_operations(
    n: &MdNode,
    ls: &Vec<Vec<char>>,
    tab_width: usize,
    out: &mut Vec<FormatterOperation>,
)
    ensures
        views_wf(views(old(out)@)) ==> views_wf(views(final(out)@)),
        views(final(out)@) == views(old(out)@) + html_block_ops(*n, lv(ls@), tab_width as nat),
{
    let ghost l = lv(ls@);
    let ghost o0 = views(out@);
    let mut ranges: Vec<(usize, usize)> = Vec::new();
    collect_html_flow_elements(n, &mut ranges);
    assert(ranges@ == html_walk(*n, Seq::empty()));
    let mut i: usize = 0;
    while i < ranges.len()
        invariant
            views_wf(views(old(out)@)) ==> views_wf(views(out@)),
            i <= ranges.len(),
            l == lv(ls@),
            ranges@ == html_walk(*n, Seq::empty()),
            views(out@) == o0 + html_ops(ranges@.take(i as int), l, tab_width as nat),
        decreases ranges.len() - i,
    {
        let (s, e) = ranges[i];
        assert(ranges@.take(i + 1).drop_last() =~= ranges@.take(i as int));
        if s < ls.len() && e < ls.len() && s <= e {
            let html = join_range(ls, s, e);
            let hs = string_of(&html);
            let f = format_html_block(hs.as_str(), tab_width);
            let fc = chars_of(f.as_str());
            if !seq_eq(&fc, &html) {
                push_op(out, FormatterOperation::ReplaceHtmlBlock { start_line: s, end_line: e, content: f });
            }
        }
        assert(views(out@) =~= o0 + html_ops(ranges@.take(i + 1), l, tab_width as nat));
        i += 1;
    }
    assert(ranges@.take(ranges.len() as int) =~= ranges@);
}

} // verus!
