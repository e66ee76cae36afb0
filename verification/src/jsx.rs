//! JSX elements: finding them in the tree, reading their source text,
//! attributes and children, and rebuilding them in the canonical layout.
use vstd::prelude::*;
use crate::ast::{MdNode, NodeKind, Pos, JsxAttr, pos_fits, line0};
use crate::types::FormatterSettings;
use crate::text::{
    lv, split_lines, join_lines, chars_of, string_of, split_lines_vec, join_lines_vec, slice_vec,
    push_all, char_at_byte, char_index_of_byte, find_first, find_first_exec, find_last, find_last_exec, opt_usize,
    is_blank, is_blank_line, has_char, has_char_vec, contains, contains_vec, trim_start,
    trim_start_vec, starts_with, starts_with_vec, occurs_at,
};

verus! {

// ---------------------------------------------------------------------------
// Finding JSX elements
// ---------------------------------------------------------------------------

pub open spec fn is_jsx(k: NodeKind) -> bool {
    k == NodeKind::MdxJsxFlowElement || k == NodeKind::MdxJsxTextElement
}

/// Kinds whose children the JSX walk descends into.
pub open spec fn jsx_container(k: NodeKind) -> bool {
    is_jsx(k) || k == NodeKind::Root || k == NodeKind::Blockquote || k == NodeKind::List
        || k == NodeKind::ListItem || k == NodeKind::Paragraph || k == NodeKind::Heading
}

/// JSX elements with a position, in document (pre-)order, found through
/// roots, block quotes, lists, list items, paragraphs, headings and JSX elements.
pub open spec fn jsx_elems(n: MdNode) -> Seq<MdNode>
    decreases n, 1nat,
{
    (if is_jsx(n.kind) && n.position is Some { seq![n] } else { Seq::empty() }) + if jsx_container(
        n.kind,
    ) {
        jsx_kids(n, n.children@.len() as int)
    } else {
        Seq::empty()
    }
}

pub open spec fn jsx_kids(n: MdNode, i: int) -> Seq<MdNode>
    decreases n, 0nat, i,
{
    if i <= 0 || i > n.children@.len() {
        Seq::empty()
    } else {
        jsx_kids(n, i - 1) + jsx_elems(n.children@[i - 1])
    }
}

pub open spec fn derefs(s: Seq<&MdNode>) -> Seq<MdNode> {
    s.map_values(|r: &MdNode| *r)
}

fn is_jsx_exec(k: &NodeKind) -> (r: bool)
    ensures
        r == is_jsx(*k),
{
    *k == NodeKind::MdxJsxFlowElement || *k == NodeKind::MdxJsxTextElement
}

/// Collect the JSX elements of a tree (see `jsx_elems`).
pub fn visit_jsx_elements<'a>(n: &'a MdNode, out: &mut Vec<&'a MdNode>)
    ensures
        derefs(final(out)@) == derefs(old(out)@) + jsx_elems(*n),
    decreases n, 1nat,
{
    let ghost o0 = derefs(out@);
    if is_jsx_exec(&n.kind) && n.position.is_some() {
        let ghost prev = out@;
        out.push(n);
        assert(derefs(out@) =~= derefs(prev).push(*n));
    }
    let ghost o1 = derefs(out@);
    assert(o1 =~= o0 + (if is_jsx(n.kind) && n.position is Some { seq![*n] } else { Seq::empty() }));
    let container = is_jsx_exec(&n.kind) || n.kind == NodeKind::Root || n.kind == NodeKind::Blockquote
        || n.kind == NodeKind::List || n.kind == NodeKind::ListItem || n.kind == NodeKind::Paragraph
        || n.kind == NodeKind::Heading;
    if container {
        let mut i: usize = 0;
        while i < n.children.len()
            invariant
                i <= n.children.len(),
                derefs(out@) == o1 + jsx_kids(*n, i as int),
            decreases n.children.len() - i,
        {
            visit_jsx_elements(&n.children[i], out);
            assert(derefs(out@) =~= o1 + jsx_kids(*n, i + 1));
            i += 1;
        }
    }
    assert(derefs(out@) =~= o0 + jsx_elems(*n));
}

// ---------------------------------------------------------------------------
// Source text of a node
// ---------------------------------------------------------------------------

pub open spec fn min_nat(a: nat, b: nat) -> nat {
    if a <= b { a } else { b }
}

/// The source text a position covers (1-indexed lines, 1-indexed byte columns).
pub open spec fn node_text(ls: Seq<Seq<char>>, p: Pos) -> Seq<char> {
    let sl = p.start_line - 1;
    let el = p.end_line - 1;
    let sc = p.start_column - 1;
    let ec = p.end_column - 1;
    if sl == el {
        let line = ls[sl];
        let ce = char_at_byte(line, ec);
        line.subrange(min_nat(char_at_byte(line, sc), ce) as int, ce as int)
    } else {
        join_lines(
            seq![ls[sl].skip(char_at_byte(ls[sl], sc) as int)] + ls.subrange(sl + 1, el as int) + seq![
                ls[el].take(char_at_byte(ls[el], ec) as int)
            ],
        )
    }
}

/// Extract the text a position covers from the source lines.
pub fn extract_node_text(ls: &Vec<Vec<char>>, p: &Pos) -> (r: Vec<char>)
    requires
        pos_fits(*p, ls.len() as nat),
    ensures
        r@ == node_text(lv(ls@), *p),
{
    let sl = p.start_line - 1;
    let el = p.end_line - 1;
    let sc = p.start_column - 1;
    let ec = p.end_column - 1;
    let ghost l = lv(ls@);
    if sl == el {
        let line = &ls[sl];
        let ce = char_index_of_byte(line, ec);
        let cs0 = char_index_of_byte(line, sc);
        let cs = if cs0 <= ce { cs0 } else { ce };
        return slice_vec(line, cs, ce);
    }
    let mut parts: Vec<Vec<char>> = Vec::new();
    let first = &ls[sl];
    let cs = char_index_of_byte(first, sc);
    parts.push(slice_vec(first, cs, first.len()));
    let mut k: usize = sl + 1;
    while k < el
        invariant
            sl + 1 <= k <= el,
            el < ls.len(),
            l == lv(ls@),
            lv(parts@) == seq![l[sl as int].skip(cs as int)] + l.subrange(sl + 1, k as int),
        decreases el - k,
    {
        let line = slice_vec(&ls[k], 0, ls[k].len());
        assert(line@ =~= ls@[k as int]@);
        let ghost prev = parts@;
        parts.push(line);
        assert(lv(parts@) =~= lv(prev).push(line@));
        assert(l.subrange(sl + 1, k + 1) =~= l.subrange(sl + 1, k as int).push(l[k as int]));
        k += 1;
    }
    let last = &ls[el];
    let ce = char_index_of_byte(last, ec);
    let ghost prev = parts@;
    parts.push(slice_vec(last, 0, ce));
    assert(lv(parts@) =~= lv(prev).push(l[el as int].take(ce as int)));
    assert(lv(parts@) =~= seq![l[sl as int].skip(cs as int)] + l.subrange(sl + 1, el as int) + seq![
        l[el as int].take(ce as int)
    ]);
    join_lines_vec(&parts)
}

// ---------------------------------------------------------------------------
// Attribute expressions
// ---------------------------------------------------------------------------

/// `name={`.
pub open spec fn needle_of(name: Seq<char>) -> Seq<char> {
    name + seq!['=', '{']
}

/// Index of the `}` that brings brace depth `d` to zero, scanning `s`.
pub open spec fn close_at(s: Seq<char>, d: int) -> Option<nat>
    decreases s.len(),
{
    if s.len() == 0 {
        None
    } else if s[0] == '{' {
        match close_at(s.drop_first(), d + 1) {
            Some(q) => Some(q + 1),
            None => None,
        }
    } else if s[0] == '}' {
        if d - 1 == 0 {
            Some(0)
        } else {
            match close_at(s.drop_first(), d - 1) {
                Some(q) => Some(q + 1),
                None => None,
            }
        }
    } else {
        match close_at(s.drop_first(), d) {
            Some(q) => Some(q + 1),
            None => None,
        }
    }
}

pub open spec fn shifted(o: Option<nat>, k: nat) -> Option<nat> {
    match o {
        Some(q) => Some(q + k),
        None => None,
    }
}

/// The brace-matched `name={...}` text starting on line `i` or a later line
/// holding `name={`.
pub open spec fn attr_expr_from(name: Seq<char>, ls: Seq<Seq<char>>, i: int) -> Option<Seq<char>>
    decreases ls.len() - i,
{
    if i < 0 || i >= ls.len() {
        None
    } else {
        match find_first(ls[i], needle_of(name)) {
            None => attr_expr_from(name, ls, i + 1),
            Some(p) => {
                let rest = join_lines(ls.skip(i)).skip((p + needle_of(name).len()) as int);
                match close_at(rest, 1) {
                    Some(q) => Some(needle_of(name) + rest.take((q + 1) as int)),
                    None => attr_expr_from(name, ls, i + 1),
                }
            },
        }
    }
}

/// The attribute expression `name={...}` as written in the source text, if any.
pub open spec fn attribute_expression(name: Seq<char>, text: Seq<char>) -> Option<Seq<char>> {
    attr_expr_from(name, split_lines(text), 0)
}

fn close_index(s: &[char]) -> (r: Option<usize>)
    ensures
        opt_usize(r) == close_at(s@, 1),
        r matches Some(q) ==> q < s.len(),
{
    let mut d: u128 = 1;
    let mut i: usize = 0;
    proof {
        assert(s@.skip(0) =~= s@);
    }
    while i < s.len()
        invariant
            i <= s.len(),
            1 <= d <= i + 1,
            close_at(s@, 1) == shifted(close_at(s@.skip(i as int), d as int), i as nat),
        decreases s.len() - i,
    {
        let ghost rest = s@.skip(i as int);
        assert(rest[0] == s@[i as int]);
        assert(rest.drop_first() =~= s@.skip(i + 1));
        if s[i] == '{' {
            d = d + 1;
        } else if s[i] == '}' {
            if d == 1 {
                return Some(i);
            }
            d = d - 1;
        }
        i += 1;
    }
    None
}

/// Extract an attribute expression `name={...}` from the source text by
/// brace matching; `None` when no line holds a complete one.
pub fn extract_attribute_expression(name: &str, text: &str) -> (r: Option<String>)
    ensures
        match r {
            Some(s) => attribute_expression(name@, text@) == Some(s@),
            None => attribute_expression(name@, text@) is None,
        },
{
    let t = chars_of(text);
    let ls = split_lines_vec(&t);
    let ghost l = lv(ls@);
    let mut needle = chars_of(name);
    needle.push('=');
    needle.push('{');
    assert(needle@ =~= needle_of(name@));
    let mut i: usize = ls.len();
    let mut result: Option<Vec<char>> = None;
    // Scan from the last line back so that the first match wins.
    while i > 0
        invariant
            i <= ls.len(),
            l == lv(ls@),
            l == split_lines(text@),
            needle@ == needle_of(name@),
            match result {
                Some(v) => attr_expr_from(name@, l, i as int) == Some(v@),
                None => attr_expr_from(name@, l, i as int) is None,
            },
        decreases i,
    {
        i -= 1;
        assert(l[i as int] == ls@[i as int]@);
        match find_first_exec(&ls[i], &needle) {
            None => {},
            Some(p) => {
                let suffix = slice_vec_of_lines(&ls, i);
                let joined = join_lines_vec(&suffix);
                assert(joined@ == join_lines(l.skip(i as int)));
                assert(occurs_at(ls@[i as int]@, needle@, p as int));
                assert(p + needle.len() <= ls[i as int].len());
                let from = p + needle.len();
                assert(from <= joined.len()) by {
                    assert(occurs_at(ls@[i as int]@, needle@, p as int));
                    lemma_join_prefix(l.skip(i as int));
                }
                let rest = slice_vec(&joined, from, joined.len());
                match close_index(&rest) {
                    Some(q) => {
                        let mut v = slice_vec(&needle, 0, needle.len());
                        let taken = slice_vec(&rest, 0, q + 1);
                        push_all(&mut v, &taken);
                        assert(needle@.subrange(0, needle.len() as int) =~= needle@);
                        assert(rest@.take(q + 1) =~= taken@);
                        assert(rest@ =~= join_lines(l.skip(i as int)).skip(from as int));
                        assert(find_first(l[i as int], needle_of(name@)) == Some(p as nat));
                        assert(close_at(rest@, 1) == Some(q as nat));
                        assert(v@ =~= needle_of(name@) + rest@.take(q + 1));
                        assert(attr_expr_from(name@, l, i as int) == Some(v@));
                        result = Some(v);
                    },
                    None => {
                        assert(rest@ =~= join_lines(l.skip(i as int)).skip(from as int));
                        assert(find_first(l[i as int], needle_of(name@)) == Some(p as nat));
                        assert(close_at(rest@, 1) is None);
                        assert(attr_expr_from(name@, l, i as int) == attr_expr_from(name@, l, i + 1));
                    },
                }
            },
        }
    }
    match result {
        Some(v) => Some(string_of(&v)),
        None => None,
    }
}

/// The lines from `i` on, as their own vector.
fn slice_vec_of_lines(ls: &Vec<Vec<char>>, i: usize) -> (r: Vec<Vec<char>>)
    requires
        i <= ls.len(),
    ensures
        lv(r@) == lv(ls@).skip(i as int),
{
    let mut out: Vec<Vec<char>> = Vec::new();
    let mut k: usize = i;
    while k < ls.len()
        invariant
            i <= k <= ls.len(),
            lv(out@) == lv(ls@).subrange(i as int, k as int),
        decreases ls.len() - k,
    {
        let line = slice_vec(&ls[k], 0, ls[k].len());
        assert(line@ =~= ls@[k as int]@);
        let ghost prev = out@;
        out.push(line);
        assert(lv(out@) =~= lv(prev).push(line@));
        assert(lv(ls@).subrange(i as int, k + 1) =~= lv(ls@).subrange(i as int, k as int).push(
            lv(ls@)[k as int],
        ));
        k += 1;
    }
    assert(lv(ls@).subrange(i as int, ls.len() as int) =~= lv(ls@).skip(i as int));
    out
}

/// The joined text starts with the first line.
pub proof fn lemma_join_prefix(ls: Seq<Seq<char>>)
    requires
        ls.len() > 0,
    ensures
        join_lines(ls).len() >= ls[0].len(),
        join_lines(ls).take(ls[0].len() as int) == ls[0],
{
    assert(ls =~= seq![ls[0]] + ls.drop_first());
    if ls.drop_first().len() == 0 {
        assert(join_lines(ls) == ls[0]);
        assert(join_lines(ls).take(ls[0].len() as int) =~= ls[0]);
    } else {
        crate::text::lemma_join_cons(ls[0], ls.drop_first());
        assert(join_lines(ls).take(ls[0].len() as int) =~= ls[0]);
    }
}


// ---------------------------------------------------------------------------
// Attribute strings
// ---------------------------------------------------------------------------

/// `name={value}`.
pub open spec fn braced(name: Seq<char>, v: Seq<char>) -> Seq<char> {
    name + seq!['=', '{'] + v + seq!['}']
}

/// How an attribute is written back: spreads as `{...}`, booleans bare,
/// literals double-quoted, expressions braced, preferring the source text for
/// template literals (when preserving them) and for empty expressions.
pub open spec fn attribute_string(a: JsxAttr, text: Seq<char>, preserve: bool) -> Seq<char> {
    match a {
        JsxAttr::Spread(v) => seq!['{'] + v@ + seq!['}'],
        JsxAttr::Boolean(name) => name@,
        JsxAttr::Literal(name, v) => name@ + seq!['=', '"'] + v@ + seq!['"'],
        JsxAttr::Expression(name, v) => if preserve && starts_with(trim_start(v@), seq!['`']) {
            match attribute_expression(name@, text) {
                Some(x) => x,
                None => braced(name@, v@),
            }
        } else if v@.len() > 0 {
            braced(name@, v@)
        } else {
            match attribute_expression(name@, text) {
                Some(x) => x,
                None => braced(name@, seq!['.', '.', '.']),
            }
        },
    }
}

fn braced_exec(name: &String, v: &[char]) -> (r: Vec<char>)
    ensures
        r@ == braced(name@, v@),
{
    let mut out = chars_of(name.as_str());
    out.push('=');
    out.push('{');
    push_all(&mut out, v);
    out.push('}');
    assert(out@ =~= braced(name@, v@));
    out
}

/// Build an attribute string (see `attribute_string`).
pub fn get_attribute_string(a: &JsxAttr, text: &str, preserve: bool) -> (r: Vec<char>)
    ensures
        r@ == attribute_string(*a, text@, preserve),
{
    match a {
        JsxAttr::Spread(v) => {
            let mut out: Vec<char> = Vec::new();
            out.push('{');
            let vc = chars_of(v.as_str());
            push_all(&mut out, &vc);
            out.push('}');
            assert(out@ =~= seq!['{'] + v@ + seq!['}']);
            out
        },
        JsxAttr::Boolean(name) => chars_of(name.as_str()),
        JsxAttr::Literal(name, v) => {
            let mut out = chars_of(name.as_str());
            out.push('=');
            out.push('"');
            let vc = chars_of(v.as_str());
            push_all(&mut out, &vc);
            out.push('"');
            assert(out@ =~= name@ + seq!['=', '"'] + v@ + seq!['"']);
            out
        },
        JsxAttr::Expression(name, v) => {
            let vc = chars_of(v.as_str());
            let ts = trim_start_vec(&vc);
            let tick: Vec<char> = vec!['`'];
            assert(tick@ =~= seq!['`']);
            if preserve && starts_with_vec(&ts, &tick) {
                match extract_attribute_expression(name.as_str(), text) {
                    Some(x) => chars_of(x.as_str()),
                    None => braced_exec(name, &vc),
                }
            } else if vc.len() > 0 {
                braced_exec(name, &vc)
            } else {
                match extract_attribute_expression(name.as_str(), text) {
                    Some(x) => chars_of(x.as_str()),
                    None => {
                        let dots: Vec<char> = vec!['.', '.', '.'];
                        assert(dots@ =~= seq!['.', '.', '.']);
                        braced_exec(name, &dots)
                    },
                }
            }
        },
    }
}

// ---------------------------------------------------------------------------
// Children text
// ---------------------------------------------------------------------------

/// First line from `i` on that ends an opening tag (holds `>` but not `/>`).
pub open spec fn open_line(ls: Seq<Seq<char>>, i: int) -> Option<nat>
    decreases ls.len() - i,
{
    if i < 0 || i >= ls.len() {
        None
    } else if has_char(ls[i], '>') && !contains(ls[i], seq!['/', '>']) {
        Some(i as nat)
    } else {
        open_line(ls, i + 1)
    }
}

/// Last line before `i` holding `tag`.
pub open spec fn close_line(ls: Seq<Seq<char>>, tag: Seq<char>, i: int) -> Option<nat>
    decreases i,
{
    if i <= 0 || i > ls.len() {
        None
    } else if contains(ls[i - 1], tag) {
        Some((i - 1) as nat)
    } else {
        close_line(ls, tag, i - 1)
    }
}

pub open spec fn closing_prefix(name: Seq<char>) -> Seq<char> {
    seq!['<', '/'] + name
}

pub open spec fn kept_if_text(s: Seq<char>) -> Seq<Seq<char>> {
    if !is_blank(s) { seq![s] } else { Seq::empty() }
}

/// The text between the opening and the closing tag of `name`: the rest of
/// the line that ends the opening tag, the lines between, and the start of
/// the line holding `</name` (outer parts kept only when not blank).
pub open spec fn children_text(name: Seq<char>, text: Seq<char>) -> Seq<char> {
    let ls = split_lines(text);
    let tag = closing_prefix(name);
    match (open_line(ls, 0), close_line(ls, tag, ls.len() as int)) {
        (Some(o), Some(c)) => if c > o {
            let after = ls[o as int].skip(crate::text::first_index(ls[o as int], '>') + 1int);
            let before = ls[c as int].take(find_first(ls[c as int], tag).unwrap() as int);
            join_lines(kept_if_text(after) + ls.subrange(o + 1int, c as int) + kept_if_text(before))
        } else {
            Seq::empty()
        },
        _ => Seq::empty(),
    }
}

fn first_char_index(s: &[char], c: char) -> (r: usize)
    ensures
        r == crate::text::first_index(s@, c),
        r <= s.len(),
{
    let mut i: usize = 0;
    proof {
        assert(s@.skip(0) =~= s@);
    }
    while i < s.len() && s[i] != c
        invariant
            i <= s.len(),
            crate::text::first_index(s@, c) == i + crate::text::first_index(s@.skip(i as int), c),
        decreases s.len() - i,
    {
        assert(s@.skip(i as int).drop_first() =~= s@.skip(i + 1));
        i += 1;
    }
    proof {
        if i < s.len() {
            assert(s@.skip(i as int)[0] == c);
        }
    }
    i
}

pub fn closing_prefix_exec(name: &[char]) -> (r: Vec<char>)
    ensures
        r@ == closing_prefix(name@),
{
    let mut v: Vec<char> = vec!['<', '/'];
    push_all(&mut v, name);
    assert(v@ =~= closing_prefix(name@));
    v
}

fn push_line(out: &mut Vec<Vec<char>>, line: Vec<char>)
    ensures
        lv(final(out)@) == lv(old(out)@).push(line@),
        final(out)@.len() == old(out)@.len() + 1,
{
    let ghost prev = out@;
    out.push(line);
    assert(lv(out@) =~= lv(prev).push(line@));
}

fn find_open_line(ls: &Vec<Vec<char>>) -> (r: Option<usize>)
    ensures
        opt_usize(r) == open_line(lv(ls@), 0),
        r matches Some(o) ==> o < ls.len() && has_char(lv(ls@)[o as int], '>'),
{
    let ghost l = lv(ls@);
    let slash_gt: Vec<char> = vec!['/', '>'];
    assert(slash_gt@ =~= seq!['/', '>']);
    let mut o: usize = 0;
    while o < ls.len()
        invariant
            o <= ls.len(),
            l == lv(ls@),
            slash_gt@ == seq!['/', '>'],
            open_line(l, 0) == open_line(l, o as int),
        decreases ls.len() - o,
    {
        if has_char_vec(&ls[o], '>') && !contains_vec(&ls[o], &slash_gt) {
            return Some(o);
        }
        o += 1;
    }
    None
}

fn find_close_line(ls: &Vec<Vec<char>>, tag: &[char]) -> (r: Option<usize>)
    ensures
        opt_usize(r) == close_line(lv(ls@), tag@, ls.len() as int),
        r matches Some(c) ==> c < ls.len() && contains(lv(ls@)[c as int], tag@),
{
    let ghost l = lv(ls@);
    let mut c: usize = ls.len();
    while c > 0
        invariant
            c <= ls.len(),
            l == lv(ls@),
            close_line(l, tag@, ls.len() as int) == close_line(l, tag@, c as int),
        decreases c,
    {
        if contains_vec(&ls[c - 1], tag) {
            return Some(c - 1);
        }
        c -= 1;
    }
    None
}

fn middle_lines(ls: &Vec<Vec<char>>, parts: &mut Vec<Vec<char>>, from: usize, to: usize)
    requires
        from <= to < ls.len(),
    ensures
        lv(final(parts)@) == lv(old(parts)@) + lv(ls@).subrange(from as int, to as int),
{
    let ghost l = lv(ls@);
    let ghost p0 = lv(parts@);
    let mut k: usize = from;
    while k < to
        invariant
            from <= k <= to,
            to < ls.len(),
            l == lv(ls@),
            lv(parts@) == p0 + l.subrange(from as int, k as int),
        decreases to - k,
    {
        let line = slice_vec(&ls[k], 0, ls[k].len());
        assert(line@ =~= l[k as int]);
        push_line(parts, line);
        assert(l.subrange(from as int, k + 1) =~= l.subrange(from as int, k as int).push(l[k as int]));
        k += 1;
    }
}

fn push_if_text(parts: &mut Vec<Vec<char>>, s: Vec<char>)
    ensures
        lv(final(parts)@) == lv(old(parts)@) + kept_if_text(s@),
{
    let ghost p0 = lv(parts@);
    if !is_blank_line(&s) {
        push_line(parts, s);
    }
    assert(lv(parts@) =~= p0 + kept_if_text(s@));
}

/// Extract the children text of element `name` from its source text.
pub fn extract_children_text(name: &[char], text: &[char]) -> (r: Vec<char>)
    ensures
        r@ == children_text(name@, text@),
{
    let ls = split_lines_vec(text);
    let ghost l = lv(ls@);
    assert(l == split_lines(text@));
    let tag = closing_prefix_exec(name);
    let (o, c) = match (find_open_line(&ls), find_close_line(&ls, &tag)) {
        (Some(o), Some(c)) => (o, c),
        _ => {
            return Vec::new();
        },
    };
    if c <= o {
        return Vec::new();
    }
    let mut parts: Vec<Vec<char>> = Vec::new();
    let gt = first_char_index(&ls[o], '>');
    proof {
        crate::text::lemma_first_index(ls@[o as int]@, '>');
    }
    let after = slice_vec(&ls[o], gt + 1, ls[o].len());
    assert(after@ =~= l[o as int].skip(gt + 1));
    push_if_text(&mut parts, after);
    middle_lines(&ls, &mut parts, o + 1, c);
    let fp = find_first_exec(&ls[c], &tag);
    let p = match fp {
        Some(p) => p,
        None => 0,
    };
    assert(find_first(l[c as int], tag@) == Some(p as nat)) by {
        assert(contains(l[c as int], tag@));
        if fp is None {
            assert(find_first(l[c as int], tag@) is None);
            let w = choose|i: int| occurs_at(l[c as int], tag@, i);
            crate::text::lemma_first_occurrence(l[c as int], tag@, w);
        }
    }
    let before = slice_vec(&ls[c], 0, p);
    assert(before@ =~= l[c as int].take(p as int));
    push_if_text(&mut parts, before);
    join_lines_vec(&parts)
}


// ---------------------------------------------------------------------------
// Does an element need formatting?
// ---------------------------------------------------------------------------

pub open spec fn brace_step(c: char) -> int {
    if c == '{' { 1 } else if c == '}' { -1 } else { 0 }
}

/// Number of `{` minus number of `}`.
pub open spec fn brace_delta(s: Seq<char>) -> int
    decreases s.len(),
{
    if s.len() == 0 { 0 } else { brace_delta(s.drop_last()) + brace_step(s.last()) }
}

/// First line from `i` on where the running brace depth (from `d`) is zero
/// and the trimmed line ends with `>` but not `/>`.
pub open spec fn opening_end(ls: Seq<Seq<char>>, i: int, d: int) -> Option<nat>
    decreases ls.len() - i,
{
    if i < 0 || i >= ls.len() {
        None
    } else {
        let d2 = d + brace_delta(ls[i]);
        let t = crate::text::trim(ls[i]);
        if d2 == 0 && crate::text::ends_with(t, seq!['>']) && !crate::text::ends_with(t, seq!['/', '>']) {
            Some(i as nat)
        } else {
            opening_end(ls, i + 1, d2)
        }
    }
}

/// Some attribute line `i..=last` of the opening tag is misplaced: a lone
/// `/>`, a line not indented by `indent`, or one indented further (unless it
/// continues an expression starting with `{`).
pub open spec fn attr_lines_bad(ls: Seq<Seq<char>>, i: int, last: int, name: Seq<char>, indent: Seq<char>) -> bool
    decreases last + 1 - i,
{
    if i < 1 || i > last || i >= ls.len() {
        false
    } else {
        let t = crate::text::trim(ls[i]);
        if t == seq!['/', '>'] {
            true
        } else if t.len() == 0 || starts_with(t, closing_prefix(name)) {
            attr_lines_bad(ls, i + 1, last, name, indent)
        } else if !starts_with(ls[i], indent) {
            true
        } else {
            let after = ls[i].skip(indent.len() as int);
            if starts_with(after, seq![' ']) && !starts_with(trim_start(after), seq!['{']) {
                true
            } else {
                attr_lines_bad(ls, i + 1, last, name, indent)
            }
        }
    }
}

/// Whether an element needs formatting: a single-line element with at least
/// the threshold number of attributes (when expansion is on), or a multi-line
/// element whose opening tag is laid out differently from the canonical form
/// (when multi-line formatting is on).
pub open spec fn needs_formatting(
    name: Seq<char>,
    n_attrs: nat,
    sl: nat,
    el: nat,
    text: Seq<char>,
    s: FormatterSettings,
) -> bool {
    let multi = sl != el;
    if !multi && n_attrs >= s.expand_single_line_jsx.props_threshold
        && s.expand_single_line_jsx.enabled {
        true
    } else if multi && s.format_multi_line_jsx.enabled {
        let ls = split_lines(text);
        let indent = crate::text::spaces(s.format_multi_line_jsx.indent_size as nat);
        let has_close = contains(text, closing_prefix(name) + seq!['>']);
        let last = ls.len() - 1;
        let ote = if has_close {
            match opening_end(ls, 0, 0) {
                Some(k) => k as int,
                None => last,
            }
        } else {
            last
        };
        let first = ls[0];
        if contains(first, seq!['=', '"']) && !crate::text::ends_with(first, seq!['>'])
            && !crate::text::ends_with(first, seq!['/', '>']) {
            true
        } else {
            attr_lines_bad(ls, 1, ote, name, indent)
        }
    } else {
        false
    }
}

pub proof fn lemma_brace_delta_bound(s: Seq<char>)
    ensures
        -(s.len() as int) <= brace_delta(s) <= s.len(),
    decreases s.len(),
{
    if s.len() > 0 {
        lemma_brace_delta_bound(s.drop_last());
    }
}

fn line_brace_delta(s: &[char]) -> (r: i128)
    ensures
        r == brace_delta(s@),
{
    let mut d: i128 = 0;
    let mut i: usize = 0;
    while i < s.len()
        invariant
            i <= s.len(),
            d == brace_delta(s@.take(i as int)),
            -(i as int) <= d <= i,
        decreases s.len() - i,
    {
        assert(s@.take(i + 1).drop_last() =~= s@.take(i as int));
        if s[i] == '{' {
            d = d + 1;
        } else if s[i] == '}' {
            d = d - 1;
        }
        i += 1;
    }
    assert(s@.take(s.len() as int) =~= s@);
    d
}

fn find_opening_end(ls: &Vec<Vec<char>>, Ghost(text): Ghost<Seq<char>>) -> (r: Option<usize>)
    requires
        lv(ls@) == split_lines(text),
        text.len() <= usize::MAX,
    ensures
        opt_usize(r) == opening_end(lv(ls@), 0, 0),
        r matches Some(k) ==> k < ls.len(),
{
    let ghost l = lv(ls@);
    proof {
        crate::html_formatter::lemma_total_len_split(text);
    }
    let mut d: i128 = 0;
    let mut i: usize = 0;
    let gt: Vec<char> = vec!['>'];
    let sgt: Vec<char> = vec!['/', '>'];
    assert(gt@ =~= seq!['>']);
    assert(sgt@ =~= seq!['/', '>']);
    while i < ls.len()
        invariant
            i <= ls.len(),
            l == lv(ls@),
            gt@ == seq!['>'],
            sgt@ == seq!['/', '>'],
            crate::html_formatter::total_len(l) <= usize::MAX,
            -(crate::html_formatter::total_len(l.take(i as int)) as int) <= d <= crate::html_formatter::total_len(l.take(i as int)),
            opening_end(l, 0, 0) == opening_end(l, i as int, d as int),
        decreases ls.len() - i,
    {
        proof {
            crate::html_formatter::lemma_total_len_prefix(l, i as int);
            lemma_brace_delta_bound(l[i as int]);
        }
        let delta = line_brace_delta(&ls[i]);
        d = d + delta;
        let t = crate::text::trim_vec(&ls[i]);
        if d == 0 && crate::text::ends_with_vec(&t, &gt) && !crate::text::ends_with_vec(&t, &sgt) {
            return Some(i);
        }
        i += 1;
    }
    None
}

fn attr_lines_bad_exec(ls: &Vec<Vec<char>>, last: usize, name: &[char], indent: &[char]) -> (r: bool)
    ensures
        r == attr_lines_bad(lv(ls@), 1, last as int, name@, indent@),
{
    let ghost l = lv(ls@);
    let tag = closing_prefix_exec(name);
    let slash_gt: Vec<char> = vec!['/', '>'];
    assert(slash_gt@ =~= seq!['/', '>']);
    let space: Vec<char> = vec![' '];
    assert(space@ =~= seq![' ']);
    let brace: Vec<char> = vec!['{'];
    assert(brace@ =~= seq!['{']);
    let mut i: usize = 1;
    while i <= last && i < ls.len()
        invariant
            1 <= i,
            l == lv(ls@),
            tag@ == closing_prefix(name@),
            slash_gt@ == seq!['/', '>'],
            space@ == seq![' '],
            brace@ == seq!['{'],
            attr_lines_bad(l, 1, last as int, name@, indent@) == attr_lines_bad(l, i as int, last as int, name@, indent@),
        decreases ls.len() - i,
    {
        let line = &ls[i];
        let t = crate::text::trim_vec(line);
        if crate::html_formatter::seq_eq(&t, &slash_gt) {
            return true;
        }
        if !(t.len() == 0 || starts_with_vec(&t, &tag)) {
            if !starts_with_vec(line, indent) {
                return true;
            }
            let after = slice_vec(line, indent.len(), line.len());
            assert(after@ =~= l[i as int].skip(indent@.len() as int));
            let at = trim_start_vec(&after);
            if starts_with_vec(&after, &space) && !starts_with_vec(&at, &brace) {
                return true;
            }
        }
        i += 1;
    }
    false
}

/// Is `name` one of `names`?
pub open spec fn names_contain(names: Seq<String>, name: Seq<char>) -> bool {
    exists|k: int| 0 <= k < names.len() && (#[trigger] names[k])@ == name
}

pub fn names_contain_exec(names: &Vec<String>, name: &[char]) -> (r: bool)
    ensures
        r == names_contain(names@, name@),
{
    let mut k: usize = 0;
    while k < names.len()
        invariant
            k <= names.len(),
            forall|j: int| 0 <= j < k ==> (#[trigger] names@[j])@ != name@,
        decreases names.len() - k,
    {
        let c = chars_of(names[k].as_str());
        if crate::html_formatter::seq_eq(&c, name) {
            return true;
        }
        k += 1;
    }
    false
}

/// Check if a JSX element needs formatting (see `needs_formatting`).
pub fn needs_jsx_formatting(
    name: &[char],
    n_attrs: usize,
    sl: usize,
    el: usize,
    text: &[char],
    settings: &FormatterSettings,
) -> (r: bool)
    ensures
        r == needs_formatting(name@, n_attrs as nat, sl as nat, el as nat, text@, *settings),
{
    let multi = sl != el;
    let thr = settings.expand_single_line_jsx.props_threshold;
    if !multi && n_attrs >= thr && settings.expand_single_line_jsx.enabled {
        return true;
    }
    if !(multi && settings.format_multi_line_jsx.enabled) {
        return false;
    }
    let ls = split_lines_vec(text);
    let ghost l = lv(ls@);
    let indent = crate::text::spaces_vec(settings.format_multi_line_jsx.indent_size);
    let mut close = closing_prefix_exec(name);
    close.push('>');
    assert(close@ =~= closing_prefix(name@) + seq!['>']);
    let has_close = contains_vec(text, &close);
    let last = ls.len() - 1;
    assert(text@.len() == text.len());
    let ote = if has_close {
        match find_opening_end(&ls, Ghost(text@)) {
            Some(k) => k,
            None => last,
        }
    } else {
        last
    };
    let first = &ls[0];
    let eq_quote: Vec<char> = vec!['=', '"'];
    assert(eq_quote@ =~= seq!['=', '"']);
    let gt: Vec<char> = vec!['>'];
    assert(gt@ =~= seq!['>']);
    let sgt: Vec<char> = vec!['/', '>'];
    assert(sgt@ =~= seq!['/', '>']);
    if contains_vec(first, &eq_quote) && !crate::text::ends_with_vec(first, &gt)
        && !crate::text::ends_with_vec(first, &sgt) {
        return true;
    }
    attr_lines_bad_exec(&ls, ote, name, &indent)
}


// ---------------------------------------------------------------------------
// Rebuilding an element
// ---------------------------------------------------------------------------

pub open spec fn attr_strings(attrs: Seq<JsxAttr>, text: Seq<char>, preserve: bool) -> Seq<Seq<char>> {
    attrs.map_values(|a: JsxAttr| attribute_string(a, text, preserve))
}

/// A continuation line of a multi-line attribute: kept as is inside a
/// template literal, else trimmed and indented (two more spaces unless it
/// closes with `]}`).
pub open spec fn attr_rest_line(l: Seq<char>, indent: Seq<char>, tmpl: bool) -> Seq<char> {
    let t = crate::text::trim(l);
    if tmpl {
        l
    } else if crate::text::ends_with(t, seq![']', '}']) {
        indent + t
    } else {
        indent + seq![' ', ' '] + t
    }
}

pub open spec fn attr_rest(rs: Seq<Seq<char>>, indent: Seq<char>, tmpl: bool) -> Seq<Seq<char>> {
    rs.map_values(|l: Seq<char>| attr_rest_line(l, indent, tmpl))
}

/// The lines one attribute takes in the expanded layout.
pub open spec fn attr_block(a: Seq<char>, indent: Seq<char>, preserve: bool) -> Seq<Seq<char>> {
    if has_char(a, '\n') {
        let al = split_lines(a);
        let tmpl = preserve && contains(al[0], seq!['=', '{', '`']);
        seq![indent + al[0]] + attr_rest(al.drop_first(), indent, tmpl)
    } else {
        seq![indent + a]
    }
}

pub open spec fn attr_blocks(attrs: Seq<Seq<char>>, indent: Seq<char>, preserve: bool) -> Seq<Seq<char>>
    decreases attrs.len(),
{
    if attrs.len() == 0 {
        Seq::empty()
    } else {
        attr_blocks(attrs.drop_last(), indent, preserve) + attr_block(attrs.last(), indent, preserve)
    }
}

/// The opening tag: `<Name>` / `<Name />` without attributes, one line with a
/// single attribute when not expanded, else one attribute (block) per line.
pub open spec fn open_tag_lines(
    name: Seq<char>,
    attrs: Seq<Seq<char>>,
    self_closing: bool,
    expand: bool,
    indent: Seq<char>,
    preserve: bool,
) -> Seq<Seq<char>> {
    let close = if self_closing { seq![' ', '/', '>'] } else { seq!['>'] };
    if attrs.len() == 0 {
        seq![seq!['<'] + name + close]
    } else if !expand && attrs.len() == 1 {
        seq![seq!['<'] + name + seq![' '] + attrs[0] + close]
    } else {
        let body = seq![seq!['<'] + name] + attr_blocks(attrs, indent, preserve);
        if self_closing {
            body.update(body.len() - 1, body.last() + seq![' ', '/', '>'])
        } else {
            body.push(seq!['>'])
        }
    }
}

/// Children lines of a container component: non-blank lines, trimmed and indented.
pub open spec fn container_lines(cls: Seq<Seq<char>>, indent: Seq<char>) -> Seq<Seq<char>>
    decreases cls.len(),
{
    if cls.len() == 0 {
        Seq::empty()
    } else {
        container_lines(cls.drop_last(), indent) + if !is_blank(cls.last()) {
            seq![indent + crate::text::trim(cls.last())]
        } else {
            Seq::empty()
        }
    }
}

/// Whether an element is self-closing, read from its own source text: it
/// has no children, no closing tag `</name>`, and its text ends with `/>`.
/// (Braces inside attribute values, such as template literals, play no part.)
pub open spec fn self_closing_source(name: Seq<char>, text: Seq<char>, children_empty: bool) -> bool {
    &&& children_empty
    &&& !contains(text, closing_prefix(name) + seq!['>'])
    &&& crate::text::ends_with(crate::text::trim(text), seq!['/', '>'])
}

/// The element's lines in the canonical layout.
pub open spec fn jsx_lines(
    name: Seq<char>,
    attrs: Seq<JsxAttr>,
    children_empty: bool,
    text: Seq<char>,
    sl: nat,
    el: nat,
    s: FormatterSettings,
) -> Seq<Seq<char>> {
    let indent = crate::text::spaces(s.format_multi_line_jsx.indent_size as nat);
    let preserve = s.format_multi_line_jsx.preserve_template_literal_indent;
    let sc = self_closing_source(name, text, children_empty);
    let expand = (s.expand_single_line_jsx.enabled && attrs.len()
        >= s.expand_single_line_jsx.props_threshold) || sl != el;
    let head = open_tag_lines(name, attr_strings(attrs, text, preserve), sc, expand, indent, preserve);
    if sc {
        head
    } else {
        let block = s.add_empty_lines_in_block_jsx.enabled && names_contain(
            s.add_empty_lines_in_block_jsx.block_components@,
            name,
        );
        let container = s.indent_jsx_content.enabled && names_contain(
            s.indent_jsx_content.container_components@,
            name,
        );
        let ct = children_text(name, text);
        let mid = if ct.len() == 0 {
            head
        } else {
            let cls = split_lines(ct);
            let h1 = if block && !is_blank(cls[0]) { head.push(Seq::empty()) } else { head };
            let h2 = h1 + if container { container_lines(cls, indent) } else { cls };
            if block && !is_blank(h2.last()) { h2.push(Seq::empty()) } else { h2 }
        };
        mid.push(closing_prefix(name) + seq!['>'])
    }
}

fn tag_line(name: &[char], mid: &[char], close: &[char]) -> (r: Vec<char>)
    ensures
        r@ == seq!['<'] + name@ + mid@ + close@,
{
    let mut v: Vec<char> = vec!['<'];
    push_all(&mut v, name);
    push_all(&mut v, mid);
    push_all(&mut v, close);
    assert(v@ =~= seq!['<'] + name@ + mid@ + close@);
    v
}

fn concat(a: &[char], b: &[char]) -> (r: Vec<char>)
    ensures
        r@ == a@ + b@,
{
    let mut v = slice_vec(a, 0, a.len());
    assert(v@ =~= a@);
    push_all(&mut v, b);
    v
}

/// Append the lines of one attribute block.
fn push_attr_block(out: &mut Vec<Vec<char>>, a: &[char], indent: &[char], preserve: bool)
    ensures
        final(out)@.len() >= old(out)@.len(),
        lv(final(out)@) == lv(old(out)@) + attr_block(a@, indent@, preserve),
{
    let ghost o0 = lv(out@);
    if !has_char_vec(a, '\n') {
        push_line(out, concat(indent, a));
        assert(lv(out@) =~= o0 + attr_block(a@, indent@, preserve));
        return;
    }
    let al = split_lines_vec(a);
    let ghost als = lv(al@);
    let tick: Vec<char> = vec!['=', '{', '`'];
    assert(tick@ =~= seq!['=', '{', '`']);
    let tmpl = preserve && contains_vec(&al[0], &tick);
    push_line(out, concat(indent, &al[0]));
    let close: Vec<char> = vec![']', '}'];
    assert(close@ =~= seq![']', '}']);
    let two: Vec<char> = vec![' ', ' '];
    assert(two@ =~= seq![' ', ' ']);
    let mut k: usize = 1;
    while k < al.len()
        invariant
            1 <= k <= al.len(),
            als == lv(al@),
            close@ == seq![']', '}'],
            two@ == seq![' ', ' '],
            lv(out@) == o0 + seq![indent@ + als[0]] + attr_rest(als.drop_first().take(k - 1), indent@, tmpl),
        decreases al.len() - k,
    {
        let l = &al[k];
        let t = crate::text::trim_vec(l);
        let line = if tmpl {
            slice_vec(l, 0, l.len())
        } else if crate::text::ends_with_vec(&t, &close) {
            concat(indent, &t)
        } else {
            let it = concat(indent, &two);
            concat(&it, &t)
        };
        assert(line@ =~= attr_rest_line(als[k as int], indent@, tmpl));
        push_line(out, line);
        assert(als.drop_first().take(k as int) =~= als.drop_first().take(k - 1).push(als[k as int]));
        assert(lv(out@) =~= o0 + seq![indent@ + als[0]] + attr_rest(als.drop_first().take(k as int), indent@, tmpl));
        k += 1;
    }
    assert(als.drop_first().take(al.len() - 1) =~= als.drop_first());
}

/// Append the trimmed, indented non-blank lines of a container's children.
fn push_container_lines(out: &mut Vec<Vec<char>>, cls: &Vec<Vec<char>>, indent: &[char])
    ensures
        final(out)@.len() >= old(out)@.len(),
        lv(final(out)@) == lv(old(out)@) + container_lines(lv(cls@), indent@),
{
    let ghost o0 = lv(out@);
    let ghost c = lv(cls@);
    let mut k: usize = 0;
    while k < cls.len()
        invariant
            k <= cls.len(),
            c == lv(cls@),
            lv(out@) == o0 + container_lines(c.take(k as int), indent@),
        decreases cls.len() - k,
    {
        assert(c.take(k + 1).drop_last() =~= c.take(k as int));
        if !is_blank_line(&cls[k]) {
            let t = crate::text::trim_vec(&cls[k]);
            push_line(out, concat(indent, &t));
        }
        assert(lv(out@) =~= o0 + container_lines(c.take(k + 1), indent@));
        k += 1;
    }
    assert(c.take(cls.len() as int) =~= c);
}

fn push_all_lines(out: &mut Vec<Vec<char>>, cls: &Vec<Vec<char>>)
    ensures
        final(out)@.len() >= old(out)@.len(),
        lv(final(out)@) == lv(old(out)@) + lv(cls@),
{
    let ghost o0 = lv(out@);
    let mut k: usize = 0;
    while k < cls.len()
        invariant
            k <= cls.len(),
            lv(out@) == o0 + lv(cls@).take(k as int),
        decreases cls.len() - k,
    {
        let line = slice_vec(&cls[k], 0, cls[k].len());
        assert(line@ =~= cls@[k as int]@);
        push_line(out, line);
        assert(lv(cls@).take(k + 1) =~= lv(cls@).take(k as int).push(line@));
        k += 1;
    }
    assert(lv(cls@).take(cls.len() as int) =~= lv(cls@));
}

/// The opening tag lines (see `open_tag_lines`).
fn build_open_tag(
    name: &[char],
    attrs: &Vec<Vec<char>>,
    self_closing: bool,
    expand: bool,
    indent: &[char],
    preserve: bool,
) -> (r: Vec<Vec<char>>)
    ensures
        lv(r@) == open_tag_lines(name@, lv(attrs@), self_closing, expand, indent@, preserve),
        r.len() >= 1,
{
    let close: Vec<char> = if self_closing { vec![' ', '/', '>'] } else { vec!['>'] };
    assert(close@ =~= if self_closing { seq![' ', '/', '>'] } else { seq!['>'] });
    let mut out: Vec<Vec<char>> = Vec::new();
    if attrs.len() == 0 {
        let empty: Vec<char> = Vec::new();
        let line = tag_line(name, &empty, &close);
        assert(line@ =~= seq!['<'] + name@ + close@);
        push_line(&mut out, line);
        assert(lv(out@) =~= open_tag_lines(name@, lv(attrs@), self_closing, expand, indent@, preserve));
        return out;
    }
    if !expand && attrs.len() == 1 {
        let sp: Vec<char> = vec![' '];
        assert(sp@ =~= seq![' ']);
        let mid = concat(&sp, &attrs[0]);
        assert(lv(attrs@)[0] == attrs@[0]@);
        assert(mid@ =~= seq![' '] + attrs@[0]@);
        let line = tag_line(name, &mid, &close);
        assert(line@ =~= seq!['<'] + name@ + seq![' '] + lv(attrs@)[0] + close@);
        push_line(&mut out, line);
        assert(lv(out@) =~= open_tag_lines(name@, lv(attrs@), self_closing, expand, indent@, preserve));
        return out;
    }
    let empty: Vec<char> = Vec::new();
    push_line(&mut out, tag_line(name, &empty, &empty));
    let ghost a = lv(attrs@);
    let mut k: usize = 0;
    while k < attrs.len()
        invariant
            k <= attrs.len(),
            a == lv(attrs@),
            lv(out@) == seq![seq!['<'] + name@] + attr_blocks(a.take(k as int), indent@, preserve),
        decreases attrs.len() - k,
    {
        assert(a.take(k + 1).drop_last() =~= a.take(k as int));
        push_attr_block(&mut out, &attrs[k], indent, preserve);
        k += 1;
    }
    assert(a.take(attrs.len() as int) =~= a);
    assert(out@.len() >= 1);
    if self_closing {
        let n = out.len();
        let last = concat(&out[n - 1], &close);
        let ghost prev = lv(out@);
        out.set(n - 1, last);
        assert(lv(out@) =~= prev.update(n - 1, prev.last() + seq![' ', '/', '>']));
    } else {
        let gt: Vec<char> = vec!['>'];
        assert(gt@ =~= seq!['>']);
        push_line(&mut out, gt);
    }
    out
}

/// Format a JSX element into the canonical layout (lines joined by `\n`).
pub fn format_jsx_element(
    name: &[char],
    attrs: &Vec<JsxAttr>,
    children_empty: bool,
    text: &[char],
    sl: usize,
    el: usize,
    settings: &FormatterSettings,
) -> (r: Vec<char>)
    ensures
        r@ == join_lines(jsx_lines(name@, attrs@, children_empty, text@, sl as nat, el as nat, *settings)),
{
    let indent = crate::text::spaces_vec(settings.format_multi_line_jsx.indent_size);
    let preserve = settings.format_multi_line_jsx.preserve_template_literal_indent;
    let text_s = string_of(text);
    let mut close = closing_prefix_exec(name);
    close.push('>');
    assert(close@ =~= closing_prefix(name@) + seq!['>']);
    let has_close = contains_vec(text, &close);
    let tt = crate::text::trim_vec(text);
    let slash_gt: Vec<char> = vec!['/', '>'];
    assert(slash_gt@ =~= seq!['/', '>']);
    let sc = !has_close && children_empty && crate::text::ends_with_vec(&tt, &slash_gt);
    let expand = (settings.expand_single_line_jsx.enabled && attrs.len()
        >= settings.expand_single_line_jsx.props_threshold) || sl != el;
    let mut strs: Vec<Vec<char>> = Vec::new();
    let mut k: usize = 0;
    while k < attrs.len()
        invariant
            k <= attrs.len(),
            text_s@ == text@,
            lv(strs@) == attr_strings(attrs@, text@, preserve).take(k as int),
        decreases attrs.len() - k,
    {
        let a = get_attribute_string(&attrs[k], text_s.as_str(), preserve);
        push_line(&mut strs, a);
        assert(attr_strings(attrs@, text@, preserve).take(k + 1) =~= attr_strings(attrs@, text@, preserve).take(k as int).push(a@));
        k += 1;
    }
    assert(attr_strings(attrs@, text@, preserve).take(attrs.len() as int) =~= attr_strings(attrs@, text@, preserve));
    let mut lines = build_open_tag(name, &strs, sc, expand, &indent, preserve);
    if !sc {
        let block = settings.add_empty_lines_in_block_jsx.enabled && names_contain_exec(
            &settings.add_empty_lines_in_block_jsx.block_components,
            name,
        );
        let container = settings.indent_jsx_content.enabled && names_contain_exec(
            &settings.indent_jsx_content.container_components,
            name,
        );
        let ct = extract_children_text(name, text);
        if ct.len() > 0 {
            let cls = split_lines_vec(&ct);
            if block && !is_blank_line(&cls[0]) {
                push_line(&mut lines, Vec::new());
            }
            if container {
                push_container_lines(&mut lines, &cls, &indent);
            } else {
                push_all_lines(&mut lines, &cls);
            }
            let n = lines.len();
            assert(n >= 1);
            if block && !is_blank_line(&lines[n - 1]) {
                push_line(&mut lines, Vec::new());
            }
        }
        push_line(&mut lines, close);
    }
    join_lines_vec(&lines)
}

} // verus!
