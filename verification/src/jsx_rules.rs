//! The JSX rules: canonical layout of components, indentation of container
//! components' content, and blank lines inside block components.
use vstd::prelude::*;
use crate::ast::{MdNode, NodeKind, Pos, JsxAttr, pos_fits, tree_fits, lemma_child_fits, kids_fit};
use crate::jsx::{
    jsx_elems, jsx_kids, is_jsx, jsx_container, node_text, needs_formatting, jsx_lines,
    names_contain, names_contain_exec, closing_prefix, visit_jsx_elements, derefs,
    extract_node_text, needs_jsx_formatting, format_jsx_element,
};
use crate::ops::{OpView, views, push_op, views_wf};
use crate::rules::is_html_name;
use crate::text::{
    lv, sv, split_lines, join_lines, chars_of, string_of, split_lines_vec, slice_vec, push_all,
    is_blank, is_blank_line, trim, trim_vec, starts_with, starts_with_vec, spaces, spaces_vec,
    contains, contains_vec, find_first, find_last, find_first_exec, find_last_exec, opt_usize,
    first_index, ends_with, ends_with_vec,
};
use crate::types::{FormatterOperation, FormatterSettings};

verus! {

// ---------------------------------------------------------------------------
// Elements and their positions
// ---------------------------------------------------------------------------

pub open spec fn elems_fit(es: Seq<MdNode>, nl: nat) -> bool {
    forall|k: int| 0 <= k < es.len() ==> (#[trigger] es[k]).position is Some && pos_fits(
        es[k].position.unwrap(),
        nl,
    )
}

pub proof fn lemma_jsx_elems_fit(n: MdNode, nl: nat)
    requires
        tree_fits(n, nl),
    ensures
        elems_fit(jsx_elems(n), nl),
    decreases n, 1nat,
{
    if jsx_container(n.kind) {
        lemma_jsx_kids_fit(n, nl, n.children@.len() as int);
    }
    let head = if is_jsx(n.kind) && n.position is Some { seq![n] } else { Seq::<MdNode>::empty() };
    let rest = if jsx_container(n.kind) { jsx_kids(n, n.children@.len() as int) } else { Seq::<MdNode>::empty() };
    assert(jsx_elems(n) == head + rest);
    assert forall|k: int| 0 <= k < jsx_elems(n).len() implies (#[trigger] jsx_elems(n)[k]).position is Some
        && pos_fits(jsx_elems(n)[k].position.unwrap(), nl) by {
        if k >= head.len() {
            assert(jsx_elems(n)[k] == rest[k - head.len()]);
        }
    }
}

pub proof fn lemma_jsx_kids_fit(n: MdNode, nl: nat, i: int)
    requires
        tree_fits(n, nl),
        0 <= i <= n.children@.len(),
    ensures
        elems_fit(jsx_kids(n, i), nl),
    decreases n, 0nat, i,
{
    if i > 0 {
        lemma_jsx_kids_fit(n, nl, i - 1);
        lemma_child_fits(n, nl, i - 1);
        lemma_jsx_elems_fit(n.children@[i - 1], nl);
        let a = jsx_kids(n, i - 1);
        let b = jsx_elems(n.children@[i - 1]);
        assert(jsx_kids(n, i) == a + b);
        assert forall|k: int| 0 <= k < jsx_kids(n, i).len() implies (#[trigger] jsx_kids(n, i)[k]).position is Some
            && pos_fits(jsx_kids(n, i)[k].position.unwrap(), nl) by {
            if k < a.len() {
                assert(jsx_kids(n, i)[k] == a[k]);
            } else {
                assert(jsx_kids(n, i)[k] == b[k - a.len()]);
            }
        }
    }
}

/// A JSX element the rules format: named, not an HTML element, not ignored.
pub open spec fn formattable(name: Option<String>, s: FormatterSettings) -> bool {
    match name {
        None => false,
        Some(n) => !is_html_name(n@) && !names_contain(s.format_multi_line_jsx.ignore_components@, n@),
    }
}

fn is_formattable_jsx(name: &Option<String>, s: &FormatterSettings) -> (r: bool)
    ensures
        r == formattable(*name, *s),
{
    match name {
        None => false,
        Some(n) => {
            let c = chars_of(n.as_str());
            let html = c.len() == 0 || ('a' <= c[0] && c[0] <= 'z');
            !html && !names_contain_exec(&s.format_multi_line_jsx.ignore_components, &c)
        },
    }
}

pub open spec fn name_of(name: Option<String>) -> Seq<char> {
    match name {
        Some(n) => n@,
        None => Seq::empty(),
    }
}

/// Operations of a sequence of elements, element by element.
pub open spec fn per_elem(es: Seq<MdNode>, f: spec_fn(MdNode) -> Seq<OpView>) -> Seq<OpView>
    decreases es.len(),
{
    if es.len() == 0 {
        Seq::empty()
    } else {
        per_elem(es.drop_last(), f) + f(es.last())
    }
}

// ---------------------------------------------------------------------------
// Canonical layout
// ---------------------------------------------------------------------------

/// Replace a formattable element that needs formatting by its canonical
/// layout, when that differs from its source text.
pub open spec fn jsx_format_op(e: MdNode, ls: Seq<Seq<char>>, s: FormatterSettings) -> Seq<OpView> {
    if !formattable(e.name, s) {
        Seq::empty()
    } else {
        let p = e.position.unwrap();
        let text = node_text(ls, p);
        let name = name_of(e.name);
        if needs_formatting(name, e.attributes@.len(), p.start_line as nat, p.end_line as nat, text, s) {
            let f = join_lines(
                jsx_lines(name, e.attributes@, e.children@.len() == 0, text, p.start_line as nat, p.end_line as nat, s),
            );
            if f != text {
                seq![OpView::Replace((p.start_line - 1) as nat, (p.end_line - 1) as nat, split_lines(f))]
            } else {
                Seq::empty()
            }
        } else {
            Seq::empty()
        }
    }
}

pub open spec fn jsx_format_ops(n: MdNode, ls: Seq<Seq<char>>, s: FormatterSettings) -> Seq<OpView> {
    per_elem(jsx_elems(n), |e: MdNode| jsx_format_op(e, ls, s))
}

fn format_one(e: &MdNode, ls: &Vec<Vec<char>>, s: &FormatterSettings, out: &mut Vec<FormatterOperation>)
    requires
        e.position is Some,
        pos_fits(e.position.unwrap(), ls.len() as nat),
    ensures
        views_wf(views(old(out)@)) ==> views_wf(views(final(out)@)),
        views(final(out)@) == views(old(out)@) + jsx_format_op(*e, lv(ls@), *s),
{
    let ghost o0 = views(out@);
    let ghost l = lv(ls@);
    if !is_formattable_jsx(&e.name, s) {
        assert(views(out@) =~= o0 + jsx_format_op(*e, l, *s));
        return;
    }
    let p = match &e.position {
        Some(p) => p,
        None => {
            return;
        },
    };
    let text = extract_node_text(ls, p);
    let name = match &e.name {
        Some(n) => chars_of(n.as_str()),
        None => Vec::new(),
    };
    if needs_jsx_formatting(&name, e.attributes.len(), p.start_line, p.end_line, &text, s) {
        let f = format_jsx_element(&name, &e.attributes, e.children.len() == 0, &text, p.start_line, p.end_line, s);
        if !crate::html_formatter::seq_eq(&f, &text) {
            let fls = split_lines_vec(&f);
            let strs = crate::ops::strings_of_lines(&fls);
            push_op(out, FormatterOperation::ReplaceLines {
                start_line: p.start_line - 1,
                end_line: p.end_line - 1,
                lines: strs,
            });
        }
    }
    assert(views(out@) =~= o0 + jsx_format_op(*e, l, *s));
}

/// Multi-line formatting and single-line expansion of JSX components.
pub fn collect_jsx_format_operations(
    n: &MdNode,
    ls: &Vec<Vec<char>>,
    s: &FormatterSettings,
    out: &mut Vec<FormatterOperation>,
)
    requires
        tree_fits(*n, ls.len() as nat),
    ensures
        views_wf(views(old(out)@)) ==> views_wf(views(final(out)@)),
        views(final(out)@) == views(old(out)@) + jsx_format_ops(*n, lv(ls@), *s),
{
    let ghost o0 = views(out@);
    let ghost l = lv(ls@);
    let ghost f = |e: MdNode| jsx_format_op(e, l, *s);
    let mut es: Vec<&MdNode> = Vec::new();
    visit_jsx_elements(n, &mut es);
    assert(derefs(es@) =~= jsx_elems(*n));
    proof {
        lemma_jsx_elems_fit(*n, ls.len() as nat);
    }
    let mut i: usize = 0;
    while i < es.len()
        invariant
            views_wf(views(old(out)@)) ==> views_wf(views(out@)),
            i <= es.len(),
            l == lv(ls@),
            f == (|e: MdNode| jsx_format_op(e, l, *s)),
            derefs(es@) == jsx_elems(*n),
            elems_fit(jsx_elems(*n), ls.len() as nat),
            views(out@) == o0 + per_elem(derefs(es@).take(i as int), f),
        decreases es.len() - i,
    {
        assert(derefs(es@)[i as int] == *es@[i as int]);
        format_one(es[i], ls, s, out);
        assert(derefs(es@).take(i + 1).drop_last() =~= derefs(es@).take(i as int));
        assert(views(out@) =~= o0 + per_elem(derefs(es@).take(i + 1), f));
        i += 1;
    }
    assert(derefs(es@).take(es.len() as int) =~= derefs(es@));
}


// ---------------------------------------------------------------------------
// Indentation of container components' content
// ---------------------------------------------------------------------------

/// Indent operations for the inner lines `i..e` of a container element:
/// each non-blank line that is not its closing tag and does not start with
/// the indent gets indented.
pub open spec fn inner_indent_ops(ls: Seq<Seq<char>>, i: int, e: int, name: Seq<char>, indent: Seq<char>) -> Seq<OpView>
    decreases e - i,
{
    if i >= e || i < 0 || i >= ls.len() {
        Seq::empty()
    } else {
        let t = trim(ls[i]);
        (if t.len() == 0 || starts_with(t, closing_prefix(name)) || starts_with(ls[i], indent) {
            Seq::empty()
        } else {
            seq![OpView::Indent(i as nat, indent)]
        }) + inner_indent_ops(ls, i + 1, e, name, indent)
    }
}

pub open spec fn jsx_indent_op(e: MdNode, ls: Seq<Seq<char>>, s: FormatterSettings) -> Seq<OpView> {
    let name = name_of(e.name);
    if !formattable(e.name, s) || !names_contain(s.indent_jsx_content.container_components@, name) {
        Seq::empty()
    } else {
        let p = e.position.unwrap();
        inner_indent_ops(
            ls,
            p.start_line as int,
            p.end_line - 1,
            name,
            spaces(s.indent_jsx_content.indent_size as nat),
        )
    }
}

pub open spec fn jsx_indent_ops(n: MdNode, ls: Seq<Seq<char>>, s: FormatterSettings) -> Seq<OpView> {
    per_elem(jsx_elems(n), |e: MdNode| jsx_indent_op(e, ls, s))
}

fn indent_one(e: &MdNode, ls: &Vec<Vec<char>>, s: &FormatterSettings, out: &mut Vec<FormatterOperation>)
    requires
        e.position is Some,
        pos_fits(e.position.unwrap(), ls.len() as nat),
    ensures
        views_wf(views(old(out)@)) ==> views_wf(views(final(out)@)),
        views(final(out)@) == views(old(out)@) + jsx_indent_op(*e, lv(ls@), *s),
{
    let ghost o0 = views(out@);
    let ghost l = lv(ls@);
    let name = match &e.name {
        Some(n) => chars_of(n.as_str()),
        None => Vec::new(),
    };
    if !is_formattable_jsx(&e.name, s) || !names_contain_exec(&s.indent_jsx_content.container_components, &name) {
        assert(views(out@) =~= o0 + jsx_indent_op(*e, l, *s));
        return;
    }
    let p = match &e.position {
        Some(p) => p,
        None => {
            return;
        },
    };
    let indent = spaces_vec(s.indent_jsx_content.indent_size);
    let tag = crate::jsx::closing_prefix_exec(&name);
    let end = p.end_line - 1;
    let mut i: usize = p.start_line;
    let ghost ind = spaces(s.indent_jsx_content.indent_size as nat);
    while i < end && i < ls.len()
        invariant
            views_wf(views(old(out)@)) ==> views_wf(views(out@)),
            p.start_line <= i,
            end < ls.len(),
            l == lv(ls@),
            indent@ == ind,
            tag@ == closing_prefix(name@),
            views(out@) + inner_indent_ops(l, i as int, end as int, name@, ind) == o0 + jsx_indent_op(*e, l, *s),
        decreases ls.len() - i,
    {
        let ghost before = views(out@);
        let line = &ls[i];
        let t = trim_vec(line);
        if !(t.len() == 0 || starts_with_vec(&t, &tag) || starts_with_vec(line, &indent)) {
            push_op(out, FormatterOperation::IndentLine { start_line: i, indent: string_of(&indent) });
        }
        assert(views(out@) + inner_indent_ops(l, i + 1, end as int, name@, ind) =~= before + inner_indent_ops(l, i as int, end as int, name@, ind));
        i += 1;
    }
    assert(views(out@) =~= o0 + jsx_indent_op(*e, l, *s));
}

/// Indent the content lines of container components.
pub fn collect_jsx_indent_operations(
    n: &MdNode,
    ls: &Vec<Vec<char>>,
    s: &FormatterSettings,
    out: &mut Vec<FormatterOperation>,
)
    requires
        tree_fits(*n, ls.len() as nat),
    ensures
        views_wf(views(old(out)@)) ==> views_wf(views(final(out)@)),
        views(final(out)@) == views(old(out)@) + jsx_indent_ops(*n, lv(ls@), *s),
{
    let ghost o0 = views(out@);
    let ghost l = lv(ls@);
    let ghost f = |e: MdNode| jsx_indent_op(e, l, *s);
    let mut es: Vec<&MdNode> = Vec::new();
    visit_jsx_elements(n, &mut es);
    assert(derefs(es@) =~= jsx_elems(*n));
    proof {
        lemma_jsx_elems_fit(*n, ls.len() as nat);
    }
    let mut i: usize = 0;
    while i < es.len()
        invariant
            views_wf(views(old(out)@)) ==> views_wf(views(out@)),
            i <= es.len(),
            l == lv(ls@),
            f == (|e: MdNode| jsx_indent_op(e, l, *s)),
            derefs(es@) == jsx_elems(*n),
            elems_fit(jsx_elems(*n), ls.len() as nat),
            views(out@) == o0 + per_elem(derefs(es@).take(i as int), f),
        decreases es.len() - i,
    {
        assert(derefs(es@)[i as int] == *es@[i as int]);
        indent_one(es[i], ls, s, out);
        assert(derefs(es@).take(i + 1).drop_last() =~= derefs(es@).take(i as int));
        assert(views(out@) =~= o0 + per_elem(derefs(es@).take(i + 1), f));
        i += 1;
    }
    assert(derefs(es@).take(es.len() as int) =~= derefs(es@));
}

// ---------------------------------------------------------------------------
// Blank lines inside block components
// ---------------------------------------------------------------------------

/// First line in `i..=e` that ends an opening tag (`>` but not `/>`, not a
/// closing tag).
pub open spec fn opening_tag_end(ls: Seq<Seq<char>>, i: int, e: int) -> Option<nat>
    decreases e + 1 - i,
{
    if i > e || i < 0 || i >= ls.len() {
        None
    } else {
        let t = trim(ls[i]);
        if ends_with(t, seq!['>']) && !ends_with(t, seq!['/', '>']) && !starts_with(t, seq!['<', '/']) {
            Some(i as nat)
        } else {
            opening_tag_end(ls, i + 1, e)
        }
    }
}

/// One-line block component `<X ...>content</X>` split into five lines.
pub open spec fn single_line_block(line: Seq<char>, s0: nat, name: Seq<char>) -> Seq<OpView> {
    let open_tag = seq!['<'] + name;
    let close_tag = closing_prefix(name) + seq!['>'];
    if contains(line, open_tag) && contains(line, close_tag) {
        let ote = first_index(line, '>');
        let cts = find_last(line, close_tag).unwrap();
        if ote + 1 < cts {
            seq![OpView::Replace(s0, s0, seq![
                trim(line.take(ote + 1int)),
                Seq::empty(),
                trim(line.subrange(ote + 1int, cts as int)),
                Seq::empty(),
                trim(line.skip(cts as int)),
            ])]
        } else {
            Seq::empty()
        }
    } else {
        Seq::empty()
    }
}

/// Blank lines after the opening tag and before the closing tag of a
/// multi-line block component, where missing.
pub open spec fn multi_line_block(ls: Seq<Seq<char>>, s0: int, e0: int, name: Seq<char>) -> Seq<OpView> {
    let ote = match opening_tag_end(ls, s0, e0) {
        Some(k) => k as int,
        None => s0,
    };
    let first = if ote + 1 < ls.len() && !is_blank(ls[ote + 1]) {
        seq![OpView::Insert((ote + 1) as nat, Seq::empty())]
    } else {
        Seq::empty()
    };
    let second = if e0 > s0 + 1 && !is_blank(ls[e0 - 1]) && !starts_with(trim(ls[e0 - 1]), closing_prefix(name)) {
        seq![OpView::Insert(e0 as nat, Seq::empty())]
    } else {
        Seq::empty()
    };
    first + second
}

pub open spec fn block_jsx_op(e: MdNode, ls: Seq<Seq<char>>, s: FormatterSettings) -> Seq<OpView> {
    let name = name_of(e.name);
    if !formattable(e.name, s) || !names_contain(s.add_empty_lines_in_block_jsx.block_components@, name) {
        Seq::empty()
    } else {
        let p = e.position.unwrap();
        let s0 = p.start_line - 1;
        let e0 = p.end_line - 1;
        if s0 == e0 {
            single_line_block(ls[s0], s0 as nat, name)
        } else {
            multi_line_block(ls, s0, e0, name)
        }
    }
}

pub open spec fn block_jsx_ops(n: MdNode, ls: Seq<Seq<char>>, s: FormatterSettings) -> Seq<OpView> {
    per_elem(jsx_elems(n), |e: MdNode| block_jsx_op(e, ls, s))
}

fn five_lines(line: &[char], ote: usize, cts: usize) -> (r: Vec<String>)
    requires
        ote + 1 < cts <= line.len(),
    ensures
        sv(r@) == seq![
            trim(line@.take(ote + 1int)),
            Seq::<char>::empty(),
            trim(line@.subrange(ote + 1int, cts as int)),
            Seq::<char>::empty(),
            trim(line@.skip(cts as int)),
        ],
{
    let x = slice_vec(line, 0, ote + 1);
    assert(x@ =~= line@.take(ote + 1int));
    let a = trim_vec(&x);
    let y = slice_vec(line, ote + 1, cts);
    let b = trim_vec(&y);
    let z = slice_vec(line, cts, line.len());
    assert(z@ =~= line@.skip(cts as int));
    let c = trim_vec(&z);
    let mut v: Vec<String> = Vec::new();
    v.push(string_of(&a));
    v.push(String::new());
    v.push(string_of(&b));
    v.push(String::new());
    v.push(string_of(&c));
    assert(sv(v@) =~= seq![a@, Seq::<char>::empty(), b@, Seq::<char>::empty(), c@]);
    v
}

fn first_gt(line: &[char]) -> (r: usize)
    ensures
        r == first_index(line@, '>'),
        r <= line.len(),
{
    let mut ote: usize = 0;
    while ote < line.len() && line[ote] != '>'
        invariant
            ote <= line.len(),
            forall|j: int| 0 <= j < ote ==> line@[j] != '>',
        decreases line.len() - ote,
    {
        ote += 1;
    }
    proof {
        crate::text::lemma_first_index_char(line@, '>', ote as int);
    }
    ote
}

fn single_line_block_exec(line: &[char], s0: usize, name: &[char], out: &mut Vec<FormatterOperation>)
    ensures
        views_wf(views(old(out)@)) ==> views_wf(views(final(out)@)),
        views(final(out)@) == views(old(out)@) + single_line_block(line@, s0 as nat, name@),
{
    let ghost o0 = views(out@);
    let mut open_tag: Vec<char> = vec!['<'];
    push_all(&mut open_tag, name);
    assert(open_tag@ =~= seq!['<'] + name@);
    let mut close_tag = crate::jsx::closing_prefix_exec(name);
    close_tag.push('>');
    assert(close_tag@ =~= closing_prefix(name@) + seq!['>']);
    if !(contains_vec(line, &open_tag) && contains_vec(line, &close_tag)) {
        assert(views(out@) =~= o0 + single_line_block(line@, s0 as nat, name@));
        return;
    }
    let ote = first_gt(line);
    let cts = match find_last_exec(line, &close_tag) {
        Some(c) => c,
        None => {
            proof {
                let w = choose|i: int| crate::text::occurs_at(line@, close_tag@, i);
                crate::text::lemma_last_occurrence(line@, close_tag@, w);
            }
            return;
        },
    };
    assert(cts <= line.len()) by {
        assert(crate::text::occurs_at(line@, close_tag@, cts as int));
    }
    if ote < cts && ote + 1 < cts {
        let strs = five_lines(line, ote, cts);
        push_op(out, FormatterOperation::ReplaceLines { start_line: s0, end_line: s0, lines: strs });
    }
    assert(views(out@) =~= o0 + single_line_block(line@, s0 as nat, name@));
}

fn find_opening_tag_end(ls: &Vec<Vec<char>>, s0: usize, e0: usize) -> (r: usize)
    requires
        e0 < ls.len(),
    ensures
        r as int == match opening_tag_end(lv(ls@), s0 as int, e0 as int) {
            Some(k) => k as int,
            None => s0 as int,
        },
{
    let ghost l = lv(ls@);
    let gt: Vec<char> = vec!['>'];
    assert(gt@ =~= seq!['>']);
    let sgt: Vec<char> = vec!['/', '>'];
    assert(sgt@ =~= seq!['/', '>']);
    let lts: Vec<char> = vec!['<', '/'];
    assert(lts@ =~= seq!['<', '/']);
    let mut i = s0;
    while i <= e0 && i < ls.len()
        invariant
            s0 <= i,
            e0 < ls.len(),
            l == lv(ls@),
            gt@ == seq!['>'],
            sgt@ == seq!['/', '>'],
            lts@ == seq!['<', '/'],
            opening_tag_end(l, s0 as int, e0 as int) == opening_tag_end(l, i as int, e0 as int),
        decreases ls.len() - i,
    {
        let t = trim_vec(&ls[i]);
        if ends_with_vec(&t, &gt) && !ends_with_vec(&t, &sgt) && !starts_with_vec(&t, &lts) {
            return i;
        }
        i += 1;
    }
    s0
}

fn multi_line_block_exec(ls: &Vec<Vec<char>>, s0: usize, e0: usize, name: &[char], out: &mut Vec<FormatterOperation>)
    requires
        s0 < e0 < ls.len(),
    ensures
        views_wf(views(old(out)@)) ==> views_wf(views(final(out)@)),
        views(final(out)@) == views(old(out)@) + multi_line_block(lv(ls@), s0 as int, e0 as int, name@),
{
    let ghost o0 = views(out@);
    let ghost l = lv(ls@);
    let ote = find_opening_tag_end(ls, s0, e0);
    if ote < ls.len() - 1 && !is_blank_line(&ls[ote + 1]) {
        push_op(out, FormatterOperation::InsertLine { start_line: ote + 1, content: String::new() });
    }
    let ghost o1 = views(out@);
    let tag = crate::jsx::closing_prefix_exec(name);
    if e0 > s0 + 1 {
        let before = &ls[e0 - 1];
        let bt = trim_vec(before);
        if !is_blank_line(before) && !starts_with_vec(&bt, &tag) {
            push_op(out, FormatterOperation::InsertLine { start_line: e0, content: String::new() });
        }
    }
    assert(views(out@) =~= o0 + multi_line_block(l, s0 as int, e0 as int, name@));
}

fn block_one(e: &MdNode, ls: &Vec<Vec<char>>, s: &FormatterSettings, out: &mut Vec<FormatterOperation>)
    requires
        e.position is Some,
        pos_fits(e.position.unwrap(), ls.len() as nat),
    ensures
        views_wf(views(old(out)@)) ==> views_wf(views(final(out)@)),
        views(final(out)@) == views(old(out)@) + block_jsx_op(*e, lv(ls@), *s),
{
    let ghost o0 = views(out@);
    let ghost l = lv(ls@);
    let name = match &e.name {
        Some(n) => chars_of(n.as_str()),
        None => Vec::new(),
    };
    if !is_formattable_jsx(&e.name, s) || !names_contain_exec(&s.add_empty_lines_in_block_jsx.block_components, &name) {
        assert(views(out@) =~= o0 + block_jsx_op(*e, l, *s));
        return;
    }
    let p = match &e.position {
        Some(p) => p,
        None => {
            return;
        },
    };
    let s0 = p.start_line - 1;
    let e0 = p.end_line - 1;
    if s0 == e0 {
        single_line_block_exec(&ls[s0], s0, &name, out);
    } else {
        multi_line_block_exec(ls, s0, e0, &name, out);
    }
}

/// Blank lines after the opening and before the closing tag of block components.
pub fn collect_block_jsx_empty_line_operations(
    n: &MdNode,
    ls: &Vec<Vec<char>>,
    s: &FormatterSettings,
    out: &mut Vec<FormatterOperation>,
)
    requires
        tree_fits(*n, ls.len() as nat),
    ensures
        views_wf(views(old(out)@)) ==> views_wf(views(final(out)@)),
        views(final(out)@) == views(old(out)@) + block_jsx_ops(*n, lv(ls@), *s),
{
    let ghost o0 = views(out@);
    let ghost l = lv(ls@);
    let ghost f = |e: MdNode| block_jsx_op(e, l, *s);
    let mut es: Vec<&MdNode> = Vec::new();
    visit_jsx_elements(n, &mut es);
    assert(derefs(es@) =~= jsx_elems(*n));
    proof {
        lemma_jsx_elems_fit(*n, ls.len() as nat);
    }
    let mut i: usize = 0;
    while i < es.len()
        invariant
            views_wf(views(old(out)@)) ==> views_wf(views(out@)),
            i <= es.len(),
            l == lv(ls@),
            f == (|e: MdNode| block_jsx_op(e, l, *s)),
            derefs(es@) == jsx_elems(*n),
            elems_fit(jsx_elems(*n), ls.len() as nat),
            views(out@) == o0 + per_elem(derefs(es@).take(i as int), f),
        decreases es.len() - i,
    {
        assert(derefs(es@)[i as int] == *es@[i as int]);
        block_one(es[i], ls, s, out);
        assert(derefs(es@).take(i + 1).drop_last() =~= derefs(es@).take(i as int));
        assert(views(out@) =~= o0 + per_elem(derefs(es@).take(i + 1), f));
        i += 1;
    }
    assert(derefs(es@).take(es.len() as int) =~= derefs(es@));
}

} // verus!
