//! The list-normalize rules: recovering code fences, tables and paragraphs
//! that escaped from a list, and tightening blank lines inside lists.
use vstd::prelude::*;
use crate::ast::{MdNode, NodeKind, Pos, has_kids, has_children_kind, line0, line0_exec};
use crate::ops::{OpView, views, push_op, views_wf};
use crate::report::{ReportEntry, EntryView, entry_views, push_entry, snippet, snippet_from_lines};
use crate::rules::{sat_add, item_marker_width, item_marker_width_exec};
use crate::lines::{fence_of, is_code_fence_line, marker_width};
use crate::text::{
    lv, sv, spaces, spaces_vec, string_of, chars_of, is_blank, is_blank_line, lead_spaces,
    lead_space_len, slice_vec, push_all, utf8_len, trim_start, trim_start_vec,
};
use crate::text::{char_at_byte, is_ws};
use crate::types::{FormatterOperation, RecoverEscapedCodeMode, RecoverEscapedParagraphsMode, TightenListContinuationsMode, TightenListItemSpacingMode, ListItemShape};
use crate::lists::{ListItemDetection, DetView, det_view, det_views};
use crate::text::opt_usize;

verus! {

// ---------------------------------------------------------------------------
// Escaped code fences
// ---------------------------------------------------------------------------

/// A fenced code block between two lists, dedented below the continuation
/// column of the preceding list's last item.
#[derive(Debug, Clone, Copy, PartialEq, Eq, Structural)]
pub struct EscapedCodePattern {
    /// 0-indexed line of the opening fence.
    pub fence_start_line: usize,
    /// 0-indexed line of the closing fence (inclusive).
    pub fence_end_line: usize,
    /// Column of the opening fence's first backtick or tilde.
    pub fence_col: usize,
    /// Indent the fence needs to become a child of the preceding item.
    pub continuation_indent: usize,
    /// Both neighbouring lists are ordered.
    pub is_safe_evidence: bool,
}

/// The children a walk visits.
pub open spec fn kids_of(n: MdNode) -> Seq<MdNode> {
    if has_kids(n.kind) { n.children@ } else { Seq::empty() }
}

/// The pattern whose code block is child `i` of `cs`, if any.
pub open spec fn code_pattern_at(cs: Seq<MdNode>, i: int, ls: Seq<Seq<char>>) -> Option<EscapedCodePattern> {
    let code = cs[i];
    let prev = cs[i - 1];
    if code.kind != NodeKind::Code || prev.kind != NodeKind::List || code.position is None {
        None
    } else {
        let fs = line0(code.position.unwrap().start_line);
        let fe = line0(code.position.unwrap().end_line);
        if fs >= ls.len() {
            None
        } else {
            let src = ls[fs as int];
            let fcol = lead_spaces(src);
            if fence_of(src.skip(fcol as int)) is None || prev.children@.len() == 0 {
                None
            } else {
                let last = prev.children@.last();
                if last.kind != NodeKind::ListItem || last.position is None {
                    None
                } else {
                    let ip = last.position.unwrap();
                    let cont = sat_add(line0(ip.start_column) as usize, item_marker_width(ip, ls) as usize);
                    if fcol >= cont || i + 1 >= cs.len() || cs[i + 1].kind != NodeKind::List {
                        None
                    } else {
                        Some(EscapedCodePattern {
                            fence_start_line: fs as usize,
                            fence_end_line: fe as usize,
                            fence_col: fcol as usize,
                            continuation_indent: cont,
                            is_safe_evidence: prev.ordered && cs[i + 1].ordered,
                        })
                    }
                }
            }
        }
    }
}

/// Patterns among children `1..i` of `cs`.
pub open spec fn patterns_here(cs: Seq<MdNode>, ls: Seq<Seq<char>>, i: int) -> Seq<EscapedCodePattern>
    decreases i,
{
    if i <= 1 || i > cs.len() {
        Seq::empty()
    } else {
        patterns_here(cs, ls, i - 1) + match code_pattern_at(cs, i - 1, ls) {
            Some(p) => seq![p],
            None => Seq::empty(),
        }
    }
}

/// Escaped-code patterns of a tree: those among a node's children, then
/// those of each child (a list contributing its items).
pub open spec fn code_patterns(n: MdNode, ls: Seq<Seq<char>>) -> Seq<EscapedCodePattern>
    decreases n, 2nat, 0int,
{
    patterns_here(kids_of(n), ls, kids_of(n).len() as int) + if has_kids(n.kind) {
        code_rec(n, ls, n.children@.len() as int)
    } else {
        Seq::empty()
    }
}

pub open spec fn code_rec(n: MdNode, ls: Seq<Seq<char>>, i: int) -> Seq<EscapedCodePattern>
    decreases n, 1nat, i,
{
    if i <= 0 || i > n.children@.len() {
        Seq::empty()
    } else {
        let c = n.children@[i - 1];
        code_rec(n, ls, i - 1) + if c.kind == NodeKind::List {
            code_items(c, ls, c.children@.len() as int)
        } else {
            code_patterns(c, ls)
        }
    }
}

pub open spec fn code_items(l: MdNode, ls: Seq<Seq<char>>, j: int) -> Seq<EscapedCodePattern>
    decreases l, 1nat, j,
{
    if j <= 0 || j > l.children@.len() {
        Seq::empty()
    } else {
        let c = l.children@[j - 1];
        code_items(l, ls, j - 1) + if c.kind == NodeKind::ListItem {
            code_patterns(c, ls)
        } else {
            Seq::empty()
        }
    }
}

fn code_pattern_at_exec(cs: &Vec<MdNode>, i: usize, ls: &Vec<Vec<char>>) -> (r: Option<EscapedCodePattern>)
    requires
        1 <= i < cs.len(),
    ensures
        r == code_pattern_at(cs@, i as int, lv(ls@)),
{
    let code = &cs[i];
    let prev = &cs[i - 1];
    if code.kind != NodeKind::Code || prev.kind != NodeKind::List {
        return None;
    }
    let cp = match &code.position {
        Some(p) => p,
        None => {
            return None;
        },
    };
    let fs = line0_exec(cp.start_line);
    let fe = line0_exec(cp.end_line);
    if fs >= ls.len() {
        return None;
    }
    let src = &ls[fs];
    let fcol = lead_space_len(src);
    let rest = slice_vec(src, fcol, src.len());
    assert(rest@ =~= lv(ls@)[fs as int].skip(fcol as int));
    if !is_code_fence_line(&rest) || prev.children.len() == 0 {
        return None;
    }
    let last = &prev.children[prev.children.len() - 1];
    if last.kind != NodeKind::ListItem {
        return None;
    }
    let ip = match &last.position {
        Some(p) => p,
        None => {
            return None;
        },
    };
    let cont = line0_exec(ip.start_column).saturating_add(item_marker_width_exec(ip, ls));
    if fcol >= cont || i + 1 >= cs.len() || cs[i + 1].kind != NodeKind::List {
        return None;
    }
    Some(EscapedCodePattern {
        fence_start_line: fs,
        fence_end_line: fe,
        fence_col: fcol,
        continuation_indent: cont,
        is_safe_evidence: prev.ordered && cs[i + 1].ordered,
    })
}

fn patterns_here_exec(n: &MdNode, ls: &Vec<Vec<char>>, out: &mut Vec<EscapedCodePattern>)
    ensures
        final(out)@ == old(out)@ + patterns_here(kids_of(*n), lv(ls@), kids_of(*n).len() as int),
{
    let ghost o0 = out@;
    if !has_children_kind(&n.kind) {
        assert(out@ =~= o0 + patterns_here(kids_of(*n), lv(ls@), kids_of(*n).len() as int));
        return;
    }
    let cs = &n.children;
    let mut i: usize = 1;
    while i < cs.len()
        invariant
            1 <= i,
            i <= cs.len() || cs.len() == 0,
            has_kids(n.kind),
            out@ == o0 + patterns_here(cs@, lv(ls@), i as int),
        decreases cs.len() - i,
    {
        match code_pattern_at_exec(cs, i, ls) {
            Some(p) => out.push(p),
            None => {},
        }
        assert(out@ =~= o0 + patterns_here(cs@, lv(ls@), i + 1));
        i += 1;
    }
    assert(out@ =~= o0 + patterns_here(kids_of(*n), lv(ls@), kids_of(*n).len() as int));
}

fn walk_code_items(l: &MdNode, ls: &Vec<Vec<char>>, out: &mut Vec<EscapedCodePattern>)
    ensures
        final(out)@ == old(out)@ + code_items(*l, lv(ls@), l.children@.len() as int),
    decreases l, 1nat, l.children@.len(),
{
    let ghost o0 = out@;
    let mut j: usize = 0;
    while j < l.children.len()
        invariant
            j <= l.children.len(),
            out@ == o0 + code_items(*l, lv(ls@), j as int),
        decreases l.children.len() - j,
    {
        let c = &l.children[j];
        if c.kind == NodeKind::ListItem {
            walk_escaped_code_patterns(c, ls, out);
        }
        assert(out@ =~= o0 + code_items(*l, lv(ls@), j + 1));
        j += 1;
    }
}

/// Locate fenced code blocks sandwiched between list siblings, at every level.
pub fn walk_escaped_code_patterns(n: &MdNode, ls: &Vec<Vec<char>>, out: &mut Vec<EscapedCodePattern>)
    ensures
        final(out)@ == old(out)@ + code_patterns(*n, lv(ls@)),
    decreases n, 2nat, 0int,
{
    let ghost o0 = out@;
    patterns_here_exec(n, ls, out);
    let ghost o1 = out@;
    if has_children_kind(&n.kind) {
        let mut i: usize = 0;
        while i < n.children.len()
            invariant
                i <= n.children.len(),
                out@ == o1 + code_rec(*n, lv(ls@), i as int),
            decreases n.children.len() - i,
        {
            let c = &n.children[i];
            if c.kind == NodeKind::List {
                walk_code_items(c, ls, out);
            } else {
                walk_escaped_code_patterns(c, ls, out);
            }
            assert(out@ =~= o1 + code_rec(*n, lv(ls@), i + 1));
            i += 1;
        }
    }
    assert(out@ =~= o0 + code_patterns(*n, lv(ls@)));
}

/// The fence lines `a..=b`, each non-empty one prefixed by `prefix`.
pub open spec fn shifted_lines(ls: Seq<Seq<char>>, a: int, b: int, prefix: Seq<char>) -> Seq<Seq<char>>
    decreases b + 1 - a,
{
    if a > b || a < 0 {
        Seq::empty()
    } else {
        (if a < ls.len() {
            if ls[a].len() == 0 { seq![Seq::<char>::empty()] } else { seq![prefix + ls[a]] }
        } else {
            Seq::empty()
        }) + shifted_lines(ls, a + 1, b, prefix)
    }
}

pub open spec fn code_allowed(mode: RecoverEscapedCodeMode, p: EscapedCodePattern) -> bool {
    match mode {
        RecoverEscapedCodeMode::Off => false,
        RecoverEscapedCodeMode::Safe => p.is_safe_evidence,
        RecoverEscapedCodeMode::Aggressive => true,
    }
}

/// Operation and report entry for one pattern.
pub open spec fn code_recovery(p: EscapedCodePattern, ls: Seq<Seq<char>>, mode: RecoverEscapedCodeMode) -> (Seq<OpView>, Seq<EntryView>) {
    if !code_allowed(mode, p) || p.continuation_indent <= p.fence_col || p.fence_start_line > p.fence_end_line {
        (Seq::empty(), Seq::empty())
    } else {
        let new_lines = shifted_lines(
            ls,
            p.fence_start_line as int,
            p.fence_end_line as int,
            spaces((p.continuation_indent - p.fence_col) as nat),
        );
        (
            seq![OpView::Replace(p.fence_start_line as nat, p.fence_end_line as nat, new_lines)],
            seq![EntryView {
                rule: recover_code_rule(),
                start_line: p.fence_start_line as nat,
                end_line: p.fence_end_line as nat,
                before: snippet(ls, p.fence_start_line as nat, p.fence_end_line as nat),
                after: new_lines,
            }],
        )
    }
}

pub open spec fn recover_code_rule() -> Seq<char> {
    "recover-escaped-code-in-lists"@
}

pub open spec fn code_recoveries(ps: Seq<EscapedCodePattern>, ls: Seq<Seq<char>>, mode: RecoverEscapedCodeMode) -> (Seq<OpView>, Seq<EntryView>)
    decreases ps.len(),
{
    if ps.len() == 0 {
        (Seq::empty(), Seq::empty())
    } else {
        let (o, e) = code_recoveries(ps.drop_last(), ls, mode);
        let (o2, e2) = code_recovery(ps.last(), ls, mode);
        (o + o2, e + e2)
    }
}

/// The operations and entries of the code recovery rule.
pub open spec fn recover_code(n: MdNode, ls: Seq<Seq<char>>, mode: RecoverEscapedCodeMode) -> (Seq<OpView>, Seq<EntryView>) {
    if mode == RecoverEscapedCodeMode::Off {
        (Seq::empty(), Seq::empty())
    } else {
        code_recoveries(code_patterns(n, ls), ls, mode)
    }
}

fn shifted_lines_exec(ls: &Vec<Vec<char>>, a: usize, b: usize, prefix: &[char]) -> (r: Vec<String>)
    requires
        a <= b,
    ensures
        sv(r@) == shifted_lines(lv(ls@), a as int, b as int, prefix@),
{
    let ghost l = lv(ls@);
    let mut out: Vec<String> = Vec::new();
    // Build front to back.
    let mut i = a;
    while i <= b
        invariant
            a <= i <= b + 1,
            l == lv(ls@),
            sv(out@) + shifted_lines(l, i as int, b as int, prefix@) == shifted_lines(l, a as int, b as int, prefix@),
        decreases b + 1 - i,
    {
        let ghost before = out@;
        if i < ls.len() {
            if ls[i].len() == 0 {
                out.push(String::new());
            } else {
                let mut v = slice_vec(prefix, 0, prefix.len());
                push_all(&mut v, &ls[i]);
                assert(v@ =~= prefix@ + l[i as int]);
                out.push(string_of(&v));
            }
        }
        assert(sv(out@) + shifted_lines(l, i + 1, b as int, prefix@) =~= sv(before) + shifted_lines(l, i as int, b as int, prefix@));
        if i == b {
            assert(shifted_lines(l, b + 1, b as int, prefix@) =~= Seq::<Seq<char>>::empty());
            assert(sv(out@) =~= shifted_lines(l, a as int, b as int, prefix@));
            return out;
        }
        i += 1;
    }
    out
}

fn recover_one(
    p: EscapedCodePattern,
    ls: &Vec<Vec<char>>,
    mode: RecoverEscapedCodeMode,
    ops: &mut Vec<FormatterOperation>,
    entries: &mut Vec<ReportEntry>,
)
    ensures
        views_wf(views(old(ops)@)) ==> views_wf(views(final(ops)@)),
        views(final(ops)@) == views(old(ops)@) + code_recovery(p, lv(ls@), mode).0,
        entry_views(final(entries)@) == entry_views(old(entries)@) + code_recovery(p, lv(ls@), mode).1,
{
    let ghost o0 = views(ops@);
    let ghost e0 = entry_views(entries@);
    let allow = match mode {
        RecoverEscapedCodeMode::Off => false,
        RecoverEscapedCodeMode::Safe => p.is_safe_evidence,
        RecoverEscapedCodeMode::Aggressive => true,
    };
    if allow && p.continuation_indent > p.fence_col && p.fence_start_line <= p.fence_end_line {
        let prefix = spaces_vec(p.continuation_indent - p.fence_col);
        let new_lines = shifted_lines_exec(ls, p.fence_start_line, p.fence_end_line, &prefix);
        let after = crate::ops::clone_strings(&new_lines);
        let before = snippet_from_lines(ls, p.fence_start_line, p.fence_end_line);
        let entry = ReportEntry {
            rule: "recover-escaped-code-in-lists",
            start_line: p.fence_start_line,
            end_line: p.fence_end_line,
            before,
            after,
        };
        proof {
            reveal_strlit("recover-escaped-code-in-lists");
        }
        push_entry(entries, entry);
        push_op(ops, FormatterOperation::ReplaceLines {
            start_line: p.fence_start_line,
            end_line: p.fence_end_line,
            lines: new_lines,
        });
    }
    assert(views(ops@) =~= o0 + code_recovery(p, lv(ls@), mode).0);
    assert(entry_views(entries@) =~= e0 + code_recovery(p, lv(ls@), mode).1);
}

/// Re-indent fenced code blocks that escaped from a list (per `mode`).
pub fn apply_recover_escaped_code_in_lists(
    mode: RecoverEscapedCodeMode,
    n: &MdNode,
    ls: &Vec<Vec<char>>,
    ops: &mut Vec<FormatterOperation>,
    entries: &mut Vec<ReportEntry>,
)
    ensures
        views_wf(views(old(ops)@)) ==> views_wf(views(final(ops)@)),
        views(final(ops)@) == views(old(ops)@) + recover_code(*n, lv(ls@), mode).0,
        entry_views(final(entries)@) == entry_views(old(entries)@) + recover_code(*n, lv(ls@), mode).1,
{
    let ghost o0 = views(ops@);
    let ghost e0 = entry_views(entries@);
    let ghost l = lv(ls@);
    if mode == RecoverEscapedCodeMode::Off {
        assert(views(ops@) =~= o0 + recover_code(*n, l, mode).0);
        assert(entry_views(entries@) =~= e0 + recover_code(*n, l, mode).1);
        return;
    }
    let mut ps: Vec<EscapedCodePattern> = Vec::new();
    walk_escaped_code_patterns(n, ls, &mut ps);
    assert(ps@ =~= code_patterns(*n, l));
    let mut i: usize = 0;
    while i < ps.len()
        invariant
            views_wf(views(old(ops)@)) ==> views_wf(views(ops@)),
            i <= ps.len(),
            l == lv(ls@),
            mode != RecoverEscapedCodeMode::Off,
            ps@ == code_patterns(*n, l),
            views(ops@) == o0 + code_recoveries(ps@.take(i as int), l, mode).0,
            entry_views(entries@) == e0 + code_recoveries(ps@.take(i as int), l, mode).1,
        decreases ps.len() - i,
    {
        let p = ps[i];
        assert(ps@.take(i + 1).drop_last() =~= ps@.take(i as int));
        recover_one(p, ls, mode, ops, entries);
        assert(views(ops@) =~= o0 + code_recoveries(ps@.take(i + 1), l, mode).0);
        assert(entry_views(entries@) =~= e0 + code_recoveries(ps@.take(i + 1), l, mode).1);
        i += 1;
    }
    assert(ps@.take(ps.len() as int) =~= ps@);
}


// ---------------------------------------------------------------------------
// Escaped tables
// ---------------------------------------------------------------------------

/// Absolute continuation column of a list item (`ancestor` without a position).
pub open spec fn cont_indent(item: MdNode, ls: Seq<Seq<char>>, ancestor: usize) -> usize {
    match item.position {
        None => ancestor,
        Some(p) => sat_add(line0(p.start_column) as usize, item_marker_width(p, ls) as usize),
    }
}

pub fn list_item_continuation_indent(item: &MdNode, ls: &Vec<Vec<char>>, ancestor: usize) -> (r: usize)
    ensures
        r == cont_indent(*item, lv(ls@), ancestor),
{
    match &item.position {
        None => ancestor,
        Some(p) => line0_exec(p.start_column).saturating_add(item_marker_width_exec(p, ls)),
    }
}

/// The bullet (`-`, `*`, `+`) at the first item's marker column, if any.
pub open spec fn bullet_char(list: MdNode, ls: Seq<Seq<char>>) -> Option<char> {
    if list.children@.len() == 0 || list.children@[0].position is None {
        None
    } else {
        let p = list.children@[0].position.unwrap();
        let li = line0(p.start_line);
        let col = line0(p.start_column);
        if li >= ls.len() {
            None
        } else {
            let line = ls[li as int];
            let k = char_at_byte(line, col as int);
            if utf8_len(line.take(k as int)) != col || k >= line.len() {
                None
            } else {
                let c = line[k as int];
                if c == '-' || c == '*' || c == '+' { Some(c) } else { None }
            }
        }
    }
}

/// Start column of a list's first child (0 without one).
pub open spec fn first_col(list: MdNode) -> usize {
    if list.children@.len() > 0 && list.children@[0].position is Some {
        list.children@[0].position.unwrap().start_column
    } else {
        0
    }
}

/// Do the two lists around a block suggest the block belongs to the first?
/// Same first column, and numbering that continues across the gap (or, when
/// aggressive, the same bullet character).
pub open spec fn has_evidence(a: MdNode, c: MdNode, ls: Seq<Seq<char>>, aggressive: bool) -> bool {
    let ca = first_col(a);
    if ca == 0 || ca != first_col(c) {
        false
    } else if a.ordered && c.ordered {
        match (a.start, c.start) {
            (Some(sa), Some(sc)) => sc == sa + a.children@.len(),
            _ => false,
        }
    } else if !a.ordered && !c.ordered {
        aggressive && bullet_char(a, ls) == bullet_char(c, ls) && bullet_char(a, ls) is Some
    } else {
        false
    }
}

pub open spec fn prefixed(ls: Seq<Seq<char>>, a: int, b: int, pre: Seq<char>) -> Seq<Seq<char>> {
    Seq::new((b + 1 - a) as nat, |k: int| pre + ls[a + k])
}

/// The recovery (start, end, new lines) for a `[List, Table, List]` triple.
pub open spec fn table_recovery(a: MdNode, t: MdNode, c: MdNode, ls: Seq<Seq<char>>, anc: usize, aggressive: bool) -> Option<(nat, nat, Seq<Seq<char>>)> {
    match t.position {
        None => None,
        Some(tp) => {
            let ts = line0(tp.start_line);
            let te = line0(tp.end_line);
            let tcol = line0(tp.start_column);
            if tcol != anc || te >= ls.len() || ts > te || a.children@.len() == 0 {
                None
            } else {
                let r = a.children@.last();
                let target = cont_indent(r, ls, anc);
                if r.kind != NodeKind::ListItem || target <= tcol || !has_evidence(a, c, ls, aggressive) {
                    None
                } else if exists|k: int| ts <= k <= te && (is_blank(#[trigger] ls[k]) || lead_spaces(ls[k]) != tcol) {
                    None
                } else {
                    Some((ts, te, prefixed(ls, ts as int, te as int, spaces((target - tcol) as nat))))
                }
            }
        },
    }
}

/// Recoveries for the `[List, Table, List]` triples starting at children `0..i`.
pub open spec fn triples(cs: Seq<MdNode>, ls: Seq<Seq<char>>, anc: usize, aggressive: bool, i: int) -> Seq<(nat, nat, Seq<Seq<char>>)>
    decreases i,
{
    if i <= 0 || i + 1 >= cs.len() {
        Seq::empty()
    } else {
        let k = i - 1;
        triples(cs, ls, anc, aggressive, i - 1) + if cs[k].kind == NodeKind::List && cs[k + 1].kind
            == NodeKind::Table && cs[k + 2].kind == NodeKind::List {
            match table_recovery(cs[k], cs[k + 1], cs[k + 2], ls, anc, aggressive) {
                Some(r) => seq![r],
                None => Seq::empty(),
            }
        } else {
            Seq::empty()
        }
    }
}

/// Table recoveries of a tree, in document order.
pub open spec fn table_recs(n: MdNode, ls: Seq<Seq<char>>, anc: usize, aggressive: bool) -> Seq<(nat, nat, Seq<Seq<char>>)>
    decreases n, 2nat, 0int,
{
    let cs = kids_of(n);
    let here = if cs.len() >= 3 { triples(cs, ls, anc, aggressive, cs.len() - 2) } else { Seq::empty() };
    here + if n.kind == NodeKind::List {
        table_items(n, ls, anc, aggressive, n.children@.len() as int)
    } else if has_kids(n.kind) {
        table_kids(n, ls, anc, aggressive, n.children@.len() as int)
    } else {
        Seq::empty()
    }
}

pub open spec fn table_kids(n: MdNode, ls: Seq<Seq<char>>, anc: usize, aggressive: bool, i: int) -> Seq<(nat, nat, Seq<Seq<char>>)>
    decreases n, 1nat, i,
{
    if i <= 0 || i > n.children@.len() {
        Seq::empty()
    } else {
        table_kids(n, ls, anc, aggressive, i - 1) + table_recs(n.children@[i - 1], ls, anc, aggressive)
    }
}

pub open spec fn table_items(n: MdNode, ls: Seq<Seq<char>>, anc: usize, aggressive: bool, i: int) -> Seq<(nat, nat, Seq<Seq<char>>)>
    decreases n, 1nat, i,
{
    if i <= 0 || i > n.children@.len() {
        Seq::empty()
    } else {
        let c = n.children@[i - 1];
        table_items(n, ls, anc, aggressive, i - 1) + if c.kind == NodeKind::ListItem {
            table_recs(c, ls, cont_indent(c, ls, anc), aggressive)
        } else {
            Seq::empty()
        }
    }
}

pub open spec fn recover_table_rule() -> Seq<char> {
    "recover-escaped-tables-in-lists"@
}

pub open spec fn rec_ops(rs: Seq<(nat, nat, Seq<Seq<char>>)>) -> Seq<OpView> {
    rs.map_values(|r: (nat, nat, Seq<Seq<char>>)| OpView::Replace(r.0, r.1, r.2))
}

pub open spec fn rec_entries(rs: Seq<(nat, nat, Seq<Seq<char>>)>, ls: Seq<Seq<char>>, rule: Seq<char>) -> Seq<EntryView> {
    rs.map_values(|r: (nat, nat, Seq<Seq<char>>)| EntryView { rule, start_line: r.0, end_line: r.1, before: snippet(ls, r.0, r.1), after: r.2 })
}

/// A recovery as an operation and a report entry.
fn emit_recovery(
    s: usize,
    e: usize,
    lines: Vec<String>,
    ls: &Vec<Vec<char>>,
    rule: &'static str,
    ops: &mut Vec<FormatterOperation>,
    entries: &mut Vec<ReportEntry>,
)
    requires
        s <= e,
    ensures
        views_wf(views(old(ops)@)) ==> views_wf(views(final(ops)@)),
        views(final(ops)@) == views(old(ops)@) + rec_ops(seq![(s as nat, e as nat, sv(lines@))]),
        entry_views(final(entries)@) == entry_views(old(entries)@) + rec_entries(seq![(s as nat, e as nat, sv(lines@))], lv(ls@), rule@),
{
    let ghost o0 = views(ops@);
    let ghost e0 = entry_views(entries@);
    let after = crate::ops::clone_strings(&lines);
    let before = snippet_from_lines(ls, s, e);
    push_entry(entries, ReportEntry { rule, start_line: s, end_line: e, before, after });
    push_op(ops, FormatterOperation::ReplaceLines { start_line: s, end_line: e, lines });
    assert(views(ops@) =~= o0 + rec_ops(seq![(s as nat, e as nat, sv(lines@))]));
    assert(entry_views(entries@) =~= e0 + rec_entries(seq![(s as nat, e as nat, sv(lines@))], lv(ls@), rule@));
}

fn first_col_exec(list: &MdNode) -> (r: usize)
    ensures
        r == first_col(*list),
{
    if list.children.len() > 0 {
        match &list.children[0].position {
            Some(p) => p.start_column,
            None => 0,
        }
    } else {
        0
    }
}

fn bullet_char_exec(list: &MdNode, ls: &Vec<Vec<char>>) -> (r: Option<char>)
    ensures
        r == bullet_char(*list, lv(ls@)),
{
    if list.children.len() == 0 {
        return None;
    }
    let p = match &list.children[0].position {
        Some(p) => p,
        None => {
            return None;
        },
    };
    let li = line0_exec(p.start_line);
    let col = line0_exec(p.start_column);
    if li >= ls.len() {
        return None;
    }
    let line = &ls[li];
    let k = crate::text::char_index_of_byte(line, col);
    let head = slice_vec(line, 0, k);
    assert(head@ =~= line@.take(k as int));
    let w = crate::text::utf8_len_exec(&head);
    if w != col as u128 || k >= line.len() {
        return None;
    }
    let c = line[k];
    if c == '-' || c == '*' || c == '+' { Some(c) } else { None }
}

fn has_recovery_evidence(a: &MdNode, c: &MdNode, ls: &Vec<Vec<char>>, aggressive: bool) -> (r: bool)
    ensures
        r == has_evidence(*a, *c, lv(ls@), aggressive),
{
    let ca = first_col_exec(a);
    if ca == 0 || ca != first_col_exec(c) {
        return false;
    }
    if a.ordered && c.ordered {
        match (a.start, c.start) {
            (Some(sa), Some(sc)) => sc as u128 == sa as u128 + a.children.len() as u128,
            _ => false,
        }
    } else if !a.ordered && !c.ordered {
        if !aggressive {
            return false;
        }
        let ba = bullet_char_exec(a, ls);
        let bc = bullet_char_exec(c, ls);
        ba == bc && ba.is_some()
    } else {
        false
    }
}

fn rows_ok(ls: &Vec<Vec<char>>, ts: usize, te: usize, tcol: usize) -> (r: bool)
    requires
        ts <= te < ls.len(),
    ensures
        r == !(exists|k: int| ts <= k <= te && (is_blank(#[trigger] lv(ls@)[k]) || lead_spaces(lv(ls@)[k]) != tcol)),
{
    let ghost l = lv(ls@);
    let mut k = ts;
    while k <= te
        invariant
            ts <= k <= te + 1,
            te < ls.len(),
            l == lv(ls@),
            forall|j: int| ts <= j < k ==> !is_blank(#[trigger] l[j]) && lead_spaces(l[j]) == tcol,
        decreases te + 1 - k,
    {
        if is_blank_line(&ls[k]) || lead_space_len(&ls[k]) != tcol {
            assert(ts <= k <= te && (is_blank(l[k as int]) || lead_spaces(l[k as int]) != tcol));
            return false;
        }
        k += 1;
    }
    true
}

fn try_emit_table_recovery(a: &MdNode, t: &MdNode, c: &MdNode, ls: &Vec<Vec<char>>, anc: usize, aggressive: bool) -> (r: Option<(usize, usize, Vec<String>)>)
    ensures
        match r {
            Some((s, e, v)) => table_recovery(*a, *t, *c, lv(ls@), anc, aggressive) == Some((s as nat, e as nat, sv(v@))),
            None => table_recovery(*a, *t, *c, lv(ls@), anc, aggressive) is None,
        },
        r matches Some((s, e, v)) ==> s <= e,
{
    let ghost l = lv(ls@);
    let tp = match &t.position {
        Some(p) => p,
        None => {
            return None;
        },
    };
    let ts = line0_exec(tp.start_line);
    let te = line0_exec(tp.end_line);
    let tcol = line0_exec(tp.start_column);
    if tcol != anc || te >= ls.len() || ts > te || a.children.len() == 0 {
        return None;
    }
    let r = &a.children[a.children.len() - 1];
    assert(a.children@.last() == *r);
    let target = list_item_continuation_indent(r, ls, anc);
    let ev = has_recovery_evidence(a, c, ls, aggressive);
    if r.kind != NodeKind::ListItem || target <= tcol || !ev {
        assert(t.position == Some(*tp));
        assert(!(tcol != anc || te >= ls.len() || ts > te || a.children@.len() == 0));
        assert(table_recovery(*a, *t, *c, l, anc, aggressive) is None);
        return None;
    }
    if !rows_ok(ls, ts, te, tcol) {
        return None;
    }
    let prefix = spaces_vec(target - tcol);
    let mut out: Vec<String> = Vec::new();
    let mut i = ts;
    while i <= te
        invariant
            ts <= i <= te + 1,
            te < ls.len(),
            l == lv(ls@),
            sv(out@) =~= prefixed(l, ts as int, i as int - 1, prefix@),
        decreases te + 1 - i,
    {
        let mut v = slice_vec(&prefix, 0, prefix.len());
        push_all(&mut v, &ls[i]);
        assert(v@ =~= prefix@ + l[i as int]);
        let ghost prev = out@;
        out.push(string_of(&v));
        assert(sv(out@) =~= sv(prev).push(v@));
        i += 1;
    }
    Some((ts, te, out))
}

fn triples_exec(n: &MdNode, ls: &Vec<Vec<char>>, anc: usize, aggressive: bool, ops: &mut Vec<FormatterOperation>, entries: &mut Vec<ReportEntry>)
    ensures
        views_wf(views(old(ops)@)) ==> views_wf(views(final(ops)@)),
        ({
            let cs = kids_of(*n);
            let here = if cs.len() >= 3 { triples(cs, lv(ls@), anc, aggressive, cs.len() - 2) } else { Seq::empty() };
            &&& views(final(ops)@) == views(old(ops)@) + rec_ops(here)
            &&& entry_views(final(entries)@) == entry_views(old(entries)@) + rec_entries(here, lv(ls@), recover_table_rule())
        }),
{
    let ghost o0 = views(ops@);
    let ghost e0 = entry_views(entries@);
    let ghost l = lv(ls@);
    proof {
        reveal_strlit("recover-escaped-tables-in-lists");
    }
    if !has_children_kind(&n.kind) || n.children.len() < 3 {
        assert(views(ops@) =~= o0 + rec_ops(Seq::empty()));
        assert(entry_views(entries@) =~= e0 + rec_entries(Seq::empty(), l, recover_table_rule()));
        return;
    }
    let cs = &n.children;
    let mut i: usize = 0;
    while i + 2 < cs.len()
        invariant
            views_wf(views(old(ops)@)) ==> views_wf(views(ops@)),
            cs@ == kids_of(*n),
            cs.len() >= 3,
            i + 2 <= cs.len(),
            l == lv(ls@),
            views(ops@) == o0 + rec_ops(triples(cs@, l, anc, aggressive, i as int)),
            entry_views(entries@) == e0 + rec_entries(triples(cs@, l, anc, aggressive, i as int), l, recover_table_rule()),
        decreases cs.len() - i,
    {
        let ghost before = triples(cs@, l, anc, aggressive, i as int);
        if cs[i].kind == NodeKind::List && cs[i + 1].kind == NodeKind::Table && cs[i + 2].kind == NodeKind::List {
            match try_emit_table_recovery(&cs[i], &cs[i + 1], &cs[i + 2], ls, anc, aggressive) {
                Some((s, e, v)) => {
                    emit_recovery(s, e, v, ls, "recover-escaped-tables-in-lists", ops, entries);
                },
                None => {},
            }
        }
        let ghost after = triples(cs@, l, anc, aggressive, i + 1);
        assert(rec_ops(after) =~= rec_ops(before) + rec_ops(after.skip(before.len() as int)));
        assert(rec_entries(after, l, recover_table_rule()) =~= rec_entries(before, l, recover_table_rule()) + rec_entries(after.skip(before.len() as int), l, recover_table_rule()));
        assert(views(ops@) =~= o0 + rec_ops(after));
        assert(entry_views(entries@) =~= e0 + rec_entries(after, l, recover_table_rule()));
        i += 1;
    }
}

proof fn lemma_recs_add(a: Seq<(nat, nat, Seq<Seq<char>>)>, b: Seq<(nat, nat, Seq<Seq<char>>)>, ls: Seq<Seq<char>>, rule: Seq<char>)
    ensures
        rec_ops(a + b) == rec_ops(a) + rec_ops(b),
        rec_entries(a + b, ls, rule) == rec_entries(a, ls, rule) + rec_entries(b, ls, rule),
{
    assert(rec_ops(a + b) =~= rec_ops(a) + rec_ops(b));
    assert(rec_entries(a + b, ls, rule) =~= rec_entries(a, ls, rule) + rec_entries(b, ls, rule));
}

fn table_kids_exec(n: &MdNode, ls: &Vec<Vec<char>>, anc: usize, aggressive: bool, ops: &mut Vec<FormatterOperation>, entries: &mut Vec<ReportEntry>)
    ensures
        views_wf(views(old(ops)@)) ==> views_wf(views(final(ops)@)),
        views(final(ops)@) == views(old(ops)@) + rec_ops(table_kids(*n, lv(ls@), anc, aggressive, n.children@.len() as int)),
        entry_views(final(entries)@) == entry_views(old(entries)@) + rec_entries(table_kids(*n, lv(ls@), anc, aggressive, n.children@.len() as int), lv(ls@), recover_table_rule()),
    decreases n, 1nat, n.children@.len(),
{
    let ghost o0 = views(ops@);
    let ghost e0 = entry_views(entries@);
    let ghost l = lv(ls@);
    let mut i: usize = 0;
    while i < n.children.len()
        invariant
            views_wf(views(old(ops)@)) ==> views_wf(views(ops@)),
            i <= n.children.len(),
            l == lv(ls@),
            views(ops@) == o0 + rec_ops(table_kids(*n, l, anc, aggressive, i as int)),
            entry_views(entries@) == e0 + rec_entries(table_kids(*n, l, anc, aggressive, i as int), l, recover_table_rule()),
        decreases n.children.len() - i,
    {
        collect_table_recovery_ops(&n.children[i], ls, anc, aggressive, ops, entries);
        proof {
            lemma_recs_add(table_kids(*n, l, anc, aggressive, i as int), table_recs(n.children@[i as int], l, anc, aggressive), l, recover_table_rule());
        }
        assert(views(ops@) =~= o0 + rec_ops(table_kids(*n, l, anc, aggressive, i + 1)));
        assert(entry_views(entries@) =~= e0 + rec_entries(table_kids(*n, l, anc, aggressive, i + 1), l, recover_table_rule()));
        i += 1;
    }
}

fn table_items_exec(n: &MdNode, ls: &Vec<Vec<char>>, anc: usize, aggressive: bool, ops: &mut Vec<FormatterOperation>, entries: &mut Vec<ReportEntry>)
    ensures
        views_wf(views(old(ops)@)) ==> views_wf(views(final(ops)@)),
        views(final(ops)@) == views(old(ops)@) + rec_ops(table_items(*n, lv(ls@), anc, aggressive, n.children@.len() as int)),
        entry_views(final(entries)@) == entry_views(old(entries)@) + rec_entries(table_items(*n, lv(ls@), anc, aggressive, n.children@.len() as int), lv(ls@), recover_table_rule()),
    decreases n, 1nat, n.children@.len(),
{
    let ghost o0 = views(ops@);
    let ghost e0 = entry_views(entries@);
    let ghost l = lv(ls@);
    let mut i: usize = 0;
    while i < n.children.len()
        invariant
            views_wf(views(old(ops)@)) ==> views_wf(views(ops@)),
            i <= n.children.len(),
            l == lv(ls@),
            views(ops@) == o0 + rec_ops(table_items(*n, l, anc, aggressive, i as int)),
            entry_views(entries@) == e0 + rec_entries(table_items(*n, l, anc, aggressive, i as int), l, recover_table_rule()),
        decreases n.children.len() - i,
    {
        let c = &n.children[i];
        let ghost add = if c.kind == NodeKind::ListItem { table_recs(*c, l, cont_indent(*c, l, anc), aggressive) } else { Seq::empty() };
        if c.kind == NodeKind::ListItem {
            let ind = list_item_continuation_indent(c, ls, anc);
            collect_table_recovery_ops(c, ls, ind, aggressive, ops, entries);
        } else {
            assert(rec_ops(add) =~= Seq::<OpView>::empty());
            assert(rec_entries(add, l, recover_table_rule()) =~= Seq::<EntryView>::empty());
        }
        proof {
            lemma_recs_add(table_items(*n, l, anc, aggressive, i as int), add, l, recover_table_rule());
        }
        assert(views(ops@) =~= o0 + rec_ops(table_items(*n, l, anc, aggressive, i + 1)));
        assert(entry_views(entries@) =~= e0 + rec_entries(table_items(*n, l, anc, aggressive, i + 1), l, recover_table_rule()));
        i += 1;
    }
}

/// Walk the tree for `[List, Table, List]` sibling runs and re-indent tables
/// that escaped from the preceding list.
pub fn collect_table_recovery_ops(n: &MdNode, ls: &Vec<Vec<char>>, anc: usize, aggressive: bool, ops: &mut Vec<FormatterOperation>, entries: &mut Vec<ReportEntry>)
    ensures
        views_wf(views(old(ops)@)) ==> views_wf(views(final(ops)@)),
        views(final(ops)@) == views(old(ops)@) + rec_ops(table_recs(*n, lv(ls@), anc, aggressive)),
        entry_views(final(entries)@) == entry_views(old(entries)@) + rec_entries(table_recs(*n, lv(ls@), anc, aggressive), lv(ls@), recover_table_rule()),
    decreases n, 2nat, 0int,
{
    let ghost o0 = views(ops@);
    let ghost e0 = entry_views(entries@);
    let ghost l = lv(ls@);
    let ghost cs = kids_of(*n);
    let ghost here = if cs.len() >= 3 { triples(cs, l, anc, aggressive, cs.len() - 2) } else { Seq::empty() };
    triples_exec(n, ls, anc, aggressive, ops, entries);
    let ghost rest = if n.kind == NodeKind::List {
        table_items(*n, l, anc, aggressive, n.children@.len() as int)
    } else if has_kids(n.kind) {
        table_kids(*n, l, anc, aggressive, n.children@.len() as int)
    } else {
        Seq::empty()
    };
    if n.kind == NodeKind::List {
        table_items_exec(n, ls, anc, aggressive, ops, entries);
    } else if has_children_kind(&n.kind) {
        table_kids_exec(n, ls, anc, aggressive, ops, entries);
    } else {
        assert(rec_ops(rest) =~= Seq::<OpView>::empty());
        assert(rec_entries(rest, l, recover_table_rule()) =~= Seq::<EntryView>::empty());
    }
    proof {
        lemma_recs_add(here, rest, l, recover_table_rule());
    }
    assert(views(ops@) =~= o0 + rec_ops(table_recs(*n, l, anc, aggressive)));
    assert(entry_views(entries@) =~= e0 + rec_entries(table_recs(*n, l, anc, aggressive), l, recover_table_rule()));
}

/// Re-indent tables that escaped from a list (off, safe or aggressive).
pub fn apply_recover_escaped_tables_in_lists(
    mode: crate::types::RecoverEscapedTablesMode,
    n: &MdNode,
    ls: &Vec<Vec<char>>,
    ops: &mut Vec<FormatterOperation>,
    entries: &mut Vec<ReportEntry>,
)
    ensures
        views_wf(views(old(ops)@)) ==> views_wf(views(final(ops)@)),
        mode == crate::types::RecoverEscapedTablesMode::Off ==> final(ops)@ == old(ops)@ && final(entries)@ == old(entries)@,
        mode != crate::types::RecoverEscapedTablesMode::Off ==> {
            let rs = table_recs(*n, lv(ls@), 0, mode == crate::types::RecoverEscapedTablesMode::Aggressive);
            &&& views(final(ops)@) == views(old(ops)@) + rec_ops(rs)
            &&& entry_views(final(entries)@) == entry_views(old(entries)@) + rec_entries(rs, lv(ls@), recover_table_rule())
        },
{
    if mode == crate::types::RecoverEscapedTablesMode::Off {
        return;
    }
    let aggressive = mode == crate::types::RecoverEscapedTablesMode::Aggressive;
    collect_table_recovery_ops(n, ls, 0, aggressive, ops, entries);
}


// ---------------------------------------------------------------------------
// Escaped paragraphs
// ---------------------------------------------------------------------------

pub open spec fn is_continuation_punct(c: char) -> bool {
    c == ',' || c == ';' || c == ':' || c == '(' || c == ')' || c == '"' || c == '\'' || c == '—'
        || c == '–' || c == '-'
}

/// Does the paragraph's first inline suggest it continues the list item?
/// Inline code always does; otherwise heuristic mode asks for a lowercase
/// ASCII letter or continuation punctuation, aggressive mode always agrees.
pub open spec fn triggers(p: MdNode, mode: RecoverEscapedParagraphsMode) -> bool {
    let inl = kids_of(p);
    if inl.len() == 0 {
        false
    } else if inl[0].kind == NodeKind::InlineCode {
        true
    } else {
        let t = trim_start(inl[0].value@);
        let first: Option<char> = if inl[0].kind == NodeKind::Text && t.len() > 0 { Some(t[0]) } else { None };
        match mode {
            RecoverEscapedParagraphsMode::Off => false,
            RecoverEscapedParagraphsMode::Heuristic => match first {
                Some(c) => ('a' <= c && c <= 'z') || is_continuation_punct(c),
                None => false,
            },
            RecoverEscapedParagraphsMode::Aggressive => true,
        }
    }
}

fn paragraph_triggers_recovery(p: &MdNode, mode: RecoverEscapedParagraphsMode) -> (r: bool)
    ensures
        r == triggers(*p, mode),
{
    if !has_children_kind(&p.kind) || p.children.len() == 0 {
        return false;
    }
    let f = &p.children[0];
    if f.kind == NodeKind::InlineCode {
        return true;
    }
    let v = chars_of(f.value.as_str());
    let t = trim_start_vec(&v);
    let first: Option<char> = if f.kind == NodeKind::Text && t.len() > 0 { Some(t[0]) } else { None };
    match mode {
        RecoverEscapedParagraphsMode::Off => false,
        RecoverEscapedParagraphsMode::Heuristic => match first {
            Some(c) => ('a' <= c && c <= 'z') || c == ',' || c == ';' || c == ':' || c == '(' || c
                == ')' || c == '"' || c == '\'' || c == '—' || c == '–' || c == '-',
            None => false,
        },
        RecoverEscapedParagraphsMode::Aggressive => true,
    }
}

/// Marker column, start line and first character of a list's item.
pub open spec fn item_info(item: MdNode, ls: Seq<Seq<char>>) -> Option<(nat, nat, char)> {
    if item.kind != NodeKind::ListItem || item.position is None {
        None
    } else {
        let p = item.position.unwrap();
        let ln = line0(p.start_line);
        if ln >= ls.len() || trim_start(ls[ln as int]).len() == 0 {
            None
        } else {
            Some((line0(p.start_column), ln, trim_start(ls[ln as int])[0]))
        }
    }
}

/// `n as u32`: the low 32 bits.
pub open spec fn low32(n: nat) -> nat {
    n % 0x1_0000_0000
}

/// Does `list2` resume `list1`: the next number (ordered), or the same bullet?
pub open spec fn resumes(list1: MdNode, list2: MdNode, ch1: char, ch2: char) -> bool {
    if list1.ordered {
        let start1 = match list1.start { Some(v) => v as nat, None => 1 };
        let sum = start1 + low32(list1.children@.len());
        let expected = if sum > u32::MAX { u32::MAX as nat } else { sum };
        let start2 = match list2.start { Some(v) => v as nat, None => 1 };
        start2 == expected
    } else {
        ch1 == ch2
    }
}

/// The paragraphs' line ranges, if all are positioned left of `cont`.
pub open spec fn para_ranges(ps: Seq<MdNode>, cont: nat) -> Option<Seq<(nat, nat)>>
    decreases ps.len(),
{
    if ps.len() == 0 {
        Some(Seq::empty())
    } else {
        match para_ranges(ps.drop_last(), cont) {
            None => None,
            Some(rs) => match ps.last().position {
                None => None,
                Some(p) => if line0(p.start_column) >= cont {
                    None
                } else {
                    Some(rs.push((line0(p.start_line), line0(p.end_line))))
                },
            },
        }
    }
}

/// The report text of one re-indented paragraph line.
pub open spec fn reindented_line(l: Seq<char>, indent: Seq<char>) -> Seq<char> {
    if is_blank(l) { l } else { indent + trim_start(l) }
}

/// Indent operations for the non-blank lines `a..=e` before `upper`.
pub open spec fn para_line_ops(ls: Seq<Seq<char>>, a: int, e: int, upper: int, indent: Seq<char>) -> Seq<OpView>
    decreases e + 1 - a,
{
    if a > e || a >= upper || a < 0 {
        Seq::empty()
    } else {
        (if a < ls.len() && !is_blank(ls[a]) { seq![OpView::Indent(a as nat, indent)] } else { Seq::empty() })
            + para_line_ops(ls, a + 1, e, upper, indent)
    }
}

pub open spec fn recover_para_rule() -> Seq<char> {
    "recover-escaped-paragraphs-in-lists"@
}

/// Operations and entries of the paragraph ranges `rs`.
pub open spec fn para_emits(rs: Seq<(nat, nat)>, ls: Seq<Seq<char>>, upper: nat, indent: Seq<char>) -> (Seq<OpView>, Seq<EntryView>)
    decreases rs.len(),
{
    if rs.len() == 0 {
        (Seq::empty(), Seq::empty())
    } else {
        let (o, e) = para_emits(rs.drop_last(), ls, upper, indent);
        let (s, pe) = rs.last();
        let cap = if upper == 0 { 0 } else { (upper - 1) as nat };
        let ce = if pe < cap { pe } else { cap };
        if s > ce {
            (o, e)
        } else {
            let before = snippet(ls, s, ce);
            (
                o + para_line_ops(ls, s as int, pe as int, upper as int, indent),
                e.push(EntryView {
                    rule: recover_para_rule(),
                    start_line: s,
                    end_line: ce,
                    before,
                    after: before.map_values(|l: Seq<char>| reindented_line(l, indent)),
                }),
            )
        }
    }
}

/// Recovery of a `List, Paragraph(s), List` run.
pub open spec fn recover_run(l1: MdNode, l2: MdNode, ps: Seq<MdNode>, ls: Seq<Seq<char>>, mode: RecoverEscapedParagraphsMode) -> (Seq<OpView>, Seq<EntryView>) {
    let none = (Seq::<OpView>::empty(), Seq::<EntryView>::empty());
    if l1.ordered != l2.ordered || l1.children@.len() == 0 || l2.children@.len() == 0 {
        none
    } else {
        match (item_info(l1.children@.last(), ls), item_info(l2.children@[0], ls)) {
            (Some((col1, ln1, ch1)), Some((col2, ln2, ch2))) => {
                let cont = sat_add(col1 as usize, marker_width(trim_start(ls[ln1 as int])) as usize) as nat;
                if col2 != col1 || !resumes(l1, l2, ch1, ch2) {
                    none
                } else {
                    match para_ranges(ps, cont) {
                        None => none,
                        Some(rs) => if ps.len() == 0 || !triggers(ps[0], mode) {
                            none
                        } else {
                            para_emits(rs, ls, ln2, spaces(cont))
                        },
                    }
                }
            },
            _ => none,
        }
    }
}

/// Index of the first non-paragraph child at or after `j`.
pub open spec fn para_end(cs: Seq<MdNode>, j: int) -> int
    decreases cs.len() - j,
{
    if 0 <= j < cs.len() && cs[j].kind == NodeKind::Paragraph { para_end(cs, j + 1) } else { j }
}

pub proof fn lemma_para_end(cs: Seq<MdNode>, j: int)
    ensures
        para_end(cs, j) >= j,
        0 <= j ==> para_end(cs, j) <= cs.len() || para_end(cs, j) == j,
        forall|k: int| j <= k < para_end(cs, j) ==> (#[trigger] cs[k]).kind == NodeKind::Paragraph,
        0 <= para_end(cs, j) < cs.len() ==> cs[para_end(cs, j)].kind != NodeKind::Paragraph,
    decreases cs.len() - j,
{
    if 0 <= j < cs.len() && cs[j].kind == NodeKind::Paragraph {
        lemma_para_end(cs, j + 1);
    }
}

/// Recoveries of the runs among children `i..`.
pub open spec fn para_runs(cs: Seq<MdNode>, ls: Seq<Seq<char>>, mode: RecoverEscapedParagraphsMode, i: int) -> (Seq<OpView>, Seq<EntryView>)
    decreases cs.len() - i,
{
    if i < 0 || i >= cs.len() {
        (Seq::empty(), Seq::empty())
    } else if cs[i].kind == NodeKind::List {
        let j = para_end(cs, i + 1);
        proof {
            lemma_para_end(cs, i + 1);
        }
        let here = if j > i + 1 && j < cs.len() && cs[j].kind == NodeKind::List {
            recover_run(cs[i], cs[j], cs.subrange(i + 1, j), ls, mode)
        } else {
            (Seq::empty(), Seq::empty())
        };
        let rest = para_runs(cs, ls, mode, j);
        (here.0 + rest.0, here.1 + rest.1)
    } else {
        para_runs(cs, ls, mode, i + 1)
    }
}

/// Paragraph recoveries of a tree: a node's runs, then its children's.
pub open spec fn para_recs(n: MdNode, ls: Seq<Seq<char>>, mode: RecoverEscapedParagraphsMode) -> (Seq<OpView>, Seq<EntryView>)
    decreases n, 1nat, 0int,
{
    let here = para_runs(kids_of(n), ls, mode, 0);
    let rest = if has_kids(n.kind) { para_kids(n, ls, mode, n.children@.len() as int) } else { (Seq::empty(), Seq::empty()) };
    (here.0 + rest.0, here.1 + rest.1)
}

pub open spec fn para_kids(n: MdNode, ls: Seq<Seq<char>>, mode: RecoverEscapedParagraphsMode, i: int) -> (Seq<OpView>, Seq<EntryView>)
    decreases n, 0nat, i,
{
    if i <= 0 || i > n.children@.len() {
        (Seq::empty(), Seq::empty())
    } else {
        let a = para_kids(n, ls, mode, i - 1);
        let b = para_recs(n.children@[i - 1], ls, mode);
        (a.0 + b.0, a.1 + b.1)
    }
}

fn item_info_exec(item: &MdNode, ls: &Vec<Vec<char>>) -> (r: Option<(usize, usize, char)>)
    ensures
        match r {
            Some((c, l, ch)) => item_info(*item, lv(ls@)) == Some((c as nat, l as nat, ch)),
            None => item_info(*item, lv(ls@)) is None,
        },
{
    if item.kind != NodeKind::ListItem {
        return None;
    }
    let p = match &item.position {
        Some(p) => p,
        None => {
            return None;
        },
    };
    let ln = line0_exec(p.start_line);
    if ln >= ls.len() {
        return None;
    }
    let t = trim_start_vec(&ls[ln]);
    if t.len() == 0 {
        return None;
    }
    Some((line0_exec(p.start_column), ln, t[0]))
}

fn para_line_ops_exec(ls: &Vec<Vec<char>>, a: usize, e: usize, upper: usize, indent: &Vec<char>, ops: &mut Vec<FormatterOperation>)
    ensures
        views_wf(views(old(ops)@)) ==> views_wf(views(final(ops)@)),
        views(final(ops)@) == views(old(ops)@) + para_line_ops(lv(ls@), a as int, e as int, upper as int, indent@),
{
    let ghost o0 = views(ops@);
    let ghost l = lv(ls@);
    if a > e {
        assert(views(ops@) =~= o0 + para_line_ops(l, a as int, e as int, upper as int, indent@));
        return;
    }
    let mut k = a;
    while k <= e
        invariant
            views_wf(views(old(ops)@)) ==> views_wf(views(ops@)),
            a <= k <= e + 1,
            l == lv(ls@),
            o0 == views(old(ops)@),
            views(ops@) + para_line_ops(l, k as int, e as int, upper as int, indent@) == o0 + para_line_ops(l, a as int, e as int, upper as int, indent@),
        decreases e + 1 - k,
    {
        if k >= upper {
            assert(para_line_ops(l, k as int, e as int, upper as int, indent@) =~= Seq::<OpView>::empty());
            assert(views(ops@) =~= o0 + para_line_ops(l, a as int, e as int, upper as int, indent@));
            return;
        }
        let ghost before = views(ops@);
        if k < ls.len() && !is_blank_line(&ls[k]) {
            push_op(ops, FormatterOperation::IndentLine { start_line: k, indent: string_of(indent) });
        }
        assert(views(ops@) + para_line_ops(l, k + 1, e as int, upper as int, indent@) =~= before + para_line_ops(l, k as int, e as int, upper as int, indent@));
        if k == e {
            assert(para_line_ops(l, e + 1, e as int, upper as int, indent@) =~= Seq::<OpView>::empty());
            assert(views(ops@) =~= o0 + para_line_ops(l, a as int, e as int, upper as int, indent@));
            return;
        }
        k += 1;
    }
}

fn reindented_lines(before: &Vec<String>, indent: &Vec<char>) -> (r: Vec<String>)
    ensures
        sv(r@) == sv(before@).map_values(|l: Seq<char>| reindented_line(l, indent@)),
{
    let mut out: Vec<String> = Vec::new();
    let mut k: usize = 0;
    while k < before.len()
        invariant
            k <= before.len(),
            sv(out@) == sv(before@).take(k as int).map_values(|l: Seq<char>| reindented_line(l, indent@)),
        decreases before.len() - k,
    {
        let c = chars_of(before[k].as_str());
        let line = if is_blank_line(&c) {
            string_of(&c)
        } else {
            let t = trim_start_vec(&c);
            let mut v = slice_vec(indent, 0, indent.len());
            push_all(&mut v, &t);
            assert(v@ =~= indent@ + trim_start(c@));
            string_of(&v)
        };
        let ghost prev = out@;
        out.push(line);
        assert(sv(out@) =~= sv(prev).push(line@));
        assert(sv(before@).take(k + 1) =~= sv(before@).take(k as int).push(before@[k as int]@));
        assert(sv(out@) =~= sv(before@).take(k + 1).map_values(|l: Seq<char>| reindented_line(l, indent@)));
        k += 1;
    }
    assert(sv(before@).take(before.len() as int) =~= sv(before@));
    out
}

fn emit_para(
    s: usize,
    pe: usize,
    ls: &Vec<Vec<char>>,
    upper: usize,
    indent: &Vec<char>,
    ops: &mut Vec<FormatterOperation>,
    entries: &mut Vec<ReportEntry>,
)
    ensures
        views_wf(views(old(ops)@)) ==> views_wf(views(final(ops)@)),
        ({
            let l = lv(ls@);
            let cap = if upper == 0 { 0 } else { (upper - 1) as nat };
            let ce = if pe < cap { pe as nat } else { cap };
            if s > ce {
                views(final(ops)@) == views(old(ops)@) && entry_views(final(entries)@) == entry_views(old(entries)@)
            } else {
                let before = snippet(l, s as nat, ce);
                &&& views(final(ops)@) == views(old(ops)@) + para_line_ops(l, s as int, pe as int, upper as int, indent@)
                &&& entry_views(final(entries)@) == entry_views(old(entries)@).push(EntryView {
                    rule: recover_para_rule(),
                    start_line: s as nat,
                    end_line: ce,
                    before,
                    after: before.map_values(|x: Seq<char>| reindented_line(x, indent@)),
                })
            }
        }),
{
    let cap = if upper == 0 { 0 } else { upper - 1 };
    let ce = if pe < cap { pe } else { cap };
    if s > ce {
        return;
    }
    let before = snippet_from_lines(ls, s, ce);
    let after = reindented_lines(&before, indent);
    proof {
        reveal_strlit("recover-escaped-paragraphs-in-lists");
    }
    push_entry(entries, ReportEntry { rule: "recover-escaped-paragraphs-in-lists", start_line: s, end_line: ce, before, after });
    para_line_ops_exec(ls, s, pe, upper, indent, ops);
}

proof fn lemma_para_ranges_none(ps: Seq<MdNode>, m: int)
    requires
        0 <= m <= ps.len(),
    ensures
        forall|c: nat| para_ranges(ps.take(m), c) is None ==> para_ranges(ps, c) is None,
    decreases ps.len() - m,
{
    if m < ps.len() {
        lemma_para_ranges_none(ps.drop_last(), m);
        assert(ps.drop_last().take(m) =~= ps.take(m));
        assert forall|c: nat| para_ranges(ps.take(m), c) is None implies para_ranges(ps, c) is None by {
            assert(para_ranges(ps.drop_last(), c) is None);
        }
    } else {
        assert(ps.take(m) =~= ps);
    }
}

fn para_ranges_exec(cs: &Vec<MdNode>, from: usize, to: usize, cont: usize) -> (r: Option<Vec<(usize, usize)>>)
    requires
        from <= to <= cs.len(),
    ensures
        match r {
            Some(v) => para_ranges(cs@.subrange(from as int, to as int), cont as nat) == Some(v@.map_values(|t: (usize, usize)| (t.0 as nat, t.1 as nat))),
            None => para_ranges(cs@.subrange(from as int, to as int), cont as nat) is None,
        },
{
    let mut out: Vec<(usize, usize)> = Vec::new();
    let mut k = from;
    while k < to
        invariant
            from <= k <= to <= cs.len(),
            cs@.subrange(from as int, to as int).take(k - from) == cs@.subrange(from as int, k as int),
            para_ranges(cs@.subrange(from as int, k as int), cont as nat) == Some(out@.map_values(|t: (usize, usize)| (t.0 as nat, t.1 as nat))),
        decreases to - k,
    {
        assert(cs@.subrange(from as int, k + 1).drop_last() =~= cs@.subrange(from as int, k as int));
        assert(cs@.subrange(from as int, to as int).take(k + 1 - from) =~= cs@.subrange(from as int, k + 1));
        let p = match &cs[k].position {
            Some(p) => p,
            None => {
                proof {
                    lemma_para_ranges_none(cs@.subrange(from as int, to as int), k + 1 - from);
                }
                return None;
            },
        };
        if line0_exec(p.start_column) >= cont {
            proof {
                lemma_para_ranges_none(cs@.subrange(from as int, to as int), k + 1 - from);
            }
            return None;
        }
        let ghost prev = out@;
        out.push((line0_exec(p.start_line), line0_exec(p.end_line)));
        assert(out@.map_values(|t: (usize, usize)| (t.0 as nat, t.1 as nat)) =~= prev.map_values(|t: (usize, usize)| (t.0 as nat, t.1 as nat)).push((line0(p.start_line), line0(p.end_line))));
        k += 1;
    }
    Some(out)
}

/// Validate a `List, Paragraph(s), List` run (children `i`, `i+1..j`, `j`)
/// and re-indent its paragraphs under the first list's last item.
pub fn try_recover_paragraph_run(
    cs: &Vec<MdNode>,
    i: usize,
    j: usize,
    ls: &Vec<Vec<char>>,
    mode: RecoverEscapedParagraphsMode,
    ops: &mut Vec<FormatterOperation>,
    entries: &mut Vec<ReportEntry>,
)
    requires
        i < j < cs.len(),
    ensures
        views_wf(views(old(ops)@)) ==> views_wf(views(final(ops)@)),
        views(final(ops)@) == views(old(ops)@) + recover_run(cs@[i as int], cs@[j as int], cs@.subrange(i + 1, j as int), lv(ls@), mode).0,
        entry_views(final(entries)@) == entry_views(old(entries)@) + recover_run(cs@[i as int], cs@[j as int], cs@.subrange(i + 1, j as int), lv(ls@), mode).1,
{
    let ghost o0 = views(ops@);
    let ghost e0 = entry_views(entries@);
    let ghost l = lv(ls@);
    let ghost res = recover_run(cs@[i as int], cs@[j as int], cs@.subrange(i + 1, j as int), l, mode);
    let l1 = &cs[i];
    let l2 = &cs[j];
    if l1.ordered != l2.ordered || l1.children.len() == 0 || l2.children.len() == 0 {
        assert(views(ops@) =~= o0 + res.0);
        assert(entry_views(entries@) =~= e0 + res.1);
        return;
    }
    assert(l1.children@.last() == l1.children@[l1.children.len() - 1]);
    let (col1, ln1, ch1) = match item_info_exec(&l1.children[l1.children.len() - 1], ls) {
        Some(x) => x,
        None => {
            assert(views(ops@) =~= o0 + res.0);
            assert(entry_views(entries@) =~= e0 + res.1);
            return;
        },
    };
    let (col2, ln2, ch2) = match item_info_exec(&l2.children[0], ls) {
        Some(x) => x,
        None => {
            assert(views(ops@) =~= o0 + res.0);
            assert(entry_views(entries@) =~= e0 + res.1);
            return;
        },
    };
    let t1 = trim_start_vec(&ls[ln1]);
    let cont = col1.saturating_add(crate::lines::list_marker_width(&t1));
    let resumed = if l1.ordered {
        let start1: u32 = match l1.start { Some(v) => v, None => 1 };
        let count1: u32 = (l1.children.len() as u64 % 0x1_0000_0000u64) as u32;
        let expected = start1.saturating_add(count1);
        let start2: u32 = match l2.start { Some(v) => v, None => 1 };
        start2 == expected
    } else {
        ch1 == ch2
    };
    if col2 != col1 || !resumed {
        assert(views(ops@) =~= o0 + res.0);
        assert(entry_views(entries@) =~= e0 + res.1);
        return;
    }
    let ranges = match para_ranges_exec(cs, i + 1, j, cont) {
        Some(r) => r,
        None => {
            assert(views(ops@) =~= o0 + res.0);
            assert(entry_views(entries@) =~= e0 + res.1);
            return;
        },
    };
    if j == i + 1 || !paragraph_triggers_recovery(&cs[i + 1], mode) {
        assert(views(ops@) =~= o0 + res.0);
        assert(entry_views(entries@) =~= e0 + res.1);
        return;
    }
    let indent = spaces_vec(cont);
    let ghost rs = ranges@.map_values(|t: (usize, usize)| (t.0 as nat, t.1 as nat));
    assert(res == para_emits(rs, l, ln2 as nat, spaces(cont as nat)));
    let mut k: usize = 0;
    while k < ranges.len()
        invariant
            views_wf(views(old(ops)@)) ==> views_wf(views(ops@)),
            k <= ranges.len(),
            l == lv(ls@),
            indent@ == spaces(cont as nat),
            rs == ranges@.map_values(|t: (usize, usize)| (t.0 as nat, t.1 as nat)),
            views(ops@) == o0 + para_emits(rs.take(k as int), l, ln2 as nat, spaces(cont as nat)).0,
            entry_views(entries@) == e0 + para_emits(rs.take(k as int), l, ln2 as nat, spaces(cont as nat)).1,
        decreases ranges.len() - k,
    {
        let (s, pe) = ranges[k];
        assert(rs.take(k + 1).drop_last() =~= rs.take(k as int));
        emit_para(s, pe, ls, ln2, &indent, ops, entries);
        assert(views(ops@) =~= o0 + para_emits(rs.take(k + 1), l, ln2 as nat, spaces(cont as nat)).0);
        assert(entry_views(entries@) =~= e0 + para_emits(rs.take(k + 1), l, ln2 as nat, spaces(cont as nat)).1);
        k += 1;
    }
    assert(rs.take(ranges.len() as int) =~= rs);
}


fn para_runs_exec(n: &MdNode, ls: &Vec<Vec<char>>, mode: RecoverEscapedParagraphsMode, ops: &mut Vec<FormatterOperation>, entries: &mut Vec<ReportEntry>)
    ensures
        views_wf(views(old(ops)@)) ==> views_wf(views(final(ops)@)),
        views(final(ops)@) == views(old(ops)@) + para_runs(kids_of(*n), lv(ls@), mode, 0).0,
        entry_views(final(entries)@) == entry_views(old(entries)@) + para_runs(kids_of(*n), lv(ls@), mode, 0).1,
{
    let ghost o0 = views(ops@);
    let ghost e0 = entry_views(entries@);
    let ghost l = lv(ls@);
    if !has_children_kind(&n.kind) {
        assert(views(ops@) =~= o0 + para_runs(kids_of(*n), l, mode, 0).0);
        assert(entry_views(entries@) =~= e0 + para_runs(kids_of(*n), l, mode, 0).1);
        return;
    }
    let cs = &n.children;
    let ghost all = para_runs(cs@, l, mode, 0);
    let mut i: usize = 0;
    while i < cs.len()
        invariant
            views_wf(views(old(ops)@)) ==> views_wf(views(ops@)),
            i <= cs.len(),
            cs@ == kids_of(*n),
            l == lv(ls@),
            views(ops@) + para_runs(cs@, l, mode, i as int).0 == o0 + all.0,
            entry_views(entries@) + para_runs(cs@, l, mode, i as int).1 == e0 + all.1,
        decreases cs.len() - i,
    {
        let ghost o1 = views(ops@);
        let ghost e1 = entry_views(entries@);
        if cs[i].kind == NodeKind::List {
            let mut j = i + 1;
            while j < cs.len() && cs[j].kind == NodeKind::Paragraph
                invariant
                    views_wf(views(old(ops)@)) ==> views_wf(views(ops@)),
                    i + 1 <= j <= cs.len(),
                    para_end(cs@, (i + 1) as int) == para_end(cs@, j as int),
                decreases cs.len() - j,
            {
                j += 1;
            }
            assert(para_end(cs@, j as int) == j);
            if j > i + 1 && j < cs.len() && cs[j].kind == NodeKind::List {
                try_recover_paragraph_run(cs, i, j, ls, mode, ops, entries);
            }
            assert(views(ops@) + para_runs(cs@, l, mode, j as int).0 =~= o1 + para_runs(cs@, l, mode, i as int).0);
            assert(entry_views(entries@) + para_runs(cs@, l, mode, j as int).1 =~= e1 + para_runs(cs@, l, mode, i as int).1);
            i = j;
        } else {
            i += 1;
        }
    }
    assert(views(ops@) =~= o0 + all.0);
    assert(entry_views(entries@) =~= e0 + all.1);
}

/// Walk the tree for `List, Paragraph(s), List` runs and recover their paragraphs.
pub fn collect_recover_paragraph_ops(n: &MdNode, ls: &Vec<Vec<char>>, mode: RecoverEscapedParagraphsMode, ops: &mut Vec<FormatterOperation>, entries: &mut Vec<ReportEntry>)
    ensures
        views_wf(views(old(ops)@)) ==> views_wf(views(final(ops)@)),
        views(final(ops)@) == views(old(ops)@) + para_recs(*n, lv(ls@), mode).0,
        entry_views(final(entries)@) == entry_views(old(entries)@) + para_recs(*n, lv(ls@), mode).1,
    decreases n, 1nat, 0int,
{
    let ghost o0 = views(ops@);
    let ghost e0 = entry_views(entries@);
    let ghost l = lv(ls@);
    para_runs_exec(n, ls, mode, ops, entries);
    let ghost o1 = views(ops@);
    let ghost e1 = entry_views(entries@);
    if has_children_kind(&n.kind) {
        let mut i: usize = 0;
        while i < n.children.len()
            invariant
                views_wf(views(old(ops)@)) ==> views_wf(views(ops@)),
                i <= n.children.len(),
                l == lv(ls@),
                views(ops@) == o1 + para_kids(*n, l, mode, i as int).0,
                entry_views(entries@) == e1 + para_kids(*n, l, mode, i as int).1,
            decreases n.children.len() - i,
        {
            collect_recover_paragraph_ops(&n.children[i], ls, mode, ops, entries);
            assert(views(ops@) =~= o1 + para_kids(*n, l, mode, i + 1).0);
            assert(entry_views(entries@) =~= e1 + para_kids(*n, l, mode, i + 1).1);
            i += 1;
        }
    }
    assert(views(ops@) =~= o0 + para_recs(*n, l, mode).0);
    assert(entry_views(entries@) =~= e0 + para_recs(*n, l, mode).1);
}

/// Recover continuation paragraphs that escaped between two list runs.
pub fn apply_recover_escaped_paragraphs_in_lists(
    mode: RecoverEscapedParagraphsMode,
    n: &MdNode,
    ls: &Vec<Vec<char>>,
    ops: &mut Vec<FormatterOperation>,
    entries: &mut Vec<ReportEntry>,
)
    ensures
        views_wf(views(old(ops)@)) ==> views_wf(views(final(ops)@)),
        mode == RecoverEscapedParagraphsMode::Off ==> final(ops)@ == old(ops)@ && final(entries)@ == old(entries)@,
        mode != RecoverEscapedParagraphsMode::Off ==> {
            &&& views(final(ops)@) == views(old(ops)@) + para_recs(*n, lv(ls@), mode).0
            &&& entry_views(final(entries)@) == entry_views(old(entries)@) + para_recs(*n, lv(ls@), mode).1
        },
{
    if mode == RecoverEscapedParagraphsMode::Off {
        return;
    }
    collect_recover_paragraph_ops(n, ls, mode, ops, entries);
}


// ---------------------------------------------------------------------------
// Tightening list continuations
// ---------------------------------------------------------------------------

/// `char::is_lowercase` (Unicode `Lowercase` property).
pub uninterp spec fn unicode_lowercase(c: char) -> bool;

/// `char::is_lowercase`; the result is named `unicode_lowercase`.
#[verifier::external_body]
fn char_is_lowercase(c: char) -> (r: bool)
    ensures
        r == unicode_lowercase(c),
{
    c.is_lowercase()
}

/// An ASCII word character: letter, digit or `_`.
pub open spec fn is_word_char(c: char) -> bool {
    ('a' <= c && c <= 'z') || ('A' <= c && c <= 'Z') || ('0' <= c && c <= '9') || c == '_'
}

pub open spec fn word_pred() -> spec_fn(char) -> bool {
    |c: char| is_word_char(c)
}

/// A line (without leading white space) shaped `identifier: value`: word
/// characters, a colon, white space, and a value that is not blank.
pub open spec fn is_key_value_line(t: Seq<char>) -> bool {
    let k = crate::text::lead_count(t, word_pred());
    &&& k >= 1
    &&& k < t.len()
    &&& t[k as int] == ':'
    &&& k + 1 < t.len()
    &&& is_ws(t[k + 1int])
    &&& !is_blank(t.skip(k + 1int))
}

/// Does the paragraph starting on line `p` read as a mid-sentence
/// continuation? A first line shaped `identifier: value` never does.
pub open spec fn looks_like_continuation(ls: Seq<Seq<char>>, p: nat) -> bool {
    if p >= ls.len() {
        false
    } else {
        let t = trim_start(ls[p as int]);
        if t.len() == 0 || is_key_value_line(t) {
            false
        } else {
            let c = t[0];
            unicode_lowercase(c) || c == '`' || c == '(' || c == '[' || c == '"' || c == '\'' || c == ','
                || c == '–' || c == '—'
        }
    }
}

/// Whether a line (without leading white space) is shaped `identifier: value`.
fn key_value_line(t: &[char]) -> (r: bool)
    ensures
        r == is_key_value_line(t@),
{
    let mut k: usize = 0;
    while k < t.len() && (('a' <= t[k] && t[k] <= 'z') || ('A' <= t[k] && t[k] <= 'Z') || ('0' <= t[k] && t[k] <= '9') || t[k] == '_')
        invariant
            k <= t.len(),
            forall|j: int| 0 <= j < k ==> is_word_char(#[trigger] t@[j]),
        decreases t.len() - k,
    {
        k += 1;
    }
    proof {
        crate::text::lemma_lead_count(t@, word_pred(), k as int);
    }
    if k == 0 || k >= t.len() || t[k] != ':' || k + 1 >= t.len() || !crate::text::char_is_ws(t[k + 1]) {
        return false;
    }
    let rest = crate::text::slice_vec(t, k + 1, t.len());
    assert(rest@ =~= t@.skip(k + 1));
    !is_blank_line(&rest)
}

fn second_paragraph_looks_like_continuation(ls: &Vec<Vec<char>>, p: usize) -> (r: bool)
    ensures
        r == looks_like_continuation(lv(ls@), p as nat),
{
    if p >= ls.len() {
        return false;
    }
    let t = trim_start_vec(&ls[p]);
    if t.len() == 0 || key_value_line(&t) {
        return false;
    }
    let c = t[0];
    char_is_lowercase(c) || c == '`' || c == '(' || c == '[' || c == '"' || c == '\'' || c == ',' || c
        == '–' || c == '—'
}

pub open spec fn paragraphs_of(cs: Seq<MdNode>) -> Seq<MdNode> {
    cs.filter(|c: MdNode| c.kind == NodeKind::Paragraph)
}

/// The blank line between two positioned blocks separated by exactly one
/// blank source line.
pub open spec fn single_blank_between(end_a: nat, start_b: nat, ls: Seq<Seq<char>>) -> Option<nat> {
    if start_b != end_a + 2 || end_a + 1 >= ls.len() || !is_blank(ls[end_a + 1int]) {
        None
    } else {
        Some(end_a + 1)
    }
}

pub open spec fn delete_rec(b: nat) -> (nat, nat, Seq<Seq<char>>) {
    (b, b, Seq::empty())
}

/// Deletions of single blank lines between consecutive paragraphs `0..=k`.
pub open spec fn tighten_pairs(ps: Seq<MdNode>, ls: Seq<Seq<char>>, heuristic: bool, k: int) -> Seq<(nat, nat, Seq<Seq<char>>)>
    decreases k,
{
    if k <= 0 || k >= ps.len() {
        Seq::empty()
    } else {
        tighten_pairs(ps, ls, heuristic, k - 1) + match (ps[k - 1].position, ps[k].position) {
            (Some(a), Some(b)) => match single_blank_between(line0(a.end_line), line0(b.start_line), ls) {
                Some(bl) => if heuristic && !looks_like_continuation(ls, line0(b.start_line)) {
                    Seq::empty()
                } else {
                    seq![delete_rec(bl)]
                },
                None => Seq::empty(),
            },
            _ => Seq::empty(),
        }
    }
}

pub open spec fn paragraphs_only_span(ds: Seq<DetView>, s: usize, e: usize) -> bool {
    exists|k: int| 0 <= k < ds.len() && (#[trigger] ds[k]).shape == ListItemShape::ParagraphsOnly && ds[k].start_line == s && ds[k].end_line == e
}

/// Tighten deletions of a tree.
pub open spec fn tighten_recs(n: MdNode, ls: Seq<Seq<char>>, ds: Seq<DetView>, heuristic: bool) -> Seq<(nat, nat, Seq<Seq<char>>)>
    decreases n, 1nat, 0int,
{
    let here = if n.kind == NodeKind::ListItem && n.position is Some && paragraphs_only_span(
        ds,
        line0(n.position.unwrap().start_line) as usize,
        line0(n.position.unwrap().end_line) as usize,
    ) {
        let ps = paragraphs_of(n.children@);
        tighten_pairs(ps, ls, heuristic, ps.len() - 1)
    } else {
        Seq::empty()
    };
    here + if has_kids(n.kind) { tighten_kids(n, ls, ds, heuristic, n.children@.len() as int) } else { Seq::empty() }
}

pub open spec fn tighten_kids(n: MdNode, ls: Seq<Seq<char>>, ds: Seq<DetView>, heuristic: bool, i: int) -> Seq<(nat, nat, Seq<Seq<char>>)>
    decreases n, 0nat, i,
{
    if i <= 0 || i > n.children@.len() {
        Seq::empty()
    } else {
        tighten_kids(n, ls, ds, heuristic, i - 1) + tighten_recs(n.children@[i - 1], ls, ds, heuristic)
    }
}

pub open spec fn tighten_rule() -> Seq<char> {
    "tighten-list-continuations"@
}

/// All tighten-continuation deletions for the mode (none when off, or when
/// no item is paragraphs-only).
pub open spec fn tighten_continuations(n: MdNode, ls: Seq<Seq<char>>, ds: Seq<DetView>, mode: TightenListContinuationsMode) -> Seq<(nat, nat, Seq<Seq<char>>)> {
    if mode == TightenListContinuationsMode::Off || !(exists|k: int| 0 <= k < ds.len() && (#[trigger] ds[k]).shape == ListItemShape::ParagraphsOnly) {
        Seq::empty()
    } else {
        tighten_recs(n, ls, ds, mode == TightenListContinuationsMode::Heuristic)
    }
}

fn paragraphs_only_span_exec(ds: &Vec<ListItemDetection>, s: usize, e: usize) -> (r: bool)
    ensures
        r == paragraphs_only_span(det_views(ds@), s, e),
{
    let ghost d = det_views(ds@);
    let mut k: usize = 0;
    while k < ds.len()
        invariant
            k <= ds.len(),
            d == det_views(ds@),
            forall|j: int| 0 <= j < k ==> !((#[trigger] d[j]).shape == ListItemShape::ParagraphsOnly && d[j].start_line == s && d[j].end_line == e),
        decreases ds.len() - k,
    {
        if ds[k].shape == ListItemShape::ParagraphsOnly && ds[k].start_line == s && ds[k].end_line == e {
            assert(d[k as int].shape == ListItemShape::ParagraphsOnly && d[k as int].start_line == s && d[k as int].end_line == e);
            return true;
        }
        k += 1;
    }
    false
}

fn single_blank_between_exec(a: usize, b: usize, ls: &Vec<Vec<char>>) -> (r: Option<usize>)
    ensures
        opt_usize(r) == single_blank_between(a as nat, b as nat, lv(ls@)),
{
    if a as u128 + 2 != b as u128 || ls.len() == 0 || a >= ls.len() - 1 {
        return None;
    }
    if !is_blank_line(&ls[a + 1]) {
        return None;
    }
    Some(a + 1)
}

fn emit_deletion(b: usize, ls: &Vec<Vec<char>>, rule: &'static str, ops: &mut Vec<FormatterOperation>, entries: &mut Vec<ReportEntry>)
    ensures
        views_wf(views(old(ops)@)) ==> views_wf(views(final(ops)@)),
        views(final(ops)@) == views(old(ops)@) + rec_ops(seq![delete_rec(b as nat)]),
        entry_views(final(entries)@) == entry_views(old(entries)@) + rec_entries(seq![delete_rec(b as nat)], lv(ls@), rule@),
{
    let v: Vec<String> = Vec::new();
    assert(sv(v@) =~= Seq::<Seq<char>>::empty());
    emit_recovery(b, b, v, ls, rule, ops, entries);
}

fn emit_tighten_ops_for_item(item: &MdNode, ls: &Vec<Vec<char>>, heuristic: bool, ops: &mut Vec<FormatterOperation>, entries: &mut Vec<ReportEntry>)
    ensures
        views_wf(views(old(ops)@)) ==> views_wf(views(final(ops)@)),
        ({
            let ps = paragraphs_of(item.children@);
            let rs = tighten_pairs(ps, lv(ls@), heuristic, ps.len() - 1);
            &&& views(final(ops)@) == views(old(ops)@) + rec_ops(rs)
            &&& entry_views(final(entries)@) == entry_views(old(entries)@) + rec_entries(rs, lv(ls@), tighten_rule())
        }),
{
    let ghost o0 = views(ops@);
    let ghost e0 = entry_views(entries@);
    let ghost l = lv(ls@);
    proof {
        reveal_strlit("tighten-list-continuations");
    }
    let mut ps: Vec<&MdNode> = Vec::new();
    let mut i: usize = 0;
    while i < item.children.len()
        invariant
            views_wf(views(old(ops)@)) ==> views_wf(views(ops@)),
            i <= item.children.len(),
            crate::jsx::derefs(ps@) == paragraphs_of(item.children@.take(i as int)),
        decreases item.children.len() - i,
    {
        let ghost before = ps@;
        assert(item.children@.take(i + 1).drop_last() =~= item.children@.take(i as int));
        if item.children[i].kind == NodeKind::Paragraph {
            ps.push(&item.children[i]);
            assert(crate::jsx::derefs(ps@) =~= crate::jsx::derefs(before).push(item.children@[i as int]));
        }
        assert(paragraphs_of(item.children@.take(i + 1)) == ({
            let f = paragraphs_of(item.children@.take(i as int));
            if item.children@[i as int].kind == NodeKind::Paragraph { f.push(item.children@[i as int]) } else { f }
        })) by {
            let t = item.children@.take(i + 1);
            assert(t.drop_last() =~= item.children@.take(i as int));
            assert(t.last() == item.children@[i as int]);
            reveal(Seq::filter);
        }
        i += 1;
    }
    assert(item.children@.take(item.children.len() as int) =~= item.children@);
    let ghost pv = crate::jsx::derefs(ps@);
    if ps.len() < 2 {
        assert(tighten_pairs(pv, l, heuristic, pv.len() - 1) =~= Seq::empty());
        assert(views(ops@) =~= o0 + rec_ops(Seq::empty()));
        assert(entry_views(entries@) =~= e0 + rec_entries(Seq::empty(), l, tighten_rule()));
        return;
    }
    let mut k: usize = 1;
    assert(tighten_pairs(pv, l, heuristic, 0) =~= Seq::empty());
    while k < ps.len()
        invariant
            views_wf(views(old(ops)@)) ==> views_wf(views(ops@)),
            1 <= k <= ps.len(),
            l == lv(ls@),
            pv == crate::jsx::derefs(ps@),
            views(ops@) == o0 + rec_ops(tighten_pairs(pv, l, heuristic, k - 1)),
            entry_views(entries@) == e0 + rec_entries(tighten_pairs(pv, l, heuristic, k - 1), l, tighten_rule()),
        decreases ps.len() - k,
    {
        let ghost before = tighten_pairs(pv, l, heuristic, k - 1);
        let ghost add = tighten_pairs(pv, l, heuristic, k as int).skip(before.len() as int);
        assert(tighten_pairs(pv, l, heuristic, k as int) =~= before + add);
        assert(pv[k - 1] == *ps@[k - 1]);
        assert(pv[k as int] == *ps@[k as int]);
        let mut emitted = false;
        match (&ps[k - 1].position, &ps[k].position) {
            (Some(a), Some(b)) => {
                match single_blank_between_exec(line0_exec(a.end_line), line0_exec(b.start_line), ls) {
                    Some(bl) => {
                        if !(heuristic && !second_paragraph_looks_like_continuation(ls, line0_exec(b.start_line))) {
                            emit_deletion(bl, ls, "tighten-list-continuations", ops, entries);
                            emitted = true;
                            assert(add =~= seq![delete_rec(bl as nat)]);
                        }
                    },
                    None => {},
                }
            },
            _ => {},
        }
        if !emitted {
            assert(add =~= Seq::empty());
            assert(rec_ops(add) =~= Seq::<OpView>::empty());
            assert(rec_entries(add, l, tighten_rule()) =~= Seq::<EntryView>::empty());
        }
        proof {
            lemma_recs_add(before, add, l, tighten_rule());
        }
        k += 1;
    }
}

fn tighten_kids_exec(n: &MdNode, ls: &Vec<Vec<char>>, ds: &Vec<ListItemDetection>, heuristic: bool, ops: &mut Vec<FormatterOperation>, entries: &mut Vec<ReportEntry>)
    ensures
        views_wf(views(old(ops)@)) ==> views_wf(views(final(ops)@)),
        views(final(ops)@) == views(old(ops)@) + rec_ops(tighten_kids(*n, lv(ls@), det_views(ds@), heuristic, n.children@.len() as int)),
        entry_views(final(entries)@) == entry_views(old(entries)@) + rec_entries(tighten_kids(*n, lv(ls@), det_views(ds@), heuristic, n.children@.len() as int), lv(ls@), tighten_rule()),
    decreases n, 0nat, n.children@.len(),
{
    let ghost o0 = views(ops@);
    let ghost e0 = entry_views(entries@);
    let ghost l = lv(ls@);
    let ghost d = det_views(ds@);
    let mut i: usize = 0;
    while i < n.children.len()
        invariant
            views_wf(views(old(ops)@)) ==> views_wf(views(ops@)),
            i <= n.children.len(),
            l == lv(ls@),
            d == det_views(ds@),
            views(ops@) == o0 + rec_ops(tighten_kids(*n, l, d, heuristic, i as int)),
            entry_views(entries@) == e0 + rec_entries(tighten_kids(*n, l, d, heuristic, i as int), l, tighten_rule()),
        decreases n.children.len() - i,
    {
        walk_for_tighten(&n.children[i], ls, ds, heuristic, ops, entries);
        proof {
            lemma_recs_add(tighten_kids(*n, l, d, heuristic, i as int), tighten_recs(n.children@[i as int], l, d, heuristic), l, tighten_rule());
        }
        i += 1;
    }
}

/// Walk the tree, tightening every paragraphs-only list item.
pub fn walk_for_tighten(n: &MdNode, ls: &Vec<Vec<char>>, ds: &Vec<ListItemDetection>, heuristic: bool, ops: &mut Vec<FormatterOperation>, entries: &mut Vec<ReportEntry>)
    ensures
        views_wf(views(old(ops)@)) ==> views_wf(views(final(ops)@)),
        views(final(ops)@) == views(old(ops)@) + rec_ops(tighten_recs(*n, lv(ls@), det_views(ds@), heuristic)),
        entry_views(final(entries)@) == entry_views(old(entries)@) + rec_entries(tighten_recs(*n, lv(ls@), det_views(ds@), heuristic), lv(ls@), tighten_rule()),
    decreases n, 1nat, 0int,
{
    let ghost o0 = views(ops@);
    let ghost e0 = entry_views(entries@);
    let ghost l = lv(ls@);
    let ghost d = det_views(ds@);
    let ghost here = if n.kind == NodeKind::ListItem && n.position is Some && paragraphs_only_span(
        d,
        line0(n.position.unwrap().start_line) as usize,
        line0(n.position.unwrap().end_line) as usize,
    ) {
        let ps = paragraphs_of(n.children@);
        tighten_pairs(ps, l, heuristic, ps.len() - 1)
    } else {
        Seq::empty()
    };
    let mut did = false;
    if n.kind == NodeKind::ListItem {
        if let Some(p) = &n.position {
            if paragraphs_only_span_exec(ds, line0_exec(p.start_line), line0_exec(p.end_line)) {
                emit_tighten_ops_for_item(n, ls, heuristic, ops, entries);
                did = true;
            }
        }
    }
    if !did {
        assert(rec_ops(here) =~= Seq::<OpView>::empty());
        assert(rec_entries(here, l, tighten_rule()) =~= Seq::<EntryView>::empty());
    }
    let ghost rest = if has_kids(n.kind) { tighten_kids(*n, l, d, heuristic, n.children@.len() as int) } else { Seq::empty() };
    if has_children_kind(&n.kind) {
        tighten_kids_exec(n, ls, ds, heuristic, ops, entries);
    } else {
        assert(rec_ops(rest) =~= Seq::<OpView>::empty());
        assert(rec_entries(rest, l, tighten_rule()) =~= Seq::<EntryView>::empty());
    }
    proof {
        lemma_recs_add(here, rest, l, tighten_rule());
    }
}

/// Collapse a single blank line between adjacent paragraphs of
/// paragraphs-only list items (heuristic: when the second reads as a continuation).
pub fn apply_tighten_list_continuations(
    mode: TightenListContinuationsMode,
    ds: &Vec<ListItemDetection>,
    n: &MdNode,
    ls: &Vec<Vec<char>>,
    ops: &mut Vec<FormatterOperation>,
    entries: &mut Vec<ReportEntry>,
)
    ensures
        views_wf(views(old(ops)@)) ==> views_wf(views(final(ops)@)),
        ({
            let rs = tighten_continuations(*n, lv(ls@), det_views(ds@), mode);
            &&& views(final(ops)@) == views(old(ops)@) + rec_ops(rs)
            &&& entry_views(final(entries)@) == entry_views(old(entries)@) + rec_entries(rs, lv(ls@), tighten_rule())
        }),
{
    let ghost o0 = views(ops@);
    let ghost e0 = entry_views(entries@);
    let ghost d = det_views(ds@);
    let mut any = false;
    let mut k: usize = 0;
    while k < ds.len()
        invariant
            views_wf(views(old(ops)@)) ==> views_wf(views(ops@)),
            k <= ds.len(),
            d == det_views(ds@),
            any == exists|j: int| 0 <= j < k && (#[trigger] d[j]).shape == ListItemShape::ParagraphsOnly,
        decreases ds.len() - k,
    {
        if ds[k].shape == ListItemShape::ParagraphsOnly {
            assert(d[k as int].shape == ListItemShape::ParagraphsOnly);
            any = true;
        }
        k += 1;
    }
    if mode == TightenListContinuationsMode::Off || !any {
        assert(views(ops@) =~= o0 + rec_ops(Seq::empty()));
        assert(entry_views(entries@) =~= e0 + rec_entries(Seq::empty(), lv(ls@), tighten_rule()));
        return;
    }
    walk_for_tighten(n, ls, ds, mode == TightenListContinuationsMode::Heuristic, ops, entries);
}


// ---------------------------------------------------------------------------
// Tightening spacing between list items
// ---------------------------------------------------------------------------

/// The last detection of the item spanning lines `s..=e`.
pub open spec fn lookup_span(ds: Seq<DetView>, s: nat, e: nat) -> Option<DetView>
    decreases ds.len(),
{
    if ds.len() == 0 {
        None
    } else if ds.last().start_line == s && ds.last().end_line == e {
        Some(ds.last())
    } else {
        lookup_span(ds.drop_last(), s, e)
    }
}

pub open spec fn items_of(cs: Seq<MdNode>) -> Seq<MdNode> {
    cs.filter(|c: MdNode| c.kind == NodeKind::ListItem)
}

pub open spec fn span_det(item: MdNode, ds: Seq<DetView>) -> Option<DetView> {
    match item.position {
        Some(p) => lookup_span(ds, line0(p.start_line), line0(p.end_line)),
        None => None,
    }
}

pub open spec fn all_paragraphs_only(items: Seq<MdNode>, ds: Seq<DetView>) -> bool {
    forall|k: int| 0 <= k < items.len() ==> (match span_det(#[trigger] items[k], ds) {
        Some(d) => d.shape == ListItemShape::ParagraphsOnly,
        None => false,
    })
}

/// Deletions of single blank lines between consecutive items `0..=k`.
pub open spec fn spacing_pairs(items: Seq<MdNode>, ls: Seq<Seq<char>>, ds: Seq<DetView>, k: int) -> Seq<(nat, nat, Seq<Seq<char>>)>
    decreases k,
{
    if k <= 0 || k >= items.len() {
        Seq::empty()
    } else {
        spacing_pairs(items, ls, ds, k - 1) + match (span_det(items[k - 1], ds), span_det(items[k], ds)) {
            (Some(d1), Some(d2)) => {
                let e1 = match d1.last_child_line { Some(v) => v, None => d1.end_line };
                match single_blank_between(e1 as nat, d2.start_line as nat, ls) {
                    Some(bl) => seq![delete_rec(bl)],
                    None => Seq::empty(),
                }
            },
            _ => Seq::empty(),
        }
    }
}

pub open spec fn spacing_recs(n: MdNode, ls: Seq<Seq<char>>, ds: Seq<DetView>, aggressive: bool) -> Seq<(nat, nat, Seq<Seq<char>>)>
    decreases n, 1nat, 0int,
{
    let items = items_of(n.children@);
    let here = if n.kind == NodeKind::List && items.len() >= 2 && (aggressive || all_paragraphs_only(items, ds)) {
        spacing_pairs(items, ls, ds, items.len() - 1)
    } else {
        Seq::empty()
    };
    here + if has_kids(n.kind) { spacing_kids(n, ls, ds, aggressive, n.children@.len() as int) } else { Seq::empty() }
}

pub open spec fn spacing_kids(n: MdNode, ls: Seq<Seq<char>>, ds: Seq<DetView>, aggressive: bool, i: int) -> Seq<(nat, nat, Seq<Seq<char>>)>
    decreases n, 0nat, i,
{
    if i <= 0 || i > n.children@.len() {
        Seq::empty()
    } else {
        spacing_kids(n, ls, ds, aggressive, i - 1) + spacing_recs(n.children@[i - 1], ls, ds, aggressive)
    }
}

pub open spec fn item_spacing_rule() -> Seq<char> {
    "tighten-list-item-spacing"@
}

pub open spec fn tighten_item_spacing(n: MdNode, ls: Seq<Seq<char>>, ds: Seq<DetView>, mode: TightenListItemSpacingMode) -> Seq<(nat, nat, Seq<Seq<char>>)> {
    if mode == TightenListItemSpacingMode::Off {
        Seq::empty()
    } else {
        spacing_recs(n, ls, ds, mode == TightenListItemSpacingMode::Aggressive)
    }
}

fn lookup_span_exec(ds: &Vec<ListItemDetection>, s: usize, e: usize) -> (r: Option<usize>)
    ensures
        match r {
            Some(k) => k < ds.len() && lookup_span(det_views(ds@), s as nat, e as nat) == Some(det_view(ds@[k as int])),
            None => lookup_span(det_views(ds@), s as nat, e as nat) is None,
        },
{
    let ghost d = det_views(ds@);
    let mut k = ds.len();
    assert(d.take(k as int) =~= d);
    while k > 0
        invariant
            k <= ds.len(),
            d == det_views(ds@),
            lookup_span(d, s as nat, e as nat) == lookup_span(d.take(k as int), s as nat, e as nat),
        decreases k,
    {
        assert(d.take(k as int).drop_last() =~= d.take(k - 1));
        assert(d.take(k as int).last() == det_view(ds@[k - 1]));
        if ds[k - 1].start_line == s && ds[k - 1].end_line == e {
            return Some(k - 1);
        }
        k -= 1;
    }
    None
}

fn span_det_exec(item: &MdNode, ds: &Vec<ListItemDetection>) -> (r: Option<usize>)
    ensures
        match r {
            Some(k) => k < ds.len() && span_det(*item, det_views(ds@)) == Some(det_view(ds@[k as int])),
            None => span_det(*item, det_views(ds@)) is None,
        },
{
    match &item.position {
        Some(p) => lookup_span_exec(ds, line0_exec(p.start_line), line0_exec(p.end_line)),
        None => None,
    }
}

fn list_items_of(cs: &Vec<MdNode>) -> (r: Vec<&MdNode>)
    ensures
        crate::jsx::derefs(r@) == items_of(cs@),
{
    let mut ps: Vec<&MdNode> = Vec::new();
    let mut i: usize = 0;
    while i < cs.len()
        invariant
            i <= cs.len(),
            crate::jsx::derefs(ps@) == items_of(cs@.take(i as int)),
        decreases cs.len() - i,
    {
        let ghost before = ps@;
        if cs[i].kind == NodeKind::ListItem {
            ps.push(&cs[i]);
            assert(crate::jsx::derefs(ps@) =~= crate::jsx::derefs(before).push(cs@[i as int]));
        }
        assert(items_of(cs@.take(i + 1)) == ({
            let f = items_of(cs@.take(i as int));
            if cs@[i as int].kind == NodeKind::ListItem { f.push(cs@[i as int]) } else { f }
        })) by {
            let t = cs@.take(i + 1);
            assert(t.drop_last() =~= cs@.take(i as int));
            assert(t.last() == cs@[i as int]);
            reveal(Seq::filter);
        }
        i += 1;
    }
    assert(cs@.take(cs.len() as int) =~= cs@);
    ps
}

fn emit_spacing_pairs(items: &Vec<&MdNode>, ls: &Vec<Vec<char>>, ds: &Vec<ListItemDetection>, ops: &mut Vec<FormatterOperation>, entries: &mut Vec<ReportEntry>)
    requires
        items.len() >= 2,
    ensures
        views_wf(views(old(ops)@)) ==> views_wf(views(final(ops)@)),
        ({
            let iv = crate::jsx::derefs(items@);
            let rs = spacing_pairs(iv, lv(ls@), det_views(ds@), iv.len() - 1);
            &&& views(final(ops)@) == views(old(ops)@) + rec_ops(rs)
            &&& entry_views(final(entries)@) == entry_views(old(entries)@) + rec_entries(rs, lv(ls@), item_spacing_rule())
        }),
{
    let ghost o0 = views(ops@);
    let ghost e0 = entry_views(entries@);
    let ghost l = lv(ls@);
    let ghost d = det_views(ds@);
    let ghost iv = crate::jsx::derefs(items@);
    proof {
        reveal_strlit("tighten-list-item-spacing");
    }
    let mut k: usize = 1;
    assert(spacing_pairs(iv, l, d, 0) =~= Seq::empty());
    while k < items.len()
        invariant
            views_wf(views(old(ops)@)) ==> views_wf(views(ops@)),
            1 <= k <= items.len(),
            l == lv(ls@),
            d == det_views(ds@),
            iv == crate::jsx::derefs(items@),
            views(ops@) == o0 + rec_ops(spacing_pairs(iv, l, d, k - 1)),
            entry_views(entries@) == e0 + rec_entries(spacing_pairs(iv, l, d, k - 1), l, item_spacing_rule()),
        decreases items.len() - k,
    {
        let ghost before = spacing_pairs(iv, l, d, k - 1);
        let ghost add = spacing_pairs(iv, l, d, k as int).skip(before.len() as int);
        assert(spacing_pairs(iv, l, d, k as int) =~= before + add);
        assert(iv[k - 1] == *items@[k - 1]);
        assert(iv[k as int] == *items@[k as int]);
        let mut emitted = false;
        match (span_det_exec(items[k - 1], ds), span_det_exec(items[k], ds)) {
            (Some(a), Some(b)) => {
                let e1 = match ds[a].last_child_line { Some(v) => v, None => ds[a].end_line };
                match single_blank_between_exec(e1, ds[b].start_line, ls) {
                    Some(bl) => {
                        emit_deletion(bl, ls, "tighten-list-item-spacing", ops, entries);
                        emitted = true;
                        assert(add =~= seq![delete_rec(bl as nat)]);
                    },
                    None => {},
                }
            },
            _ => {},
        }
        if !emitted {
            assert(add =~= Seq::empty());
            assert(rec_ops(add) =~= Seq::<OpView>::empty());
            assert(rec_entries(add, l, item_spacing_rule()) =~= Seq::<EntryView>::empty());
        }
        proof {
            lemma_recs_add(before, add, l, item_spacing_rule());
        }
        k += 1;
    }
}

fn all_paragraphs_only_exec(items: &Vec<&MdNode>, ds: &Vec<ListItemDetection>) -> (r: bool)
    ensures
        r == all_paragraphs_only(crate::jsx::derefs(items@), det_views(ds@)),
{
    let ghost iv = crate::jsx::derefs(items@);
    let ghost d = det_views(ds@);
    let mut k: usize = 0;
    while k < items.len()
        invariant
            k <= items.len(),
            iv == crate::jsx::derefs(items@),
            d == det_views(ds@),
            forall|j: int| 0 <= j < k ==> (match span_det(#[trigger] iv[j], d) {
                Some(x) => x.shape == ListItemShape::ParagraphsOnly,
                None => false,
            }),
        decreases items.len() - k,
    {
        assert(iv[k as int] == *items@[k as int]);
        match span_det_exec(items[k], ds) {
            Some(a) => {
                if ds[a].shape != ListItemShape::ParagraphsOnly {
                    return false;
                }
            },
            None => {
                return false;
            },
        }
        k += 1;
    }
    true
}

fn spacing_kids_exec(n: &MdNode, ls: &Vec<Vec<char>>, ds: &Vec<ListItemDetection>, aggressive: bool, ops: &mut Vec<FormatterOperation>, entries: &mut Vec<ReportEntry>)
    ensures
        views_wf(views(old(ops)@)) ==> views_wf(views(final(ops)@)),
        views(final(ops)@) == views(old(ops)@) + rec_ops(spacing_kids(*n, lv(ls@), det_views(ds@), aggressive, n.children@.len() as int)),
        entry_views(final(entries)@) == entry_views(old(entries)@) + rec_entries(spacing_kids(*n, lv(ls@), det_views(ds@), aggressive, n.children@.len() as int), lv(ls@), item_spacing_rule()),
    decreases n, 0nat, n.children@.len(),
{
    let ghost o0 = views(ops@);
    let ghost e0 = entry_views(entries@);
    let ghost l = lv(ls@);
    let ghost d = det_views(ds@);
    let mut i: usize = 0;
    while i < n.children.len()
        invariant
            views_wf(views(old(ops)@)) ==> views_wf(views(ops@)),
            i <= n.children.len(),
            l == lv(ls@),
            d == det_views(ds@),
            views(ops@) == o0 + rec_ops(spacing_kids(*n, l, d, aggressive, i as int)),
            entry_views(entries@) == e0 + rec_entries(spacing_kids(*n, l, d, aggressive, i as int), l, item_spacing_rule()),
        decreases n.children.len() - i,
    {
        walk_for_tighten_list_item_spacing(&n.children[i], ls, ds, aggressive, ops, entries);
        proof {
            lemma_recs_add(spacing_kids(*n, l, d, aggressive, i as int), spacing_recs(n.children@[i as int], l, d, aggressive), l, item_spacing_rule());
        }
        i += 1;
    }
}

/// Walk the tree, collapsing single blank lines between sibling list items.
pub fn walk_for_tighten_list_item_spacing(n: &MdNode, ls: &Vec<Vec<char>>, ds: &Vec<ListItemDetection>, aggressive: bool, ops: &mut Vec<FormatterOperation>, entries: &mut Vec<ReportEntry>)
    ensures
        views_wf(views(old(ops)@)) ==> views_wf(views(final(ops)@)),
        views(final(ops)@) == views(old(ops)@) + rec_ops(spacing_recs(*n, lv(ls@), det_views(ds@), aggressive)),
        entry_views(final(entries)@) == entry_views(old(entries)@) + rec_entries(spacing_recs(*n, lv(ls@), det_views(ds@), aggressive), lv(ls@), item_spacing_rule()),
    decreases n, 1nat, 0int,
{
    let ghost l = lv(ls@);
    let ghost d = det_views(ds@);
    let ghost items = items_of(n.children@);
    let ghost here = if n.kind == NodeKind::List && items.len() >= 2 && (aggressive || all_paragraphs_only(items, d)) {
        spacing_pairs(items, l, d, items.len() - 1)
    } else {
        Seq::empty()
    };
    let mut did = false;
    if n.kind == NodeKind::List {
        let its = list_items_of(&n.children);
        if its.len() >= 2 && (aggressive || all_paragraphs_only_exec(&its, ds)) {
            emit_spacing_pairs(&its, ls, ds, ops, entries);
            did = true;
        }
    }
    if !did {
        assert(rec_ops(here) =~= Seq::<OpView>::empty());
        assert(rec_entries(here, l, item_spacing_rule()) =~= Seq::<EntryView>::empty());
    }
    let ghost rest = if has_kids(n.kind) { spacing_kids(*n, l, d, aggressive, n.children@.len() as int) } else { Seq::empty() };
    if has_children_kind(&n.kind) {
        spacing_kids_exec(n, ls, ds, aggressive, ops, entries);
    } else {
        assert(rec_ops(rest) =~= Seq::<OpView>::empty());
        assert(rec_entries(rest, l, item_spacing_rule()) =~= Seq::<EntryView>::empty());
    }
    proof {
        lemma_recs_add(here, rest, l, item_spacing_rule());
    }
}

/// Collapse single blank lines between sibling list items (heuristic: only
/// in lists whose items are all paragraphs-only).
pub fn apply_tighten_list_item_spacing(
    mode: TightenListItemSpacingMode,
    ds: &Vec<ListItemDetection>,
    n: &MdNode,
    ls: &Vec<Vec<char>>,
    ops: &mut Vec<FormatterOperation>,
    entries: &mut Vec<ReportEntry>,
)
    ensures
        views_wf(views(old(ops)@)) ==> views_wf(views(final(ops)@)),
        ({
            let rs = tighten_item_spacing(*n, lv(ls@), det_views(ds@), mode);
            &&& views(final(ops)@) == views(old(ops)@) + rec_ops(rs)
            &&& entry_views(final(entries)@) == entry_views(old(entries)@) + rec_entries(rs, lv(ls@), item_spacing_rule())
        }),
{
    if mode == TightenListItemSpacingMode::Off {
        assert(views(ops@) =~= views(old(ops)@) + rec_ops(Seq::empty()));
        assert(entry_views(entries@) =~= entry_views(old(entries)@) + rec_entries(Seq::empty(), lv(ls@), item_spacing_rule()));
        return;
    }
    walk_for_tighten_list_item_spacing(n, ls, ds, mode == TightenListItemSpacingMode::Aggressive, ops, entries);
}


// ---------------------------------------------------------------------------
// What a report entry's "before" holds
// ---------------------------------------------------------------------------

/// Every entry's `before` is the source snippet of its line range.
pub open spec fn befores_are_snippets(es: Seq<EntryView>, ls: Seq<Seq<char>>) -> bool {
    forall|k: int| 0 <= k < es.len() ==> (#[trigger] es[k]).before == snippet(ls, es[k].start_line, es[k].end_line)
}

pub proof fn lemma_befores_concat(a: Seq<EntryView>, b: Seq<EntryView>, ls: Seq<Seq<char>>)
    requires
        befores_are_snippets(a, ls),
        befores_are_snippets(b, ls),
    ensures
        befores_are_snippets(a + b, ls),
{
    assert forall|k: int| 0 <= k < (a + b).len() implies (#[trigger] (a + b)[k]).before == snippet(ls, (a + b)[k].start_line, (a + b)[k].end_line) by {
        if k < a.len() {
            assert((a + b)[k] == a[k]);
        } else {
            assert((a + b)[k] == b[k - a.len()]);
        }
    }
}

pub proof fn lemma_rec_entries_befores(rs: Seq<(nat, nat, Seq<Seq<char>>)>, ls: Seq<Seq<char>>, rule: Seq<char>)
    ensures
        befores_are_snippets(rec_entries(rs, ls, rule), ls),
{
}

proof fn lemma_code_recoveries_befores(ps: Seq<EscapedCodePattern>, ls: Seq<Seq<char>>, mode: RecoverEscapedCodeMode)
    ensures
        befores_are_snippets(code_recoveries(ps, ls, mode).1, ls),
    decreases ps.len(),
{
    if ps.len() > 0 {
        lemma_code_recoveries_befores(ps.drop_last(), ls, mode);
        let e2 = code_recovery(ps.last(), ls, mode).1;
        assert(befores_are_snippets(e2, ls));
        lemma_befores_concat(code_recoveries(ps.drop_last(), ls, mode).1, e2, ls);
    }
}

pub proof fn lemma_recover_code_befores(n: MdNode, ls: Seq<Seq<char>>, mode: RecoverEscapedCodeMode)
    ensures
        befores_are_snippets(recover_code(n, ls, mode).1, ls),
{
    if mode != RecoverEscapedCodeMode::Off {
        lemma_code_recoveries_befores(code_patterns(n, ls), ls, mode);
    }
}

proof fn lemma_para_emits_befores(rs: Seq<(nat, nat)>, ls: Seq<Seq<char>>, upper: nat, indent: Seq<char>)
    ensures
        befores_are_snippets(para_emits(rs, ls, upper, indent).1, ls),
    decreases rs.len(),
{
    if rs.len() > 0 {
        lemma_para_emits_befores(rs.drop_last(), ls, upper, indent);
        let e = para_emits(rs.drop_last(), ls, upper, indent).1;
        let r = para_emits(rs, ls, upper, indent).1;
        assert forall|k: int| 0 <= k < r.len() implies (#[trigger] r[k]).before == snippet(ls, r[k].start_line, r[k].end_line) by {
            if k < e.len() {
                assert(r[k] == e[k]);
            }
        }
    }
}

proof fn lemma_para_runs_befores(cs: Seq<MdNode>, ls: Seq<Seq<char>>, mode: RecoverEscapedParagraphsMode, i: int)
    ensures
        befores_are_snippets(para_runs(cs, ls, mode, i).1, ls),
    decreases cs.len() - i,
{
    if 0 <= i < cs.len() {
        if cs[i].kind == NodeKind::List {
            let j = para_end(cs, i + 1);
            lemma_para_end(cs, i + 1);
            let none = (Seq::<OpView>::empty(), Seq::<EntryView>::empty());
            let here = if j > i + 1 && j < cs.len() && cs[j].kind == NodeKind::List {
                recover_run(cs[i], cs[j], cs.subrange(i + 1, j), ls, mode)
            } else {
                none
            };
            if j > i + 1 && j < cs.len() && cs[j].kind == NodeKind::List {
                let l1 = cs[i];
                let l2 = cs[j];
                if !(l1.ordered != l2.ordered || l1.children@.len() == 0 || l2.children@.len() == 0) {
                    match (item_info(l1.children@.last(), ls), item_info(l2.children@[0], ls)) {
                        (Some((col1, ln1, ch1)), Some((col2, ln2, ch2))) => {
                            let cont = sat_add(col1 as usize, marker_width(trim_start(ls[ln1 as int])) as usize) as nat;
                            match para_ranges(cs.subrange(i + 1, j), cont) {
                                Some(rs) => { lemma_para_emits_befores(rs, ls, ln2, spaces(cont)); },
                                None => {},
                            }
                        },
                        _ => {},
                    }
                }
            }
            lemma_para_runs_befores(cs, ls, mode, j);
            lemma_befores_concat(here.1, para_runs(cs, ls, mode, j).1, ls);
        } else {
            lemma_para_runs_befores(cs, ls, mode, i + 1);
        }
    }
}

proof fn lemma_para_recs_befores(n: MdNode, ls: Seq<Seq<char>>, mode: RecoverEscapedParagraphsMode)
    ensures
        befores_are_snippets(para_recs(n, ls, mode).1, ls),
    decreases n, 1nat, 0int,
{
    lemma_para_runs_befores(kids_of(n), ls, mode, 0);
    if has_kids(n.kind) {
        lemma_para_kids_befores(n, ls, mode, n.children@.len() as int);
        lemma_befores_concat(para_runs(kids_of(n), ls, mode, 0).1, para_kids(n, ls, mode, n.children@.len() as int).1, ls);
    } else {
        lemma_befores_concat(para_runs(kids_of(n), ls, mode, 0).1, Seq::<EntryView>::empty(), ls);
    }
}

proof fn lemma_para_kids_befores(n: MdNode, ls: Seq<Seq<char>>, mode: RecoverEscapedParagraphsMode, i: int)
    ensures
        befores_are_snippets(para_kids(n, ls, mode, i).1, ls),
    decreases n, 0nat, i,
{
    if 0 < i <= n.children@.len() {
        lemma_para_kids_befores(n, ls, mode, i - 1);
        assert(decreases_to!(n => n.children));
        assert(decreases_to!(n.children => n.children@));
        assert(decreases_to!(n.children@ => n.children@[i - 1]));
        lemma_para_recs_befores(n.children@[i - 1], ls, mode);
        lemma_befores_concat(para_kids(n, ls, mode, i - 1).1, para_recs(n.children@[i - 1], ls, mode).1, ls);
    }
}

pub proof fn lemma_para_part_befores(n: MdNode, ls: Seq<Seq<char>>, mode: RecoverEscapedParagraphsMode)
    ensures
        befores_are_snippets(para_recs(n, ls, mode).1, ls),
{
    lemma_para_recs_befores(n, ls, mode);
}

} // verus!
