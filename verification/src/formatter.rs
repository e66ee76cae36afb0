//! The formatting pipeline: one pass (parse, collect every rule's
//! operations, apply them, post-process), the convergence loop, and the
//! public `format` entry points.
use vstd::prelude::*;
use crate::ast::{MdNode, NodeKind, tree_fits, lemma_child_fits};
use crate::ops::{
    OpView, views, views_wf, lemma_views_wf, apply_operations, applied, ops_wf, strings_of_lines,
    keep_if, not_overlapped_pred, not_inside_pred, sorted_ops, lemma_applied_views,
};
use crate::report::{ReportEntry, ReportSink, NullSink, VecSink, EntryView, entry_views, received_all, lemma_received_step};
use crate::text::{
    is_blank, lv, sv, split_lines, join_lines, chars_of, string_of, split_lines_vec, join_lines_vec,
    lemma_join_split, lemma_split_no_newline, lemma_join_append, lemma_split_join,
};
use crate::lines::{
    block_spacing, normalized, normalized_from, ensure_block_element_spacing, normalize_empty_lines,
    nonblank_lines, lemma_nonblank_lines_add, lemma_block_spacing_only_adds_blank_lines,
    lemma_block_spacing_newline_free, lemma_normalized_from_newline_free, lemma_normalize_keeps_text,
    lemma_normalized_lines_stable, lemma_normalized_ends_blank, lemma_normalized_two_empty_lines,
    no_triple_blank, starts_list_item, lemma_double_blank_only_before_list_item,
};
use crate::types::{
    FormatterOperation, FormatterSettings, RecoverEscapedCodeMode, RecoverEscapedTablesMode,
    RecoverEscapedParagraphsMode, TightenListContinuationsMode, TightenListItemSpacingMode,
};
use crate::rules::{
    spacing_ops, list_indentation_ops, html_block_ops, collect_spacing_operations,
    collect_list_indentation_operations, collect_html_block_operations,
};
use crate::jsx_rules::{
    jsx_format_ops, jsx_indent_ops, block_jsx_ops, collect_jsx_format_operations,
    collect_jsx_indent_operations, collect_block_jsx_empty_line_operations,
};
use crate::lists::{item_shapes, det_views, collect_list_item_shapes, collect_escaped_block_candidates};
use crate::list_rules::{
    recover_code, table_recs, para_recs, tighten_continuations, tighten_item_spacing, rec_ops,
    rec_entries, recover_table_rule, tighten_rule, item_spacing_rule,
    apply_recover_escaped_code_in_lists, apply_recover_escaped_tables_in_lists,
    apply_recover_escaped_paragraphs_in_lists, apply_tighten_list_continuations,
    apply_tighten_list_item_spacing, befores_are_snippets, lemma_befores_concat, lemma_rec_entries_befores,
    lemma_recover_code_befores, lemma_para_part_befores,
};
use crate::yaml_emit::{YamlValue, yaml_children, frontmatter_ops, lines_positive, collect_yaml_format_operations, parses_match, yaml_of, yaml_source};
use crate::parser::{try_parse, parsed_tree, parser_tree, tree_fits_exec, line_count};

verus! {

// ---------------------------------------------------------------------------
// What one pass does
// ---------------------------------------------------------------------------

pub open spec fn table_part(t: MdNode, ls: Seq<Seq<char>>, mode: RecoverEscapedTablesMode) -> Seq<(nat, nat, Seq<Seq<char>>)> {
    if mode == RecoverEscapedTablesMode::Off {
        Seq::empty()
    } else {
        table_recs(t, ls, 0, mode == RecoverEscapedTablesMode::Aggressive)
    }
}

pub open spec fn para_part(t: MdNode, ls: Seq<Seq<char>>, mode: RecoverEscapedParagraphsMode) -> (Seq<OpView>, Seq<EntryView>) {
    if mode == RecoverEscapedParagraphsMode::Off {
        (Seq::empty(), Seq::empty())
    } else {
        para_recs(t, ls, mode)
    }
}

/// The operations of every rule, in rule order: element spacing, JSX
/// layout, JSX indentation, block JSX blank lines, YAML frontmatter (given
/// what the YAML parser returned for each frontmatter, `ys`), list
/// indentation, the list-normalize rules, and HTML blocks.
pub open spec fn rule_ops(t: MdNode, ls: Seq<Seq<char>>, s: FormatterSettings, ys: Seq<Option<YamlValue>>) -> Seq<OpView> {
    let ln = s.list_normalize;
    let shapes = item_shapes(t, 0);
    (if s.add_empty_line_between_elements.enabled { spacing_ops(t, ls) } else { Seq::empty() })
        + (if s.format_multi_line_jsx.enabled || s.expand_single_line_jsx.enabled { jsx_format_ops(t, ls, s) } else { Seq::empty() })
        + (if s.indent_jsx_content.enabled { jsx_indent_ops(t, ls, s) } else { Seq::empty() })
        + (if s.add_empty_lines_in_block_jsx.enabled { block_jsx_ops(t, ls, s) } else { Seq::empty() })
        + (if s.format_yaml_frontmatter.enabled { frontmatter_ops(yaml_children(t), ys, s.format_yaml_frontmatter) } else { Seq::empty() })
        + list_indentation_ops(t, ls)
        + recover_code(t, ls, ln.recover_escaped_code_in_lists).0
        + rec_ops(table_part(t, ls, ln.recover_escaped_tables_in_lists))
        + para_part(t, ls, ln.recover_escaped_paragraphs_in_lists).0
        + rec_ops(tighten_continuations(t, ls, shapes, ln.tighten_list_continuations))
        + rec_ops(tighten_item_spacing(t, ls, shapes, ln.tighten_list_item_spacing))
        + (if s.format_html_blocks_in_mdx.enabled {
            html_block_ops(t, ls, s.format_html_blocks_in_mdx.formatter_config.tab_width as nat)
        } else {
            Seq::empty()
        })
}

/// The report entries of one pass, in rule order.
pub open spec fn rule_entries(t: MdNode, ls: Seq<Seq<char>>, s: FormatterSettings) -> Seq<EntryView> {
    let ln = s.list_normalize;
    let shapes = item_shapes(t, 0);
    recover_code(t, ls, ln.recover_escaped_code_in_lists).1
        + rec_entries(table_part(t, ls, ln.recover_escaped_tables_in_lists), ls, recover_table_rule())
        + para_part(t, ls, ln.recover_escaped_paragraphs_in_lists).1
        + rec_entries(tighten_continuations(t, ls, shapes, ln.tighten_list_continuations), ls, tighten_rule())
        + rec_entries(tighten_item_spacing(t, ls, shapes, ln.tighten_list_item_spacing), ls, item_spacing_rule())
}

/// Apply the operations, add blank lines between adjacent blocks, join, and
/// collapse runs of empty lines.
pub open spec fn finish(ls: Seq<Seq<char>>, ops: Seq<FormatterOperation>) -> Seq<char> {
    normalized(join_lines(block_spacing(applied(ls, ops))))
}

/// What the YAML parser returned for the frontmatters of `t` (when the
/// frontmatter rule is on): a value exactly where it accepted the text.
pub open spec fn yaml_results(t: MdNode, ys: Seq<Option<YamlValue>>, s: FormatterSettings) -> bool {
    &&& ys.len() == yaml_children(t).len()
    &&& s.format_yaml_frontmatter.enabled ==> parses_match(yaml_children(t), ys, s.format_yaml_frontmatter)
}

/// Every position of the parser's tree for `x` lies within `x`'s lines. (The
/// parser also breaks lines at a lone carriage return, which the line split
/// does not; its positions can then run past the last line.)
pub open spec fn parser_positions_fit(x: Seq<char>) -> bool {
    tree_fits(parsed_tree(x), split_lines(x).len())
}

/// `r` is what a pass over `c` with tree `t` makes: the operations of every
/// rule (given the YAML parser's values for the frontmatters) applied, then
/// `finish`.
pub open spec fn pass_with_tree(c: Seq<char>, t: MdNode, r: Seq<char>, s: FormatterSettings) -> bool {
    exists|ys: Seq<Option<YamlValue>>, ops: Seq<FormatterOperation>|
        #![trigger views(ops), rule_ops(t, split_lines(c), s, ys)]
        yaml_results(t, ys, s) && views(ops) == rule_ops(t, split_lines(c), s, ys) && r == finish(split_lines(c), ops)
}

/// `r` is what one pass makes of `c`: the rules run on the parser's tree;
/// where that tree's positions do not fit `c`'s lines, no rule runs and only
/// the whole-document passes (`finish` with no operation) apply.
pub open spec fn is_pass(c: Seq<char>, r: Seq<char>, s: FormatterSettings) -> bool {
    if parser_positions_fit(c) {
        pass_with_tree(c, parsed_tree(c), r, s)
    } else {
        r == finish(split_lines(c), Seq::empty())
    }
}

/// The sink went from `before` to `after` by receiving, in order, the report
/// entries of one pass over `c`: those of the parser's tree, or none where
/// no rule runs.
pub open spec fn pass_reported<S: ReportSink>(c: Seq<char>, s: FormatterSettings, before: S, after: S) -> bool {
    if parser_positions_fit(c) {
        exists|es: Seq<ReportEntry>| #![trigger entry_views(es)]
            entry_views(es) == rule_entries(parsed_tree(c), split_lines(c), s) && received_all(before, es, after)
    } else {
        after == before
    }
}

// ---------------------------------------------------------------------------
// One pass
// ---------------------------------------------------------------------------

/// Collect the operations and report entries of every enabled rule.
pub fn collect_operations(
    t: &MdNode,
    ls: &Vec<Vec<char>>,
    s: &FormatterSettings,
    ops: &mut Vec<FormatterOperation>,
    entries: &mut Vec<ReportEntry>,
) -> (ys: Ghost<Seq<Option<YamlValue>>>)
    requires
        tree_fits(*t, ls.len() as nat),
        old(ops)@.len() == 0,
        old(entries)@.len() == 0,
    ensures
        yaml_results(*t, ys@, *s),
        views(final(ops)@) == rule_ops(*t, lv(ls@), *s, ys@),
        views_wf(views(final(ops)@)),
        entry_views(final(entries)@) == rule_entries(*t, lv(ls@), *s),
{
    let ghost l = lv(ls@);
    let ghost empty_views = views(ops@);
    assert(views(ops@) =~= Seq::<OpView>::empty());
    assert(entry_views(entries@) =~= Seq::<EntryView>::empty());
    if s.add_empty_line_between_elements.enabled {
        collect_spacing_operations(t, ls, ops);
    }
    let ghost a1 = views(ops@);
    if s.format_multi_line_jsx.enabled || s.expand_single_line_jsx.enabled {
        collect_jsx_format_operations(t, ls, s, ops);
    }
    let ghost a2 = views(ops@);
    if s.indent_jsx_content.enabled {
        collect_jsx_indent_operations(t, ls, s, ops);
    }
    let ghost a3 = views(ops@);
    if s.add_empty_lines_in_block_jsx.enabled {
        collect_block_jsx_empty_line_operations(t, ls, s, ops);
    }
    let ghost a4 = views(ops@);
    let ghost mut ys: Seq<Option<YamlValue>> = Seq::empty();
    if s.format_yaml_frontmatter.enabled {
        assert forall|k: int| 0 <= k < t.children@.len() implies lines_positive(#[trigger] t.children@[k].position) by {
            lemma_child_fits(*t, ls.len() as nat, k);
        }
        let Ghost(got) = collect_yaml_format_operations(t, &s.format_yaml_frontmatter, ops);
        proof {
            ys = got;
        }
    } else {
        proof {
            ys = Seq::new(yaml_children(*t).len(), |k: int| None::<YamlValue>);
        }
    }
    let ghost a5 = views(ops@);
    collect_list_indentation_operations(t, ls, ops);
    let ghost a6 = views(ops@);
    let shapes = collect_list_item_shapes(t);
    // The escaped-block detection runs as part of the pipeline; the recovery
    // rules below read the tree directly.
    let _candidates = collect_escaped_block_candidates(t, ls);
    let ln = s.list_normalize;
    apply_recover_escaped_code_in_lists(ln.recover_escaped_code_in_lists, t, ls, ops, entries);
    let ghost a7 = views(ops@);
    let ghost e7 = entry_views(entries@);
    apply_recover_escaped_tables_in_lists(ln.recover_escaped_tables_in_lists, t, ls, ops, entries);
    let ghost a8 = views(ops@);
    let ghost e8 = entry_views(entries@);
    assert(a8 == a7 + rec_ops(table_part(*t, l, ln.recover_escaped_tables_in_lists)));
    assert(e8 == e7 + rec_entries(table_part(*t, l, ln.recover_escaped_tables_in_lists), l, recover_table_rule()));
    apply_recover_escaped_paragraphs_in_lists(ln.recover_escaped_paragraphs_in_lists, t, ls, ops, entries);
    let ghost a9 = views(ops@);
    let ghost e9 = entry_views(entries@);
    assert(a9 == a8 + para_part(*t, l, ln.recover_escaped_paragraphs_in_lists).0);
    assert(e9 == e8 + para_part(*t, l, ln.recover_escaped_paragraphs_in_lists).1);
    apply_tighten_list_continuations(ln.tighten_list_continuations, &shapes, t, ls, ops, entries);
    apply_tighten_list_item_spacing(ln.tighten_list_item_spacing, &shapes, t, ls, ops, entries);
    let ghost a11 = views(ops@);
    if s.format_html_blocks_in_mdx.enabled {
        collect_html_block_operations(t, ls, s.format_html_blocks_in_mdx.formatter_config.tab_width, ops);
    }
    assert(views(ops@) =~= rule_ops(*t, l, *s, ys));
    assert(entry_views(entries@) =~= rule_entries(*t, l, *s));
    Ghost(ys)
}

/// One formatting pass over `content` with a given tree: the operations of
/// every rule are applied, blank lines are added between adjacent block
/// elements, and empty-line runs are collapsed. Also returns the report
/// entries of the pass.
pub fn format_with_tree(content: &str, t: &MdNode, s: &FormatterSettings) -> (r: (String, Vec<ReportEntry>))
    requires
        tree_fits(*t, split_lines(content@).len()),
    ensures
        exists|ys: Seq<Option<YamlValue>>, ops: Seq<FormatterOperation>|
            #![trigger views(ops), rule_ops(*t, split_lines(content@), *s, ys)]
            yaml_results(*t, ys, *s) && views(ops) == rule_ops(*t, split_lines(content@), *s, ys)
                && r.0@ == finish(split_lines(content@), ops),
        entry_views(r.1@) == rule_entries(*t, split_lines(content@), *s),
{
    let c = chars_of(content);
    let ls = split_lines_vec(&c);
    let mut ops: Vec<FormatterOperation> = Vec::new();
    let mut entries: Vec<ReportEntry> = Vec::new();
    let Ghost(ys) = collect_operations(t, &ls, s, &mut ops, &mut entries);
    proof {
        lemma_views_wf(ops@);
    }
    let ghost opsv = ops@;
    let strs = strings_of_lines(&ls);
    let mut result_lines = apply_operations(strs, ops);
    ensure_block_element_spacing(&mut result_lines);
    let joined = join_strings(&result_lines);
    let out = normalize_empty_lines(joined.as_str());
    assert(out@ == finish(split_lines(content@), opsv));
    (out, entries)
}

/// Lines joined with `\n`.
pub fn join_strings(v: &Vec<String>) -> (r: String)
    ensures
        r@ == join_lines(sv(v@)),
{
    let mut ls: Vec<Vec<char>> = Vec::new();
    let mut i: usize = 0;
    while i < v.len()
        invariant
            i <= v.len(),
            lv(ls@) == sv(v@).take(i as int),
        decreases v.len() - i,
    {
        let c = chars_of(v[i].as_str());
        let ghost prev = ls@;
        ls.push(c);
        assert(lv(ls@) =~= lv(prev).push(c@));
        assert(sv(v@).take(i + 1) =~= sv(v@).take(i as int).push(v@[i as int]@));
        i += 1;
    }
    assert(sv(v@).take(v.len() as int) =~= sv(v@));
    let j = join_lines_vec(&ls);
    string_of(&j)
}

/// Hand the entries to `sink`, in order.
fn emit_all<S: ReportSink>(entries: Vec<ReportEntry>, sink: &mut S)
    ensures
        received_all(*old(sink), entries@, *final(sink)),
{
    let ghost all = entries@;
    let ghost start = *sink;
    assert(all.len() == entries.len());
    let mut rest = entries;
    let mut k: usize = 0;
    assert(all.take(0) =~= Seq::<ReportEntry>::empty());
    while rest.len() > 0
        invariant
            k <= all.len(),
            rest@ == all.skip(k as int),
            all.len() <= usize::MAX,
            start == *old(sink),
            received_all(start, all.take(k as int), *sink),
        decreases rest.len(),
    {
        let ghost mid = *sink;
        assert(k < all.len()) by {
            if k >= all.len() {
                assert(all.skip(k as int).len() == 0);
            }
        }
        let e = rest.remove(0);
        assert(e == all[k as int]);
        sink.emit(e);
        proof {
            lemma_received_step(start, all.take(k as int), mid, e, *sink);
            assert(all.take(k as int).push(e) =~= all.take(k + 1));
            assert(rest@ =~= all.skip(k + 1));
        }
        k += 1;
    }
    assert(all.take(k as int) =~= all);
}

/// Single formatting pass: parse, collect operations, apply them; report
/// entries go to `sink`. Where the parser's positions run past the text's
/// lines (it breaks lines at a lone carriage return, the line split does
/// not), no rule runs: only the whole-document passes apply, and nothing is
/// reported.
pub fn format_once<S: ReportSink>(content: &str, s: &FormatterSettings, sink: &mut S) -> (r: String)
    ensures
        is_pass(content@, r@, *s),
        pass_reported(content@, *s, *old(sink), *final(sink)),
{
    let t = parser_tree(content);
    let n = line_count(content);
    if tree_fits_exec(&t, n) {
        let (out, entries) = format_with_tree(content, &t, s);
        let ghost es = entries@;
        emit_all(entries, sink);
        assert(pass_with_tree(content@, t, out@, *s));
        assert(entry_views(es) == rule_entries(t, split_lines(content@), *s));
        out
    } else {
        finish_without_operations(content)
    }
}

/// The whole-document passes alone: blank lines between adjacent blocks,
/// then empty-line normalization.
fn finish_without_operations(content: &str) -> (r: String)
    ensures
        r@ == finish(split_lines(content@), Seq::empty()),
{
    let c = chars_of(content);
    let ls = split_lines_vec(&c);
    let ops: Vec<FormatterOperation> = Vec::new();
    let strs = strings_of_lines(&ls);
    let mut result_lines = apply_operations(strs, ops);
    ensure_block_element_spacing(&mut result_lines);
    let joined = join_strings(&result_lines);
    let out = normalize_empty_lines(joined.as_str());
    assert(out@ == finish(split_lines(content@), Seq::<FormatterOperation>::empty()));
    out
}

// ---------------------------------------------------------------------------
// Convergence and the public entry points
// ---------------------------------------------------------------------------

/// The third pass of the loop: `x3` is a pass over `x2`; if it changes
/// nothing the loop returns `x2`, else the loop gives up and returns `c`.
pub open spec fn third_step(c: Seq<char>, x2: Seq<char>, r: Seq<char>, s: FormatterSettings) -> bool {
    exists|x3: Seq<char>| #![trigger is_pass(x2, x3, s)]
        is_pass(x2, x3, s) && (x3 == x2 ==> r == x2) && (x3 != x2 ==> r == c)
}

/// The second pass of the loop: `x2` is a pass over `x1`; if it changes
/// nothing the loop returns `x1`, else a third pass follows.
pub open spec fn second_step(c: Seq<char>, x1: Seq<char>, r: Seq<char>, s: FormatterSettings) -> bool {
    exists|x2: Seq<char>| #![trigger is_pass(x1, x2, s)]
        is_pass(x1, x2, s) && (x2 == x1 ==> r == x1) && (x2 != x1 ==> third_step(c, x2, r, s))
}

/// What the convergence loop returns for `c`: passes are repeated (at most
/// three) until one leaves its input unchanged, and that input is returned;
/// when the third pass still changes its input, `c` itself is returned.
pub open spec fn converged(c: Seq<char>, r: Seq<char>, s: FormatterSettings) -> bool {
    exists|x1: Seq<char>| #![trigger is_pass(c, x1, s)]
        is_pass(c, x1, s) && (x1 == c ==> r == c) && (x1 != c ==> second_step(c, x1, r, s))
}

fn same_text(a: &String, b: &String) -> (r: bool)
    ensures
        r == (a@ == b@),
{
    let x = chars_of(a.as_str());
    let y = chars_of(b.as_str());
    crate::html_formatter::seq_eq(&x, &y)
}

/// Repeat passes until the output stabilizes (at most three passes); only
/// the first pass reports to `sink`. Content that has not stabilized after
/// three passes is returned unchanged, so a run never leaves a text that its
/// own next pass would still change.
pub fn run_convergence_loop<S: ReportSink>(content: &str, s: &FormatterSettings, sink: &mut S) -> (r: String)
    ensures
        converged(content@, r@, *s),
        pass_reported(content@, *s, *old(sink), *final(sink)),
{
    let original = string_of(&chars_of(content));
    let first = format_once(content, s, sink);
    if same_text(&first, &original) {
        return original;
    }
    let mut null = NullSink;
    let second = format_once(first.as_str(), s, &mut null);
    if same_text(&second, &first) {
        return first;
    }
    let third = format_once(second.as_str(), s, &mut null);
    if same_text(&third, &second) {
        return second;
    }
    original
}

/// Format markdown / MDX content with the convergence loop. With
/// `throw_on_error` set, a parse failure would be an error; parsing falls
/// back to plain markdown, which always parses.
pub fn format(content: &str, s: &FormatterSettings) -> (r: String)
    ensures
        converged(content@, r@, *s),
{
    let mut sink = NullSink;
    format_with_sink(content, s, &mut sink)
}

/// Like `format`, also reporting the first pass's changes to `sink`.
pub fn format_with_sink<S: ReportSink>(content: &str, s: &FormatterSettings, sink: &mut S) -> (r: String)
    ensures
        converged(content@, r@, *s),
        pass_reported(content@, *s, *old(sink), *final(sink)),
{
    if s.error_handling.throw_on_error {
        match try_format_with_sink(content, s, sink) {
            Ok(r) => r,
            Err(_) => string_of(&chars_of(content)),
        }
    } else {
        run_convergence_loop(content, s, sink)
    }
}

/// Format, reporting a parse failure as an error instead of falling back
/// (the markdown fallbacks do not fail, so the result is `Ok`).
pub fn try_format(content: &str, s: &FormatterSettings) -> (r: Result<String, String>)
    ensures
        r is Ok,
        r matches Ok(x) ==> converged(content@, x@, *s),
{
    let mut sink = NullSink;
    try_format_with_sink(content, s, &mut sink)
}

/// Like `try_format`, also reporting the first pass's changes to `sink`.
pub fn try_format_with_sink<S: ReportSink>(content: &str, s: &FormatterSettings, sink: &mut S) -> (r: Result<String, String>)
    ensures
        r is Ok,
        r matches Ok(x) ==> converged(content@, x@, *s),
        pass_reported(content@, *s, *old(sink), *final(sink)),
{
    match try_parse(content) {
        Err(e) => Err(e),
        Ok(_) => Ok(run_convergence_loop(content, s, sink)),
    }
}

// ---------------------------------------------------------------------------
// Laws
// ---------------------------------------------------------------------------

/// Content that every pass leaves unchanged is returned unchanged.
pub proof fn lemma_stable_content_is_kept(c: Seq<char>, r: Seq<char>, s: FormatterSettings)
    requires
        forall|x: Seq<char>| is_pass(c, x, s) ==> x == c,
        converged(c, r, s),
    ensures
        r == c,
{
    let x1 = choose|x1: Seq<char>| is_pass(c, x1, s) && (x1 == c ==> r == c) && (x1 != c ==> second_step(c, x1, r, s));
    assert(x1 == c);
}

/// The loop returns its input unchanged, or a text that one pass leaves
/// unchanged.
pub proof fn lemma_result_is_input_or_fixpoint(c: Seq<char>, r: Seq<char>, s: FormatterSettings)
    requires
        converged(c, r, s),
    ensures
        r == c || is_pass(r, r, s),
{
    let x1 = choose|x1: Seq<char>| is_pass(c, x1, s) && (x1 == c ==> r == c) && (x1 != c ==> second_step(c, x1, r, s));
    if x1 != c {
        let x2 = choose|x2: Seq<char>| is_pass(x1, x2, s) && (x2 == x1 ==> r == x1) && (x2 != x1 ==> third_step(c, x2, r, s));
        if x2 == x1 {
            assert(is_pass(r, r, s));
        } else {
            let x3 = choose|x3: Seq<char>| is_pass(x2, x3, s) && (x3 == x2 ==> r == x2) && (x3 != x2 ==> r == c);
            if x3 == x2 {
                assert(is_pass(r, r, s));
            }
        }
    }
}

/// One pass is a function of its input: two passes over the same text give
/// the same result.
pub proof fn lemma_pass_unique(c: Seq<char>, a: Seq<char>, b: Seq<char>, s: FormatterSettings)
    requires
        is_pass(c, a, s),
        is_pass(c, b, s),
    ensures
        a == b,
{
    if parser_positions_fit(c) {
        let ls = split_lines(c);
        let t = parsed_tree(c);
        let (ysa, opsa) = choose|ys: Seq<Option<YamlValue>>, ops: Seq<FormatterOperation>|
            yaml_results(t, ys, s) && views(ops) == rule_ops(t, ls, s, ys) && a == finish(ls, ops);
        let (ysb, opsb) = choose|ys: Seq<Option<YamlValue>>, ops: Seq<FormatterOperation>|
            yaml_results(t, ys, s) && views(ops) == rule_ops(t, ls, s, ys) && b == finish(ls, ops);
        if s.format_yaml_frontmatter.enabled {
            assert forall|k: int| 0 <= k < ysa.len() implies ysa[k] == ysb[k] by {
                assert(ysa[k] == yaml_of(yaml_source(yaml_children(t)[k], s.format_yaml_frontmatter)));
                assert(ysb[k] == yaml_of(yaml_source(yaml_children(t)[k], s.format_yaml_frontmatter)));
            }
            assert(ysa =~= ysb);
        }
        assert(rule_ops(t, ls, s, ysa) == rule_ops(t, ls, s, ysb));
        lemma_applied_views(ls, opsa, opsb);
    }
}

/// The loop is a function of its input: two runs over the same content
/// return the same text.
pub proof fn lemma_converged_unique(c: Seq<char>, a: Seq<char>, b: Seq<char>, s: FormatterSettings)
    requires
        converged(c, a, s),
        converged(c, b, s),
    ensures
        a == b,
{
    let x1a = choose|x1: Seq<char>| is_pass(c, x1, s) && (x1 == c ==> a == c) && (x1 != c ==> second_step(c, x1, a, s));
    let x1b = choose|x1: Seq<char>| is_pass(c, x1, s) && (x1 == c ==> b == c) && (x1 != c ==> second_step(c, x1, b, s));
    lemma_pass_unique(c, x1a, x1b, s);
    let x1 = x1a;
    if x1 != c {
        let x2a = choose|x2: Seq<char>| is_pass(x1, x2, s) && (x2 == x1 ==> a == x1) && (x2 != x1 ==> third_step(c, x2, a, s));
        let x2b = choose|x2: Seq<char>| is_pass(x1, x2, s) && (x2 == x1 ==> b == x1) && (x2 != x1 ==> third_step(c, x2, b, s));
        lemma_pass_unique(x1, x2a, x2b, s);
        let x2 = x2a;
        if x2 != x1 {
            let x3a = choose|x3: Seq<char>| is_pass(x2, x3, s) && (x3 == x2 ==> a == x2) && (x3 != x2 ==> a == c);
            let x3b = choose|x3: Seq<char>| is_pass(x2, x3, s) && (x3 == x2 ==> b == x2) && (x3 != x2 ==> b == c);
            lemma_pass_unique(x2, x3a, x3b, s);
        }
    }
}

/// Formatting is idempotent: formatting the result of a run again gives the
/// same text back.
pub proof fn lemma_format_idempotent(c: Seq<char>, r: Seq<char>, r2: Seq<char>, s: FormatterSettings)
    requires
        converged(c, r, s),
        converged(r, r2, s),
    ensures
        r2 == r,
{
    lemma_result_is_input_or_fixpoint(c, r, s);
    if r == c {
        lemma_converged_unique(c, r, r2, s);
    } else {
        assert forall|x: Seq<char>| is_pass(r, x, s) implies x == r by {
            lemma_pass_unique(r, x, r, s);
        }
        lemma_stable_content_is_kept(r, r2, s);
    }
}

/// The loop's result in terms of three successive passes: where `p1`, `p2`
/// and `p3` are the passes over `c`, `p1` and `p2`, the loop returns `c` if
/// `p1` leaves it unchanged, else `p1` if `p2` leaves that unchanged, else
/// `p2` if `p3` leaves that unchanged, and otherwise `c` itself.
pub proof fn lemma_converged_by_passes(c: Seq<char>, r: Seq<char>, p1: Seq<char>, p2: Seq<char>, p3: Seq<char>, s: FormatterSettings)
    requires
        converged(c, r, s),
        is_pass(c, p1, s),
        is_pass(p1, p2, s),
        is_pass(p2, p3, s),
    ensures
        r == (if p1 == c { c } else if p2 == p1 { p1 } else if p3 == p2 { p2 } else { c }),
{
    let x1 = choose|x1: Seq<char>| is_pass(c, x1, s) && (x1 == c ==> r == c) && (x1 != c ==> second_step(c, x1, r, s));
    lemma_pass_unique(c, x1, p1, s);
    if x1 != c {
        let x2 = choose|x2: Seq<char>| is_pass(x1, x2, s) && (x2 == x1 ==> r == x1) && (x2 != x1 ==> third_step(c, x2, r, s));
        lemma_pass_unique(x1, x2, p2, s);
        if x2 != x1 {
            let x3 = choose|x3: Seq<char>| is_pass(x2, x3, s) && (x3 == x2 ==> r == x2) && (x3 != x2 ==> r == c);
            lemma_pass_unique(x2, x3, p3, s);
        }
    }
}

/// Every report entry of a pass shows, as its "before" lines, the source
/// lines of its range (clamped to the text): so the entries a sink receives
/// describe changes against the original content.
pub proof fn lemma_report_befores(t: MdNode, ls: Seq<Seq<char>>, s: FormatterSettings)
    ensures
        befores_are_snippets(rule_entries(t, ls, s), ls),
{
    let ln = s.list_normalize;
    let shapes = item_shapes(t, 0);
    lemma_recover_code_befores(t, ls, ln.recover_escaped_code_in_lists);
    lemma_rec_entries_befores(table_part(t, ls, ln.recover_escaped_tables_in_lists), ls, recover_table_rule());
    if ln.recover_escaped_paragraphs_in_lists != RecoverEscapedParagraphsMode::Off {
        lemma_para_part_befores(t, ls, ln.recover_escaped_paragraphs_in_lists);
    } else {
        assert(befores_are_snippets(para_part(t, ls, ln.recover_escaped_paragraphs_in_lists).1, ls));
    }
    lemma_rec_entries_befores(tighten_continuations(t, ls, shapes, ln.tighten_list_continuations), ls, tighten_rule());
    lemma_rec_entries_befores(tighten_item_spacing(t, ls, shapes, ln.tighten_list_item_spacing), ls, item_spacing_rule());
    let a = recover_code(t, ls, ln.recover_escaped_code_in_lists).1;
    let b = rec_entries(table_part(t, ls, ln.recover_escaped_tables_in_lists), ls, recover_table_rule());
    let c = para_part(t, ls, ln.recover_escaped_paragraphs_in_lists).1;
    let d = rec_entries(tighten_continuations(t, ls, shapes, ln.tighten_list_continuations), ls, tighten_rule());
    let e = rec_entries(tighten_item_spacing(t, ls, shapes, ln.tighten_list_item_spacing), ls, item_spacing_rule());
    lemma_befores_concat(a, b, ls);
    lemma_befores_concat(a + b, c, ls);
    lemma_befores_concat(a + b + c, d, ls);
    lemma_befores_concat(a + b + c + d, e, ls);
}

/// With every list-normalize rule off, a pass reports no changes.
pub proof fn lemma_list_normalize_off_reports_nothing(t: MdNode, ls: Seq<Seq<char>>, s: FormatterSettings)
    requires
        s.list_normalize.tighten_list_continuations == TightenListContinuationsMode::Off,
        s.list_normalize.tighten_list_item_spacing == TightenListItemSpacingMode::Off,
        s.list_normalize.recover_escaped_code_in_lists == RecoverEscapedCodeMode::Off,
        s.list_normalize.recover_escaped_tables_in_lists == RecoverEscapedTablesMode::Off,
        s.list_normalize.recover_escaped_paragraphs_in_lists == RecoverEscapedParagraphsMode::Off,
    ensures
        rule_entries(t, ls, s) == Seq::<EntryView>::empty(),
{
    let e = Seq::<(nat, nat, Seq<Seq<char>>)>::empty();
    assert(rec_entries(e, ls, recover_table_rule()) =~= Seq::<EntryView>::empty());
    assert(rec_entries(e, ls, tighten_rule()) =~= Seq::<EntryView>::empty());
    assert(rec_entries(e, ls, item_spacing_rule()) =~= Seq::<EntryView>::empty());
    assert(rule_entries(t, ls, s) =~= Seq::<EntryView>::empty());
}

proof fn lemma_split_push_newline(j: Seq<char>)
    ensures
        split_lines(j.push('\n')) == split_lines(j).push(Seq::<char>::empty()),
{
    let ls = split_lines(j);
    lemma_join_split(j);
    lemma_split_no_newline(j);
    let e = Seq::<char>::empty();
    lemma_join_append(ls, seq![e]);
    assert(join_lines(seq![e]) == e);
    assert(join_lines(ls.push(e)) =~= j.push('\n')) by {
        assert(ls + seq![e] =~= ls.push(e));
    }
    assert forall|k: int, i: int| 0 <= k < ls.push(e).len() && 0 <= i < ls.push(e)[k].len() implies ls.push(e)[k][i] != '\n' by {
        assert(k < ls.len());
        assert(ls.push(e)[k] == ls[k]);
    }
    lemma_split_join(ls.push(e));
}

/// Empty-line normalization is idempotent: normalizing its output again
/// changes nothing.
pub proof fn lemma_normalize_idempotent(c: Seq<char>)
    ensures
        normalized(normalized(c)) == normalized(c),
{
    let ls = split_lines(c);
    lemma_join_split(c);
    lemma_split_no_newline(c);
    lemma_normalized_from_newline_free(ls, 0);
    let x = normalized_from(ls, 0);
    let j = join_lines(x);
    lemma_split_join(x);
    lemma_normalized_lines_stable(ls);
    let out = normalized(c);
    if out == j {
        assert(split_lines(out) == x);
        assert(normalized(out) == out);
    } else {
        assert(c.drop_last().push('\n') =~= c);
        lemma_split_push_newline(c.drop_last());
        assert(ls.last() == Seq::<char>::empty());
        lemma_normalized_ends_blank(ls, 0);
        if x.len() >= 2 {
            assert(j == join_lines(x.drop_last()) + seq!['\n'] + x.last());
            assert(j.last() == '\n');
        }
        assert(x.len() == 1);
        assert(x =~= seq![Seq::<char>::empty()]);
        assert(j == Seq::<char>::empty());
        assert(out =~= seq!['\n']);
        lemma_split_push_newline(Seq::<char>::empty());
        assert(Seq::<char>::empty().push('\n') =~= seq!['\n']);
        assert(split_lines(Seq::<char>::empty()) =~= seq![Seq::<char>::empty()]);
        assert(split_lines(out) =~= seq![Seq::<char>::empty(), Seq::<char>::empty()]);
        lemma_normalized_two_empty_lines();
    }
}

/// Empty-line normalization over a whole text: the non-blank lines come out
/// unchanged and in order, every blank line left is empty, no three blank
/// lines follow each other, a final newline is kept, and normalizing again
/// changes nothing.
pub proof fn lemma_normalize_text(c: Seq<char>)
    ensures
        nonblank_lines(split_lines(normalized(c))) == nonblank_lines(split_lines(c)),
        forall|k: int| 0 <= k < split_lines(normalized(c)).len() && is_blank(#[trigger] split_lines(normalized(c))[k])
            ==> split_lines(normalized(c))[k] == Seq::<char>::empty(),
        no_triple_blank(split_lines(normalized(c))),
        c.len() > 0 && c.last() == '\n' ==> normalized(c).len() > 0 && normalized(c).last() == '\n',
        normalized(normalized(c)) == normalized(c),
{
    lemma_normalize_idempotent(c);
    lemma_normalize_keeps_text(c);
    let ls = split_lines(c);
    lemma_join_split(c);
    lemma_split_no_newline(c);
    lemma_normalized_from_newline_free(ls, 0);
    let x = normalized_from(ls, 0);
    let j = join_lines(x);
    lemma_split_join(x);
    let out = normalized(c);
    if out != j {
        assert(c.drop_last().push('\n') =~= c);
        lemma_split_push_newline(c.drop_last());
        lemma_normalized_ends_blank(ls, 0);
        if x.len() >= 2 {
            assert(j == join_lines(x.drop_last()) + seq!['\n'] + x.last());
        }
        assert(x =~= seq![Seq::<char>::empty()]);
        assert(out =~= seq!['\n']);
        lemma_split_push_newline(Seq::<char>::empty());
        assert(Seq::<char>::empty().push('\n') =~= seq!['\n']);
        assert(split_lines(Seq::<char>::empty()) =~= seq![Seq::<char>::empty()]);
        let e = Seq::<char>::empty();
        assert(split_lines(out) =~= x.push(e));
        lemma_nonblank_lines_add(x, seq![e]);
        assert(x + seq![e] =~= x.push(e));
        assert(seq![e].skip(1) =~= Seq::<Seq<char>>::empty());
        assert(nonblank_lines(Seq::<Seq<char>>::empty()) =~= Seq::<Seq<char>>::empty());
        assert(nonblank_lines(seq![e]) =~= Seq::<Seq<char>>::empty());
        assert(nonblank_lines(x.push(e)) =~= nonblank_lines(x));
    }
}

/// Over a whole text: after empty-line normalization, two blank lines in a
/// row are followed by a list-item marker line.
pub proof fn lemma_normalize_double_blank_text(c: Seq<char>)
    ensures
        forall|k: int| 0 <= k && k + 2 < split_lines(normalized(c)).len()
            && is_blank(#[trigger] split_lines(normalized(c))[k]) && is_blank(split_lines(normalized(c))[k + 1])
            ==> starts_list_item(split_lines(normalized(c))[k + 2]),
{
    let ls = split_lines(c);
    lemma_join_split(c);
    lemma_split_no_newline(c);
    lemma_normalized_from_newline_free(ls, 0);
    let x = normalized_from(ls, 0);
    let j = join_lines(x);
    lemma_split_join(x);
    lemma_double_blank_only_before_list_item(ls);
    let out = normalized(c);
    if out != j {
        assert(c.drop_last().push('\n') =~= c);
        lemma_split_push_newline(c.drop_last());
        lemma_normalized_ends_blank(ls, 0);
        if x.len() >= 2 {
            assert(j == join_lines(x.drop_last()) + seq!['\n'] + x.last());
        }
        assert(x =~= seq![Seq::<char>::empty()]);
        assert(out =~= seq!['\n']);
        lemma_split_push_newline(Seq::<char>::empty());
        assert(Seq::<char>::empty().push('\n') =~= seq!['\n']);
        assert(split_lines(Seq::<char>::empty()) =~= seq![Seq::<char>::empty()]);
        assert(split_lines(out).len() == 2);
    }
}

/// The output of every pass is already normalized: empty-line normalization
/// leaves it unchanged.
pub proof fn lemma_pass_output_normalized(c: Seq<char>, r: Seq<char>, s: FormatterSettings)
    requires
        is_pass(c, r, s),
    ensures
        normalized(r) == r,
{
    let ls = split_lines(c);
    if parser_positions_fit(c) {
        let t = parsed_tree(c);
        let (ys, ops) = choose|ys: Seq<Option<YamlValue>>, ops: Seq<FormatterOperation>|
            yaml_results(t, ys, s) && views(ops) == rule_ops(t, ls, s, ys) && r == finish(ls, ops);
        lemma_normalize_idempotent(join_lines(block_spacing(applied(ls, ops))));
    } else {
        lemma_normalize_idempotent(join_lines(block_spacing(applied(ls, Seq::<FormatterOperation>::empty()))));
    }
}

/// A pass whose rules produce no operation changes only blank lines: the
/// non-blank lines of its output are those of its input, in order.
pub proof fn lemma_no_operations_keeps_text(c: Seq<char>)
    ensures
        nonblank_lines(split_lines(finish(split_lines(c), Seq::empty()))) == nonblank_lines(split_lines(c)),
{
    let ls = split_lines(c);
    let none = Seq::<FormatterOperation>::empty();
    assert(keep_if(none, not_overlapped_pred(none)) =~= none);
    assert(keep_if(none, not_inside_pred(none)) =~= none);
    assert(sorted_ops(none) =~= none);
    assert(applied(ls, none) == ls);
    lemma_join_split(c);
    lemma_split_no_newline(c);
    lemma_block_spacing_only_adds_blank_lines(ls);
    lemma_block_spacing_newline_free(ls);
    let b = block_spacing(ls);
    lemma_split_join(b);
    let j = join_lines(b);
    assert(split_lines(j) == b);
    lemma_normalized_from_newline_free(b, 0);
    lemma_normalize_keeps_text(j);
    let x = normalized_from(b, 0);
    lemma_split_join(x);
    let jj = join_lines(x);
    let out = finish(ls, none);
    assert(out == normalized(j));
    if out == jj {
        assert(split_lines(out) == x);
    } else {
        assert(out == jj.push('\n'));
        lemma_split_push_newline(jj);
        let e = Seq::<char>::empty();
        lemma_nonblank_lines_add(x, seq![e]);
        assert(x + seq![e] =~= x.push(e));
        assert(seq![e].skip(1) =~= Seq::<Seq<char>>::empty());
        assert(nonblank_lines(Seq::<Seq<char>>::empty()) =~= Seq::<Seq<char>>::empty());
        assert(nonblank_lines(seq![e]) =~= Seq::<Seq<char>>::empty());
        assert(nonblank_lines(x.push(e)) =~= nonblank_lines(x));
    }
}

} // verus!
