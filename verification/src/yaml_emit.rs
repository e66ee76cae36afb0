//! YAML frontmatter output: a parsed YAML document (read with `serde_yaml`)
//! written back with the configured indentation and quoting, keeping block
//! scalars verbatim.
use vstd::prelude::*;
use crate::text::{
    lv, sv, spaces, spaces_vec, split_lines, join_lines, chars_of, string_of, push_all, slice_vec,
    split_lines_vec, join_lines_vec, trim, trim_vec, trim_start, trim_start_vec,
};
use crate::types::FormatYamlFrontmatterSetting;
use crate::yaml::{needs_quotes, quoted, emit_yaml_string, BlockScalar, assoc_view, preprocessed, block_scalars_of, extract_block_scalars, preprocess_yaml_for_parsing};
use crate::ast::{MdNode, NodeKind, tree_fits};
use crate::ops::{OpView, views, views_wf, push_op};
use crate::types::FormatterOperation;

verus! {

#[verifier::external_type_specification]
#[verifier::external_body]
pub struct ExYamlValue(serde_yaml::Value);

/// A YAML value as the emitter reads it. A mapping keeps its entries in
/// order and, for use as a scalar, its `serde_yaml` serialization.
#[derive(Debug)]
pub enum YamlValue {
    Null,
    Bool(bool),
    Number(String),
    Str(String),
    Sequence(Vec<YamlValue>),
    Mapping(Vec<(YamlValue, YamlValue)>, String),
    Tagged(Box<YamlValue>),
}

/// What `serde_yaml::from_str` parses from `text` as a `Value`, in the
/// library's form (see `yaml_tree`); `None` where it fails.
pub uninterp spec fn yaml_of(text: Seq<char>) -> Option<YamlValue>;

/// `serde_yaml::from_str` into a `Value`, converted variant for variant into
/// a `YamlValue`; `None` where parsing fails. The result is named `yaml_of`.
#[verifier::external_body]
fn yaml_from_str(text: &str) -> (r: Option<YamlValue>)
    ensures
        r == yaml_of(text@),
{
    match serde_yaml::from_str::<serde_yaml::Value>(text) {
        Ok(v) => Some(yaml_tree(&v)),
        Err(_) => None,
    }
}

/// A `serde_yaml::Value` as a `YamlValue`, variant for variant: a number by
/// its `Display` text, a mapping's entries in order together with the
/// mapping's `serde_yaml::to_string` text (empty on error). It serves
/// `yaml_from_str`, whose contract names the result.
#[verifier::external_body]
fn yaml_tree(v: &serde_yaml::Value) -> YamlValue {
    match v {
        serde_yaml::Value::Null => YamlValue::Null,
        serde_yaml::Value::Bool(b) => YamlValue::Bool(*b),
        serde_yaml::Value::Number(n) => YamlValue::Number(n.to_string()),
        serde_yaml::Value::String(t) => YamlValue::Str(t.clone()),
        serde_yaml::Value::Sequence(a) => YamlValue::Sequence(a.iter().map(yaml_tree).collect()),
        serde_yaml::Value::Mapping(m) => YamlValue::Mapping(
            m.iter().map(|(k, x)| (yaml_tree(k), yaml_tree(x))).collect(),
            serde_yaml::to_string(v).unwrap_or_default(),
        ),
        serde_yaml::Value::Tagged(t) => YamlValue::Tagged(Box::new(yaml_tree(&t.value))),
    }
}

/// Parse YAML text; `None` when `serde_yaml` rejects it.
pub fn parse_yaml(text: &str) -> (r: Option<YamlValue>)
    ensures
        r == yaml_of(text@),
{
    yaml_from_str(text)
}

// ---------------------------------------------------------------------------
// Emitting
// ---------------------------------------------------------------------------

pub open spec fn string_text(x: Seq<char>, s: FormatYamlFrontmatterSetting) -> Seq<char> {
    if s.force_quotes || needs_quotes(x) { quoted(x, s.quoting_type@) } else { x }
}

/// The first character is one YAML reads as an indicator.
pub open spec fn indicator_first(x: Seq<char>) -> bool {
    x.len() > 0 && {
        let c = x[0];
        c == '!' || c == '&' || c == '*' || c == '%' || c == '@' || c == '`' || c == ',' || c == '['
            || c == ']' || c == '{' || c == '}' || c == '>' || c == '|' || c == '#' || c == '?'
            || c == '-' || c == ':'
    }
}

/// Plain YAML would misread `x`: it is empty, starts with an indicator,
/// holds `: `, ` #`, a line break or a quote, or ends with `:`.
pub open spec fn unsafe_plain(x: Seq<char>) -> bool {
    ||| x.len() == 0
    ||| indicator_first(x)
    ||| exists|i: int| 0 <= i && i + 1 < x.len() && #[trigger] x[i] == ':' && x[i + 1] == ' '
    ||| exists|i: int| 0 <= i && i + 1 < x.len() && #[trigger] x[i] == ' ' && x[i + 1] == '#'
    ||| exists|i: int| 0 <= i < x.len() && (#[trigger] x[i] == '\n' || x[i] == '\'' || x[i] == '"')
    ||| (x.len() > 0 && x.last() == ':')
}

/// A string that plain YAML would misread is always written quoted, in the
/// configured quote style.
pub proof fn lemma_unsafe_strings_are_quoted(x: Seq<char>, s: FormatYamlFrontmatterSetting)
    requires
        unsafe_plain(x),
    ensures
        string_text(x, s) == quoted(x, s.quoting_type@),
{
    if exists|i: int| 0 <= i && i + 1 < x.len() && #[trigger] x[i] == ':' && x[i + 1] == ' ' {
        let i = choose|i: int| 0 <= i && i + 1 < x.len() && #[trigger] x[i] == ':' && x[i + 1] == ' ';
        assert(x.subrange(i, i + 2) =~= seq![':', ' ']);
        assert(crate::text::occurs_at(x, seq![':', ' '], i));
    }
    if exists|i: int| 0 <= i && i + 1 < x.len() && #[trigger] x[i] == ' ' && x[i + 1] == '#' {
        let i = choose|i: int| 0 <= i && i + 1 < x.len() && #[trigger] x[i] == ' ' && x[i + 1] == '#';
        assert(x.subrange(i, i + 2) =~= seq![' ', '#']);
        assert(crate::text::occurs_at(x, seq![' ', '#'], i));
    }
    assert(needs_quotes(x));
}

/// The text reads, in any ASCII letter case, as a YAML boolean or null word.
pub open spec fn keyword_like(x: Seq<char>) -> bool {
    let l = crate::html_formatter::ascii_lower(x);
    ||| l == seq!['t', 'r', 'u', 'e']
    ||| l == seq!['f', 'a', 'l', 's', 'e']
    ||| l == seq!['n', 'u', 'l', 'l']
    ||| l == seq!['y', 'e', 's']
    ||| l == seq!['n', 'o']
    ||| l == seq!['o', 'n']
    ||| l == seq!['o', 'f', 'f']
    ||| l == seq!['~']
}

/// A string that plain YAML reads back as that string (no indicator, no
/// `: ` or ` #`, no line break or quote, no trailing `:`, not a boolean or
/// null word, not a number) is written as it is, unless quotes are forced.
pub proof fn lemma_safe_strings_are_plain(x: Seq<char>, s: FormatYamlFrontmatterSetting)
    requires
        !s.force_quotes,
        !unsafe_plain(x),
        !keyword_like(x),
        !crate::yaml::is_float_literal(x),
    ensures
        string_text(x, s) == x,
{
    let l = crate::html_formatter::ascii_lower(x);
    let kw = crate::yaml::yaml_keywords();
    if kw.contains(l) {
        let i = choose|i: int| 0 <= i < kw.len() && kw[i] == l;
        assert(0 <= i < 8);
    }
    if crate::text::contains(x, seq![':', ' ']) {
        let i = choose|i: int| crate::text::occurs_at(x, seq![':', ' '], i);
        assert(x[i] == x.subrange(i, i + 2)[0]);
        assert(x[i + 1] == x.subrange(i, i + 2)[1]);
    }
    if crate::text::contains(x, seq![' ', '#']) {
        let i = choose|i: int| crate::text::occurs_at(x, seq![' ', '#'], i);
        assert(x[i] == x.subrange(i, i + 2)[0]);
        assert(x[i + 1] == x.subrange(i, i + 2)[1]);
    }
    assert(!needs_quotes(x));
}

/// A value written as a scalar: `null`, `true`/`false`, the number's text,
/// the (possibly quoted) string, a flow sequence `[a, b]`, a mapping's
/// serialization, or the tagged value's scalar.
pub open spec fn scalar_text(v: YamlValue, s: FormatYamlFrontmatterSetting) -> Seq<char>
    decreases v, 1nat, 0int,
{
    match v {
        YamlValue::Null => seq!['n', 'u', 'l', 'l'],
        YamlValue::Bool(b) => if b { seq!['t', 'r', 'u', 'e'] } else { seq!['f', 'a', 'l', 's', 'e'] },
        YamlValue::Number(t) => t@,
        YamlValue::Str(x) => string_text(x@, s),
        YamlValue::Sequence(items) => seq!['['] + flow_items(v, s, items@.len() as int) + seq![']'],
        YamlValue::Mapping(_, t) => t@,
        YamlValue::Tagged(inner) => scalar_text(*inner, s),
    }
}

/// The first `i` items of a sequence as scalars, joined with `, `.
pub open spec fn flow_items(v: YamlValue, s: FormatYamlFrontmatterSetting, i: int) -> Seq<char>
    decreases v, 0nat, i,
{
    match v {
        YamlValue::Sequence(items) => if i <= 0 || i > items@.len() {
            Seq::empty()
        } else if i == 1 {
            scalar_text(items@[0], s)
        } else {
            flow_items(v, s, i - 1) + seq![',', ' '] + scalar_text(items@[i - 1], s)
        },
        _ => Seq::empty(),
    }
}

pub open spec fn sat_mul(a: usize, b: usize) -> usize {
    if a * b > usize::MAX { usize::MAX } else { (a * b) as usize }
}

pub open spec fn key_text(k: YamlValue, s: FormatYamlFrontmatterSetting) -> Seq<char> {
    match k {
        YamlValue::Str(x) => x@,
        _ => scalar_text(k, s),
    }
}

/// Lines of the items of a sequence under a key, the first `j` items: a
/// mapping item written inline after `- `, any other item as `- scalar`.
pub open spec fn seq_item_lines(
    v: YamlValue,
    s: FormatYamlFrontmatterSetting,
    level: usize,
    bs: Map<Seq<Seq<char>>, Seq<char>>,
    j: int,
) -> Seq<Seq<char>>
    decreases v, 0nat, j,
{
    match v {
        YamlValue::Sequence(items) => if j <= 0 || j > items@.len() {
            Seq::empty()
        } else {
            let ci = spaces(sat_mul(sat_add(level, 1), s.indent) as nat);
            let item = items@[j - 1];
            seq_item_lines(v, s, level, bs, j - 1) + match item {
                YamlValue::Mapping(m, _) => {
                    let nl = split_lines(join_lines(map_lines(item, s, sat_add(level, 2), None, bs, m@.len() as int)));
                    seq![ci + seq!['-', ' '] + trim(nl[0])] + nl.drop_first().map_values(
                        |r: Seq<char>| ci + seq![' ', ' '] + trim_start(r),
                    )
                },
                _ => seq![ci + seq!['-', ' '] + scalar_text(item, s)],
            }
        },
        _ => Seq::empty(),
    }
}

/// Lines of the first `i` entries of a mapping at `level`; `prefix` is the
/// key path when it can be resolved against `bs` (outside sequences).
pub open spec fn map_lines(
    v: YamlValue,
    s: FormatYamlFrontmatterSetting,
    level: usize,
    prefix: Option<Seq<Seq<char>>>,
    bs: Map<Seq<Seq<char>>, Seq<char>>,
    i: int,
) -> Seq<Seq<char>>
    decreases v, 0nat, i,
{
    match v {
        YamlValue::Mapping(m, _) => if i <= 0 || i > m@.len() {
            Seq::empty()
        } else {
            let (k, x) = m@[i - 1];
            let ks = key_text(k, s);
            let ind = spaces(sat_mul(level, s.indent) as nat);
            map_lines(v, s, level, prefix, bs, i - 1) + if prefix is Some && bs.dom().contains(
                prefix.unwrap().push(ks),
            ) {
                seq![ind + ks + seq![':', ' '] + bs[prefix.unwrap().push(ks)]]
            } else {
                match x {
                    YamlValue::Mapping(nm, _) => seq![ind + ks + seq![':'], join_lines(
                        map_lines(
                            x,
                            s,
                            sat_add(level, 1),
                            match prefix {
                                Some(p) => Some(p.push(ks)),
                                None => None,
                            },
                            bs,
                            nm@.len() as int,
                        ),
                    )],
                    YamlValue::Sequence(items) => seq![ind + ks + seq![':']] + seq_item_lines(
                        x,
                        s,
                        level,
                        bs,
                        items@.len() as int,
                    ),
                    _ => seq![ind + ks + seq![':', ' '] + scalar_text(x, s)],
                }
            }
        },
        _ => Seq::empty(),
    }
}

/// The emitted document: a mapping entry by entry, anything else as a scalar.
pub open spec fn emitted(v: YamlValue, s: FormatYamlFrontmatterSetting, bs: Map<Seq<Seq<char>>, Seq<char>>) -> Seq<char> {
    match v {
        YamlValue::Mapping(m, _) => join_lines(map_lines(v, s, 0, Some(Seq::empty()), bs, m@.len() as int)),
        _ => scalar_text(v, s),
    }
}

pub open spec fn sat_add(a: usize, b: usize) -> usize {
    if a + b > usize::MAX { usize::MAX } else { (a + b) as usize }
}


fn sat_mul_exec(a: usize, b: usize) -> (r: usize)
    ensures
        r == sat_mul(a, b),
{
    let x = a as u128;
    let y = b as u128;
    assert(x * y <= u128::MAX) by (nonlinear_arith)
        requires x <= usize::MAX, y <= usize::MAX, usize::MAX <= u64::MAX;
    let p = x * y;
    if p > usize::MAX as u128 { usize::MAX } else { p as usize }
}

fn cat(a: &[char], b: &[char]) -> (r: Vec<char>)
    ensures
        r@ == a@ + b@,
{
    let mut v = slice_vec(a, 0, a.len());
    assert(v@ =~= a@);
    push_all(&mut v, b);
    v
}

fn push_line(out: &mut Vec<Vec<char>>, line: Vec<char>)
    ensures
        lv(final(out)@) == lv(old(out)@).push(line@),
{
    let ghost prev = out@;
    out.push(line);
    assert(lv(out@) =~= lv(prev).push(line@));
}

/// Emit a value as a scalar (see `scalar_text`).
pub fn emit_yaml_scalar(v: &YamlValue, s: &FormatYamlFrontmatterSetting) -> (r: Vec<char>)
    ensures
        r@ == scalar_text(*v, *s),
    decreases v, 1nat, 0int,
{
    match v {
        YamlValue::Null => {
            let r: Vec<char> = vec!['n', 'u', 'l', 'l'];
            assert(r@ =~= seq!['n', 'u', 'l', 'l']);
            r
        },
        YamlValue::Bool(b) => {
            if *b {
                let r: Vec<char> = vec!['t', 'r', 'u', 'e'];
                assert(r@ =~= seq!['t', 'r', 'u', 'e']);
                r
            } else {
                let r: Vec<char> = vec!['f', 'a', 'l', 's', 'e'];
                assert(r@ =~= seq!['f', 'a', 'l', 's', 'e']);
                r
            }
        },
        YamlValue::Number(t) => chars_of(t.as_str()),
        YamlValue::Str(x) => {
            let e = emit_yaml_string(x.as_str(), s);
            chars_of(e.as_str())
        },
        YamlValue::Sequence(items) => {
            let mut out: Vec<char> = vec!['['];
            let mut i: usize = 0;
            while i < items.len()
                invariant
                    i <= items.len(),
                    *v == YamlValue::Sequence(*items),
                    out@ == seq!['['] + flow_items(*v, *s, i as int),
                decreases items.len() - i,
            {
                let ghost prev = out@;
                if i > 0 {
                    out.push(',');
                    out.push(' ');
                }
                assert(v->Sequence_0 == *items);
                assert(decreases_to!(*v => v->Sequence_0));
                assert(decreases_to!(v->Sequence_0 => v->Sequence_0@));
                assert(decreases_to!(v->Sequence_0@ => v->Sequence_0@[i as int]));
                let x = emit_yaml_scalar(&items[i], s);
                push_all(&mut out, &x);
                assert(out@ =~= seq!['['] + flow_items(*v, *s, i + 1));
                i += 1;
            }
            out.push(']');
            out
        },
        YamlValue::Mapping(_, t) => chars_of(t.as_str()),
        YamlValue::Tagged(inner) => emit_yaml_scalar(inner, s),
    }
}

/// The block text recorded for a path: the last entry with that path.
pub open spec fn assoc_lookup(bs: Seq<BlockScalar>, p: Seq<Seq<char>>) -> Option<Seq<char>>
    decreases bs.len(),
{
    if bs.len() == 0 {
        None
    } else if lv(bs.last().path@) == p {
        Some(bs.last().text@)
    } else {
        assoc_lookup(bs.drop_last(), p)
    }
}

pub proof fn lemma_assoc_lookup(bs: Seq<BlockScalar>, p: Seq<Seq<char>>)
    ensures
        assoc_lookup(bs, p) == (if assoc_view(bs).dom().contains(p) { Some(assoc_view(bs)[p]) } else { None::<Seq<char>> }),
    decreases bs.len(),
{
    if bs.len() > 0 {
        lemma_assoc_lookup(bs.drop_last(), p);
    }
}

fn lines_eq(a: &Vec<Vec<char>>, b: &Vec<Vec<char>>) -> (r: bool)
    ensures
        r == (lv(a@) == lv(b@)),
{
    if a.len() != b.len() {
        assert(lv(a@).len() != lv(b@).len());
        return false;
    }
    let mut i: usize = 0;
    while i < a.len()
        invariant
            i <= a.len(),
            a.len() == b.len(),
            forall|j: int| 0 <= j < i ==> lv(a@)[j] == lv(b@)[j],
        decreases a.len() - i,
    {
        if !crate::html_formatter::seq_eq(&a[i], &b[i]) {
            assert(lv(a@)[i as int] != lv(b@)[i as int]);
            return false;
        }
        i += 1;
    }
    assert(lv(a@) =~= lv(b@));
    true
}

fn block_lookup(bs: &Vec<BlockScalar>, p: &Vec<Vec<char>>) -> (r: Option<Vec<char>>)
    ensures
        match r {
            Some(t) => assoc_view(bs@).dom().contains(lv(p@)) && assoc_view(bs@)[lv(p@)] == t@,
            None => !assoc_view(bs@).dom().contains(lv(p@)),
        },
{
    proof {
        lemma_assoc_lookup(bs@, lv(p@));
    }
    let mut k = bs.len();
    assert(bs@.take(k as int) =~= bs@);
    while k > 0
        invariant
            k <= bs.len(),
            assoc_lookup(bs@, lv(p@)) == assoc_lookup(bs@.take(k as int), lv(p@)),
            assoc_lookup(bs@, lv(p@)) == (if assoc_view(bs@).dom().contains(lv(p@)) { Some(assoc_view(bs@)[lv(p@)]) } else { None::<Seq<char>> }),
        decreases k,
    {
        assert(bs@.take(k as int).drop_last() =~= bs@.take(k - 1));
        if lines_eq(&bs[k - 1].path, p) {
            assert(bs@.take(k as int).last() == bs@[k - 1]);
            let t = slice_vec(&bs[k - 1].text, 0, bs[k - 1].text.len());
            assert(t@ =~= bs@[k - 1].text@);
            return Some(t);
        }
        k -= 1;
    }
    None
}

fn push_key(p: &Vec<Vec<char>>, k: &Vec<char>) -> (r: Vec<Vec<char>>)
    ensures
        lv(r@) == lv(p@).push(k@),
{
    let mut out: Vec<Vec<char>> = Vec::new();
    let mut i: usize = 0;
    while i < p.len()
        invariant
            i <= p.len(),
            lv(out@) == lv(p@).take(i as int),
        decreases p.len() - i,
    {
        let line = slice_vec(&p[i], 0, p[i].len());
        assert(line@ =~= lv(p@)[i as int]);
        push_line(&mut out, line);
        assert(lv(p@).take(i + 1) =~= lv(p@).take(i as int).push(line@));
        i += 1;
    }
    assert(lv(p@).take(p.len() as int) =~= lv(p@));
    push_line(&mut out, slice_vec(k, 0, k.len()));
    assert(k@.subrange(0, k.len() as int) =~= k@);
    out
}

pub open spec fn opt_lines(p: Option<Vec<Vec<char>>>) -> Option<Seq<Seq<char>>> {
    match p {
        Some(v) => Some(lv(v@)),
        None => None,
    }
}

fn key_text_exec(k: &YamlValue, s: &FormatYamlFrontmatterSetting) -> (r: Vec<char>)
    ensures
        r@ == key_text(*k, *s),
{
    match k {
        YamlValue::Str(x) => chars_of(x.as_str()),
        _ => emit_yaml_scalar(k, s),
    }
}

/// Lines of a sequence's items under a key (see `seq_item_lines`).
fn emit_seq_items(
    v: &YamlValue,
    s: &FormatYamlFrontmatterSetting,
    level: usize,
    bs: &Vec<BlockScalar>,
    out: &mut Vec<Vec<char>>,
)
    ensures
        lv(final(out)@) == lv(old(out)@) + match *v {
            YamlValue::Sequence(items) => seq_item_lines(*v, *s, level, assoc_view(bs@), items@.len() as int),
            _ => Seq::empty(),
        },
    decreases v, 0nat, 0int,
{
    let ghost o0 = lv(out@);
    let ghost b = assoc_view(bs@);
    let items = match v {
        YamlValue::Sequence(items) => items,
        _ => {
            assert(lv(out@) =~= o0);
            return;
        },
    };
    let ci = spaces_vec(sat_mul_exec(level.saturating_add(1), s.indent));
    let dash: Vec<char> = vec!['-', ' '];
    assert(dash@ =~= seq!['-', ' ']);
    let two: Vec<char> = vec![' ', ' '];
    assert(two@ =~= seq![' ', ' ']);
    let mut j: usize = 0;
    while j < items.len()
        invariant
            j <= items.len(),
            *v == YamlValue::Sequence(*items),
            b == assoc_view(bs@),
            ci@ == spaces(sat_mul(sat_add(level, 1), s.indent) as nat),
            dash@ == seq!['-', ' '],
            two@ == seq![' ', ' '],
            lv(out@) == o0 + seq_item_lines(*v, *s, level, b, j as int),
        decreases items.len() - j,
    {
        let item = &items[j];
        let ghost before = lv(out@);
        match item {
            YamlValue::Mapping(m, _) => {
                let nested_lines = emit_yaml_mapping(item, s, level.saturating_add(2), None, bs);
                let nested = join_lines_vec(&nested_lines);
                let nl = split_lines_vec(&nested);
                let ghost nlv = lv(nl@);
                let first = trim_vec(&nl[0]);
                push_line(out, cat(&cat(&ci, &dash), &first));
                let mut k: usize = 1;
                while k < nl.len()
                    invariant
                        1 <= k <= nl.len(),
                        nlv == lv(nl@),
                        ci@ == spaces(sat_mul(sat_add(level, 1), s.indent) as nat),
                        two@ == seq![' ', ' '],
                        lv(out@) == before + seq![ci@ + seq!['-', ' '] + trim(nlv[0])] + nlv.drop_first().take(k - 1).map_values(
                            |r: Seq<char>| ci@ + seq![' ', ' '] + trim_start(r),
                        ),
                    decreases nl.len() - k,
                {
                    let r = trim_start_vec(&nl[k]);
                    push_line(out, cat(&cat(&ci, &two), &r));
                    assert(nlv.drop_first().take(k as int) =~= nlv.drop_first().take(k - 1).push(nlv[k as int]));
                    assert(lv(out@) =~= before + seq![ci@ + seq!['-', ' '] + trim(nlv[0])] + nlv.drop_first().take(k as int).map_values(
                        |r: Seq<char>| ci@ + seq![' ', ' '] + trim_start(r),
                    ));
                    k += 1;
                }
                assert(nlv.drop_first().take(nl.len() - 1) =~= nlv.drop_first());
            },
            _ => {
                let x = emit_yaml_scalar(item, s);
                push_line(out, cat(&cat(&ci, &dash), &x));
            },
        }
        assert(lv(out@) =~= o0 + seq_item_lines(*v, *s, level, b, j + 1));
        j += 1;
    }
}

/// Lines of a mapping (see `map_lines`); a nested mapping's lines are
/// joined into one element, as it is written under its key.
pub fn emit_yaml_mapping(
    v: &YamlValue,
    s: &FormatYamlFrontmatterSetting,
    level: usize,
    prefix: Option<Vec<Vec<char>>>,
    bs: &Vec<BlockScalar>,
) -> (r: Vec<Vec<char>>)
    ensures
        lv(r@) == match *v {
            YamlValue::Mapping(m, _) => map_lines(*v, *s, level, opt_lines(prefix), assoc_view(bs@), m@.len() as int),
            _ => Seq::empty(),
        },
    decreases v, 0nat, 1int,
{
    let ghost b = assoc_view(bs@);
    let ghost pv = opt_lines(prefix);
    let mut out: Vec<Vec<char>> = Vec::new();
    let m = match v {
        YamlValue::Mapping(m, _) => m,
        _ => {
            assert(lv(out@) =~= Seq::<Seq<char>>::empty());
            return out;
        },
    };
    let ind = spaces_vec(sat_mul_exec(level, s.indent));
    let colon_sp: Vec<char> = vec![':', ' '];
    assert(colon_sp@ =~= seq![':', ' ']);
    let colon: Vec<char> = vec![':'];
    assert(colon@ =~= seq![':']);
    let mut i: usize = 0;
    while i < m.len()
        invariant
            i <= m.len(),
            *v == YamlValue::Mapping(*m, v->1),
            b == assoc_view(bs@),
            pv == opt_lines(prefix),
            ind@ == spaces(sat_mul(level, s.indent) as nat),
            colon_sp@ == seq![':', ' '],
            colon@ == seq![':'],
            lv(out@) == map_lines(*v, *s, level, pv, b, i as int),
        decreases m.len() - i,
    {
        let (k, x) = &m[i];
        let ks = key_text_exec(k, s);
        let ghost before = lv(out@);
        let mut done = false;
        if let Some(p) = &prefix {
            let full = push_key(p, &ks);
            match block_lookup(bs, &full) {
                Some(t) => {
                    push_line(&mut out, cat(&cat(&cat(&ind, &ks), &colon_sp), &t));
                    done = true;
                },
                None => {},
            }
        }
        if !done {
            match x {
                YamlValue::Mapping(_, _) => {
                    push_line(&mut out, cat(&cat(&ind, &ks), &colon));
                    let next = match &prefix {
                        Some(p) => Some(push_key(p, &ks)),
                        None => None,
                    };
                    let nested = emit_yaml_mapping(x, s, level.saturating_add(1), next, bs);
                    push_line(&mut out, join_lines_vec(&nested));
                },
                YamlValue::Sequence(_) => {
                    push_line(&mut out, cat(&cat(&ind, &ks), &colon));
                    emit_seq_items(x, s, level, bs, &mut out);
                },
                _ => {
                    let sc = emit_yaml_scalar(x, s);
                    push_line(&mut out, cat(&cat(&cat(&ind, &ks), &colon_sp), &sc));
                },
            }
        }
        assert(lv(out@) =~= map_lines(*v, *s, level, pv, b, i + 1));
        i += 1;
    }
    out
}

/// Emit a parsed document (see `emitted`).
pub fn emit_yaml(v: &YamlValue, s: &FormatYamlFrontmatterSetting, bs: &Vec<BlockScalar>) -> (r: Vec<char>)
    ensures
        r@ == emitted(*v, *s, assoc_view(bs@)),
{
    match v {
        YamlValue::Mapping(_, _) => {
            let empty: Vec<Vec<char>> = Vec::new();
            assert(lv(empty@) =~= Seq::<Seq<char>>::empty());
            let ls = emit_yaml_mapping(v, s, 0, Some(empty), bs);
            join_lines_vec(&ls)
        },
        _ => emit_yaml_scalar(v, s),
    }
}


// ---------------------------------------------------------------------------
// Frontmatter operations
// ---------------------------------------------------------------------------

/// A position whose lines are 1-indexed (at least 1).
pub open spec fn lines_positive(p: Option<crate::ast::Pos>) -> bool {
    match p {
        Some(q) => q.start_line >= 1 && q.end_line >= 1,
        None => true,
    }
}

/// The root's YAML frontmatter nodes with a position.
pub open spec fn yaml_children(n: MdNode) -> Seq<MdNode> {
    if n.kind == NodeKind::Root {
        n.children@.filter(|c: MdNode| c.kind == NodeKind::Yaml && c.position is Some)
    } else {
        Seq::empty()
    }
}

/// The text handed to the YAML parser: the frontmatter's value,
/// preprocessed when unsafe values are to be fixed.
pub open spec fn yaml_source(node: MdNode, s: FormatYamlFrontmatterSetting) -> Seq<char> {
    if s.fix_unsafe_values { preprocessed(node.value@) } else { node.value@ }
}

/// The replacement of a frontmatter's body by the emitted document, when it
/// differs and the frontmatter has a body line.
pub open spec fn frontmatter_op(node: MdNode, parsed: Option<YamlValue>, s: FormatYamlFrontmatterSetting) -> Seq<OpView> {
    match parsed {
        None => Seq::empty(),
        Some(v) => {
            let clean = emitted(v, s, block_scalars_of(node.value@));
            let p = node.position.unwrap();
            let sl = p.start_line - 1;
            let el = p.end_line - 1;
            if clean == node.value@ || el <= sl + 1 {
                Seq::empty()
            } else {
                seq![OpView::Replace((sl + 1) as nat, (el - 1) as nat, split_lines(clean))]
            }
        },
    }
}

pub open spec fn frontmatter_ops(nodes: Seq<MdNode>, parsed: Seq<Option<YamlValue>>, s: FormatYamlFrontmatterSetting) -> Seq<OpView>
    decreases nodes.len(),
{
    if nodes.len() == 0 || parsed.len() != nodes.len() {
        Seq::empty()
    } else {
        frontmatter_ops(nodes.drop_last(), parsed.drop_last(), s) + frontmatter_op(nodes.last(), parsed.last(), s)
    }
}

/// The operation for one frontmatter node, given what the YAML parser made of it.
pub fn frontmatter_operation(
    node: &MdNode,
    parsed: &Option<YamlValue>,
    s: &FormatYamlFrontmatterSetting,
    ops: &mut Vec<FormatterOperation>,
)
    requires
        node.position is Some,
        node.position.unwrap().start_line >= 1,
        node.position.unwrap().end_line >= 1,
    ensures
        views(final(ops)@) == views(old(ops)@) + frontmatter_op(*node, *parsed, *s),
        views_wf(views(old(ops)@)) ==> views_wf(views(final(ops)@)),
{
    let ghost o0 = views(ops@);
    let v = match parsed {
        Some(v) => v,
        None => {
            assert(views(ops@) =~= o0 + frontmatter_op(*node, *parsed, *s));
            return;
        },
    };
    let bs = extract_block_scalars(node.value.as_str());
    let clean = emit_yaml(v, s, &bs);
    let orig = chars_of(node.value.as_str());
    let p = match &node.position {
        Some(p) => p,
        None => {
            return;
        },
    };
    let sl = p.start_line - 1;
    let el = p.end_line - 1;
    if crate::html_formatter::seq_eq(&clean, &orig) || el <= sl || el - sl <= 1 {
        assert(views(ops@) =~= o0 + frontmatter_op(*node, *parsed, *s));
        return;
    }
    let ls = split_lines_vec(&clean);
    let strs = crate::ops::strings_of_lines(&ls);
    push_op(ops, FormatterOperation::ReplaceLines { start_line: sl + 1, end_line: el - 1, lines: strs });
    assert(views(ops@) =~= o0 + frontmatter_op(*node, *parsed, *s));
}

/// `parsed` holds, for each node, what the YAML parser makes of that node's
/// text.
pub open spec fn parses_match(nodes: Seq<MdNode>, parsed: Seq<Option<YamlValue>>, s: FormatYamlFrontmatterSetting) -> bool {
    &&& parsed.len() == nodes.len()
    &&& forall|k: int| 0 <= k < nodes.len() ==> #[trigger] parsed[k] == yaml_of(yaml_source(nodes[k], s))
}

/// Parse and re-emit every YAML frontmatter of the root: `parsed` holds
/// what the YAML parser made of each frontmatter, and the operations are
/// those of `frontmatter_operation` for it.
pub fn collect_yaml_format_operations(
    n: &MdNode,
    s: &FormatYamlFrontmatterSetting,
    ops: &mut Vec<FormatterOperation>,
) -> (parsed: Ghost<Seq<Option<YamlValue>>>)
    requires
        forall|k: int| 0 <= k < n.children@.len() ==> lines_positive(#[trigger] n.children@[k].position),
    ensures
        parsed@.len() == yaml_children(*n).len(),
        parses_match(yaml_children(*n), parsed@, *s),
        views(final(ops)@) == views(old(ops)@) + frontmatter_ops(yaml_children(*n), parsed@, *s),
        views_wf(views(old(ops)@)) ==> views_wf(views(final(ops)@)),
{
    let ghost o0 = views(ops@);
    let ghost ys = yaml_children(*n);
    let ghost mut ps: Seq<Option<YamlValue>> = Seq::empty();
    if n.kind != NodeKind::Root {
        assert(views(ops@) =~= o0 + frontmatter_ops(ys, ps, *s));
        return Ghost(ps);
    }
    assert(n.children@.take(0) =~= Seq::<MdNode>::empty());
    proof {
        reveal(Seq::filter);
    }
    assert(n.children@.take(0).filter(|c: MdNode| c.kind == NodeKind::Yaml && c.position is Some) =~= Seq::<MdNode>::empty());
    let mut i: usize = 0;
    while i < n.children.len()
        invariant
            i <= n.children.len(),
            n.kind == NodeKind::Root,
            forall|k: int| 0 <= k < n.children@.len() ==> lines_positive(#[trigger] n.children@[k].position),
            ys == yaml_children(*n),
            ps.len() == n.children@.take(i as int).filter(|c: MdNode| c.kind == NodeKind::Yaml && c.position is Some).len(),
            parses_match(n.children@.take(i as int).filter(|c: MdNode| c.kind == NodeKind::Yaml && c.position is Some), ps, *s),
            views(ops@) == o0 + frontmatter_ops(n.children@.take(i as int).filter(|c: MdNode| c.kind == NodeKind::Yaml && c.position is Some), ps, *s),
            views_wf(views(old(ops)@)) ==> views_wf(views(ops@)),
            o0 == views(old(ops)@),
        decreases n.children.len() - i,
    {
        let c = &n.children[i];
        let ghost pre = n.children@.take(i as int).filter(|c: MdNode| c.kind == NodeKind::Yaml && c.position is Some);
        assert(n.children@.take(i + 1).drop_last() =~= n.children@.take(i as int));
        assert(n.children@.take(i + 1).last() == *c);
        proof {
            reveal(Seq::filter);
        }
        if c.kind == NodeKind::Yaml && c.position.is_some() {
            assert(lines_positive(n.children@[i as int].position));
            let text = if s.fix_unsafe_values {
                preprocess_yaml_for_parsing(c.value.as_str())
            } else {
                string_of(&chars_of(c.value.as_str()))
            };
            assert(text@ == yaml_source(*c, *s));
            let parsed = parse_yaml(text.as_str());
            let ghost ps_old = ps;
            let ghost before_ops = views(ops@);
            frontmatter_operation(c, &parsed, s, ops);
            proof {
                ps = ps.push(parsed);
                assert(ps.drop_last() =~= ps_old);
                assert(ps.last() == parsed);
                assert(pre.push(*c).drop_last() =~= pre);
            }
            assert(n.children@.take(i + 1).filter(|c: MdNode| c.kind == NodeKind::Yaml && c.position is Some) == pre.push(*c));
            assert forall|k: int| 0 <= k < pre.push(*c).len() implies #[trigger] ps[k] == yaml_of(yaml_source(pre.push(*c)[k], *s)) by {
                if k < pre.len() {
                    assert(ps[k] == ps_old[k]);
                    assert(pre.push(*c)[k] == pre[k]);
                }
            }
            assert(views(ops@) =~= o0 + frontmatter_ops(pre.push(*c), ps, *s)) by {
                assert(pre.push(*c).drop_last() =~= pre);
                assert(pre.push(*c).last() == *c);
            }
        } else {
            assert(n.children@.take(i + 1).filter(|c: MdNode| c.kind == NodeKind::Yaml && c.position is Some) == pre);
        }
        i += 1;
    }
    assert(n.children@.take(n.children.len() as int) =~= n.children@);
    Ghost(ps)
}

} // verus!
