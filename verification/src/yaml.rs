//! YAML frontmatter: pre-quoting unsafe values, preserving block scalars,
//! and emitting a parsed document with the configured quoting.
use vstd::prelude::*;
use crate::text::{
    trim, trim_start, starts_with, ends_with, contains, has_char, is_blank, lead_count, ws_pred,
    split_lines, join_lines, lv, chars_of, string_of, trim_vec, trim_start_vec, push_all,
    split_lines_vec, join_lines_vec, starts_with_vec, ends_with_vec, contains_vec, has_char_vec,
    is_blank_line, lead_ws_len, lemma_lead_count_bounds, lemma_trail_count_bounds, lemma_join_split, lemma_split_no_newline,
    lemma_split_join,
};
use crate::pattern::{MatchView, whole, group, first_match, is_match, find_first, first_view, FirstMatch, chars_within};
use crate::html_formatter::{ascii_lower, ascii_lower_char};

verus! {

/// `key: value` line: (1) indent, (2) key, (3) value.
pub const YAML_MAPPING: &'static str = r"^(\s*)([\w][\w.-]*):\s+(.+)$";
/// A block scalar indicator (`>`, `|`, `>-`, `|2-`, `>1+`, ...).
pub const BLOCK_SCALAR: &'static str = r"^[|>]\d*[-+]?$";
/// A key line whose value is a block scalar indicator: (1) key, (2) indicator,
/// (3) optional trailing comment.
pub const YAML_BLOCK_SCALAR_KEY: &'static str = r"^([\w][\w.-]*):\s+([|>]\d*[-+]?)(\s+#.*)?$";
/// Values starting with a YAML indicator character.
pub const SPECIAL_START: &'static str = r"^[!&*%@`]";

fn group_chars(f: &FirstMatch, k: usize) -> (r: Vec<char>)
    ensures
        r@ == group(first_view(*f), k as int),
{
    if k < f.groups.len() {
        match &f.groups[k] {
            Some(v) => crate::text::slice_vec(v, 0, v.len()),
            None => Vec::new(),
        }
    } else {
        Vec::new()
    }
}

/// Does `pattern` match in `s`?
pub fn matches(pattern: &str, s: &[char]) -> (r: bool)
    ensures
        r == is_match(pattern@, s@),
{
    find_first(pattern, s).is_some()
}

/// Is `s` a block scalar indicator (`BLOCK_SCALAR`)?
pub fn is_block_scalar_indicator(s: &str) -> (r: bool)
    ensures
        r == is_match(BLOCK_SCALAR@, s@),
{
    matches(BLOCK_SCALAR, &chars_of(s))
}

/// Is `line` a key line with a block scalar value (`YAML_BLOCK_SCALAR_KEY`)?
pub fn is_block_scalar_key_line(line: &str) -> (r: bool)
    ensures
        r == is_match(YAML_BLOCK_SCALAR_KEY@, line@),
{
    matches(YAML_BLOCK_SCALAR_KEY, &chars_of(line))
}

// ---------------------------------------------------------------------------
// Quoting
// ---------------------------------------------------------------------------

/// Backslashes and double quotes escaped with a backslash.
pub open spec fn escape_dq(s: Seq<char>) -> Seq<char>
    decreases s.len(),
{
    if s.len() == 0 {
        Seq::empty()
    } else {
        escape_dq(s.drop_last()) + (if s.last() == '\\' {
            seq!['\\', '\\']
        } else if s.last() == '"' {
            seq!['\\', '"']
        } else {
            seq![s.last()]
        })
    }
}

/// Single quotes doubled.
pub open spec fn escape_sq(s: Seq<char>) -> Seq<char>
    decreases s.len(),
{
    if s.len() == 0 {
        Seq::empty()
    } else {
        escape_sq(s.drop_last()) + (if s.last() == '\'' {
            seq!['\'', '\'']
        } else {
            seq![s.last()]
        })
    }
}

/// `quote_string`: single-quoted when the quoting type is `'`, else
/// double-quoted with escapes.
pub open spec fn quoted(s: Seq<char>, quoting_type: Seq<char>) -> Seq<char> {
    if quoting_type == seq!['\''] {
        seq!['\''] + escape_sq(s) + seq!['\'']
    } else {
        seq!['"'] + escape_dq(s) + seq!['"']
    }
}

fn escape_dq_vec(s: &[char]) -> (r: Vec<char>)
    ensures
        r@ == escape_dq(s@),
{
    let mut out: Vec<char> = Vec::new();
    let mut i: usize = 0;
    while i < s.len()
        invariant
            i <= s.len(),
            out@ == escape_dq(s@.take(i as int)),
        decreases s.len() - i,
    {
        let c = s[i];
        if c == '\\' {
            out.push('\\');
            out.push('\\');
        } else if c == '"' {
            out.push('\\');
            out.push('"');
        } else {
            out.push(c);
        }
        assert(s@.take(i + 1).drop_last() =~= s@.take(i as int));
        assert(out@ =~= escape_dq(s@.take(i + 1)));
        i += 1;
    }
    assert(s@.take(s.len() as int) =~= s@);
    out
}

fn escape_sq_vec(s: &[char]) -> (r: Vec<char>)
    ensures
        r@ == escape_sq(s@),
{
    let mut out: Vec<char> = Vec::new();
    let mut i: usize = 0;
    while i < s.len()
        invariant
            i <= s.len(),
            out@ == escape_sq(s@.take(i as int)),
        decreases s.len() - i,
    {
        let c = s[i];
        if c == '\'' {
            out.push('\'');
            out.push('\'');
        } else {
            out.push(c);
        }
        assert(s@.take(i + 1).drop_last() =~= s@.take(i as int));
        assert(out@ =~= escape_sq(s@.take(i + 1)));
        i += 1;
    }
    assert(s@.take(s.len() as int) =~= s@);
    out
}

/// Quote a string with the configured quoting type.
pub fn quote_string(s: &str, quoting_type: &str) -> (r: String)
    ensures
        r@ == quoted(s@, quoting_type@),
{
    let v = chars_of(s);
    let q = chars_of(quoting_type);
    let mut out: Vec<char> = Vec::new();
    if q.len() == 1 && q[0] == '\'' {
        assert(q@ =~= seq!['\'']);
        out.push('\'');
        push_all(&mut out, &escape_sq_vec(&v));
        out.push('\'');
    } else {
        assert(q@ != seq!['\''] ) by {
            if q@ == seq!['\''] {
                assert(q@.len() == 1 && q@[0] == '\'');
            }
        }
        out.push('"');
        push_all(&mut out, &escape_dq_vec(&v));
        out.push('"');
    }
    assert(out@ =~= quoted(s@, quoting_type@));
    string_of(&out)
}

// ---------------------------------------------------------------------------
// needs_quoting
// ---------------------------------------------------------------------------

pub open spec fn strip_sign(s: Seq<char>) -> Seq<char> {
    if s.len() > 0 && (s[0] == '+' || s[0] == '-') {
        s.drop_first()
    } else {
        s
    }
}

pub open spec fn all_digits(s: Seq<char>) -> bool {
    s.len() >= 1 && crate::lines::digit_run(s) == s.len()
}

/// `Exp ::= 'e' Sign? Digit+`, or nothing.
pub open spec fn exp_ok(e: Seq<char>) -> bool {
    e.len() == 0 || (e[0] == 'e' && all_digits(strip_sign(e.drop_first())))
}

/// `Number ::= (Digit+ | Digit+ '.' Digit* | Digit* '.' Digit+) Exp?`
pub open spec fn is_number_body(b: Seq<char>) -> bool {
    let d1 = crate::lines::digit_run(b);
    let rest = b.skip(d1 as int);
    if rest.len() > 0 && rest[0] == '.' {
        let frac = rest.drop_first();
        let d2 = crate::lines::digit_run(frac);
        d1 + d2 >= 1 && exp_ok(frac.skip(d2 as int))
    } else {
        d1 >= 1 && exp_ok(rest)
    }
}

/// What `str::parse::<f64>` accepts (the grammar in its documentation,
/// matched against the ASCII-lowercased text); every `i64` literal is one.
pub open spec fn is_float_literal(s: Seq<char>) -> bool {
    let b = strip_sign(ascii_lower(s));
    ||| b == seq!['i', 'n', 'f']
    ||| b == seq!['i', 'n', 'f', 'i', 'n', 'i', 't', 'y']
    ||| b == seq!['n', 'a', 'n']
    ||| is_number_body(b)
}

/// YAML words that would be read as booleans or null.
pub open spec fn yaml_keywords() -> Seq<Seq<char>> {
    seq![
        seq!['t', 'r', 'u', 'e'],
        seq!['f', 'a', 'l', 's', 'e'],
        seq!['n', 'u', 'l', 'l'],
        seq!['y', 'e', 's'],
        seq!['n', 'o'],
        seq!['o', 'n'],
        seq!['o', 'f', 'f'],
        seq!['~'],
    ]
}

pub open spec fn is_special_first(c: char) -> bool {
    c == '!' || c == '&' || c == '*' || c == '%' || c == '@' || c == '`' || c == ',' || c == '['
        || c == ']' || c == '{' || c == '}' || c == '>' || c == '|' || c == '#' || c == '?' || c
        == '-' || c == ':'
}

/// Whether a string needs quotes in YAML output. The keyword test compares
/// the ASCII-lowercased text (lowercasing a non-ASCII character never yields
/// one of these ASCII keywords).
pub open spec fn needs_quotes(s: Seq<char>) -> bool {
    ||| s.len() == 0
    ||| yaml_keywords().contains(ascii_lower(s))
    ||| is_float_literal(s)
    ||| contains(s, seq![':', ' '])
    ||| contains(s, seq![' ', '#'])
    ||| has_char(s, '\n')
    ||| has_char(s, '\'')
    ||| has_char(s, '"')
    ||| is_special_first(s[0])
    ||| (s.len() > 0 && s.last() == ':')
}

fn lower_vec(s: &[char]) -> (r: Vec<char>)
    ensures
        r@ == ascii_lower(s@),
{
    let mut out: Vec<char> = Vec::new();
    let mut i: usize = 0;
    while i < s.len()
        invariant
            i <= s.len(),
            out@ == ascii_lower(s@).take(i as int),
        decreases s.len() - i,
    {
        let c = s[i];
        let l = if 'A' <= c && c <= 'Z' { ((c as u32) + 32) as u8 as char } else { c };
        assert(l == ascii_lower_char(c)) by {
            if 'A' <= c && c <= 'Z' {
                assert(((c as u32) + 32) < 256);
            }
        }
        out.push(l);
        assert(out@ =~= ascii_lower(s@).take(i + 1));
        i += 1;
    }
    assert(ascii_lower(s@).take(s.len() as int) =~= ascii_lower(s@));
    out
}

fn eq_vec(a: &[char], b: &[char]) -> (r: bool)
    ensures
        r == (a@ == b@),
{
    if a.len() != b.len() {
        return false;
    }
    let mut i: usize = 0;
    while i < a.len()
        invariant
            a.len() == b.len(),
            i <= a.len(),
            forall|j: int| 0 <= j < i ==> a@[j] == b@[j],
        decreases a.len() - i,
    {
        if a[i] != b[i] {
            return false;
        }
        i += 1;
    }
    assert(a@ =~= b@);
    true
}

fn strip_sign_vec(s: &[char]) -> (r: Vec<char>)
    ensures
        r@ == strip_sign(s@),
{
    if s.len() > 0 && (s[0] == '+' || s[0] == '-') {
        crate::text::slice_vec(s, 1, s.len())
    } else {
        crate::text::slice_vec(s, 0, s.len())
    }
}

fn all_digits_exec(s: &[char]) -> (r: bool)
    ensures
        r == all_digits(s@),
{
    s.len() >= 1 && crate::text::lead_digit_len(s) == s.len()
}

fn exp_ok_exec(e: &[char]) -> (r: bool)
    ensures
        r == exp_ok(e@),
{
    if e.len() == 0 {
        return true;
    }
    if e[0] != 'e' {
        return false;
    }
    let rest = crate::text::slice_vec(e, 1, e.len());
    assert(rest@ =~= e@.drop_first());
    let body = strip_sign_vec(&rest);
    all_digits_exec(&body)
}

fn is_number_body_exec(b: &[char]) -> (r: bool)
    ensures
        r == is_number_body(b@),
{
    let d1 = crate::text::lead_digit_len(b);
    let rest = crate::text::slice_vec(b, d1, b.len());
    assert(rest@ =~= b@.skip(d1 as int));
    if rest.len() > 0 && rest[0] == '.' {
        let frac = crate::text::slice_vec(&rest, 1, rest.len());
        assert(frac@ =~= rest@.drop_first());
        let d2 = crate::text::lead_digit_len(&frac);
        let tail = crate::text::slice_vec(&frac, d2, frac.len());
        assert(tail@ =~= frac@.skip(d2 as int));
        (d1 >= 1 || d2 >= 1) && exp_ok_exec(&tail)
    } else {
        d1 >= 1 && exp_ok_exec(&rest)
    }
}

/// Does `str::parse::<f64>` (or `::<i64>`) accept `s`?
pub fn looks_like_number(s: &[char]) -> (r: bool)
    ensures
        r == is_float_literal(s@),
{
    let l = lower_vec(s);
    let b = strip_sign_vec(&l);
    eq_vec(&b, &['i', 'n', 'f']) || eq_vec(&b, &['i', 'n', 'f', 'i', 'n', 'i', 't', 'y']) || eq_vec(
        &b,
        &['n', 'a', 'n'],
    ) || is_number_body_exec(&b)
}

fn is_keyword(l: &[char]) -> (r: bool)
    ensures
        r == yaml_keywords().contains(l@),
{
    let ks: Vec<Vec<char>> = vec![
        vec!['t', 'r', 'u', 'e'],
        vec!['f', 'a', 'l', 's', 'e'],
        vec!['n', 'u', 'l', 'l'],
        vec!['y', 'e', 's'],
        vec!['n', 'o'],
        vec!['o', 'n'],
        vec!['o', 'f', 'f'],
        vec!['~'],
    ];
    assert(ks@[7]@ =~= seq!['~']);
    assert(ks@[4]@ =~= seq!['n', 'o']);
    assert(ks@[5]@ =~= seq!['o', 'n']);
    assert(lv(ks@) =~= yaml_keywords());
    let mut i: usize = 0;
    while i < ks.len()
        invariant
            i <= ks.len(),
            lv(ks@) == yaml_keywords(),
            forall|j: int| 0 <= j < i ==> yaml_keywords()[j] != l@,
        decreases ks.len() - i,
    {
        if eq_vec(&ks[i], l) {
            assert(yaml_keywords()[i as int] == l@);
            return true;
        }
        i += 1;
    }
    false
}

fn is_special_first_exec(c: char) -> (r: bool)
    ensures
        r == is_special_first(c),
{
    c == '!' || c == '&' || c == '*' || c == '%' || c == '@' || c == '`' || c == ',' || c == '['
        || c == ']' || c == '{' || c == '}' || c == '>' || c == '|' || c == '#' || c == '?' || c
        == '-' || c == ':'
}

/// Does a string value need quoting in YAML output?
pub fn needs_quoting(s: &str) -> (r: bool)
    ensures
        r == needs_quotes(s@),
{
    let v = chars_of(s);
    if v.len() == 0 {
        return true;
    }
    let l = lower_vec(&v);
    if is_keyword(&l) {
        return true;
    }
    if looks_like_number(&v) {
        return true;
    }
    contains_vec(&v, &[':', ' ']) || contains_vec(&v, &[' ', '#']) || has_char_vec(&v, '\n')
        || has_char_vec(&v, '\'') || has_char_vec(&v, '"') || is_special_first_exec(v[0]) || v[v.len()
        - 1] == ':'
}

/// Quote a YAML string when forced or needed.
pub fn emit_yaml_string(s: &str, settings: &crate::types::FormatYamlFrontmatterSetting) -> (r: String)
    ensures
        r@ == (if settings.force_quotes || needs_quotes(s@) {
            quoted(s@, settings.quoting_type@)
        } else {
            s@
        }),
{
    if settings.force_quotes || needs_quoting(s) {
        quote_string(s, settings.quoting_type.as_str())
    } else {
        string_of(&chars_of(s))
    }
}

// ---------------------------------------------------------------------------
// Pre-quoting unsafe values
// ---------------------------------------------------------------------------

pub open spec fn wrapped_in(v: Seq<char>, open: char, close: char) -> bool {
    starts_with(v, seq![open]) && ends_with(v, seq![close])
}

/// One line of `preprocess_yaml_for_parsing`: an unquoted `key: value` whose
/// value holds `: `, ` #` or starts with a YAML indicator is double-quoted;
/// quoted values, flow collections and block scalar indicators are kept.
pub open spec fn preprocess_line(line: Seq<char>) -> Seq<char> {
    match first_match(YAML_MAPPING@, line) {
        None => line,
        Some(m) => {
            let indent = group(m, 1);
            let key = group(m, 2);
            let value = trim(group(m, 3));
            if wrapped_in(value, '"', '"') || wrapped_in(value, '\'', '\'') {
                line
            } else if wrapped_in(value, '[', ']') || wrapped_in(value, '{', '}') {
                line
            } else if is_match(BLOCK_SCALAR@, value) {
                line
            } else if contains(value, seq![':', ' ']) || contains(value, seq![' ', '#']) || is_match(
                SPECIAL_START@,
                value,
            ) {
                indent + key + seq![':', ' ', '"'] + escape_dq(value) + seq!['"']
            } else {
                line
            }
        },
    }
}

pub open spec fn preprocessed(yaml: Seq<char>) -> Seq<char> {
    join_lines(split_lines(yaml).map_values(|l: Seq<char>| preprocess_line(l)))
}

fn wrapped_in_exec(v: &[char], open: char, close: char) -> (r: bool)
    ensures
        r == wrapped_in(v@, open, close),
{
    let r = v.len() >= 1 && v[0] == open && v[v.len() - 1] == close;
    proof {
        if r {
            assert(v@.take(1) =~= seq![open]);
            assert(v@.skip(v.len() - 1) =~= seq![close]);
        }
        if wrapped_in(v@, open, close) {
            assert(v@.take(1)[0] == open);
            assert(v@.skip(v.len() - 1)[0] == close);
        }
    }
    r
}

/// No character of `s` is a line break.
pub open spec fn one_line(s: Seq<char>) -> bool {
    forall|j: int| 0 <= j < s.len() ==> s[j] != '\n'
}

proof fn lemma_group_one_line(m: MatchView, line: Seq<char>, k: int)
    requires
        chars_within(m.1, line),
        one_line(line),
    ensures
        one_line(group(m, k)),
{
    assert forall|j: int| 0 <= j < group(m, k).len() implies group(m, k)[j] != '\n' by {
        assert(m.1[k] is Some);
        assert(line.contains(m.1[k]->0[j]));
    }
}

proof fn lemma_trim_one_line(v: Seq<char>)
    requires
        one_line(v),
    ensures
        one_line(trim(v)),
{
    lemma_lead_count_bounds(v, ws_pred());
    let a = lead_count(v, ws_pred());
    lemma_trail_count_bounds(trim_start(v), ws_pred());
    assert forall|j: int| 0 <= j < trim(v).len() implies trim(v)[j] != '\n' by {
        assert(trim(v)[j] == trim_start(v)[j]);
        assert(trim_start(v)[j] == v[a + j]);
    }
}

proof fn lemma_escape_dq_one_line(v: Seq<char>)
    requires
        one_line(v),
    ensures
        one_line(escape_dq(v)),
    decreases v.len(),
{
    if v.len() > 0 {
        lemma_escape_dq_one_line(v.drop_last());
        let tail = if v.last() == '\\' {
            seq!['\\', '\\']
        } else if v.last() == '"' {
            seq!['\\', '"']
        } else {
            seq![v.last()]
        };
        assert(escape_dq(v) == escape_dq(v.drop_last()) + tail);
        assert forall|j: int| 0 <= j < escape_dq(v).len() implies escape_dq(v)[j] != '\n' by {
            if j >= escape_dq(v.drop_last()).len() {
                assert(escape_dq(v)[j] == tail[j - escape_dq(v.drop_last()).len()]);
            }
        }
    }
}

fn preprocess_line_exec(line: &[char]) -> (r: Vec<char>)
    ensures
        r@ == preprocess_line(line@),
        one_line(line@) ==> one_line(r@),
{
    let m = match find_first(YAML_MAPPING, line) {
        None => return crate::text::slice_vec(line, 0, line.len()),
        Some(m) => m,
    };
    let indent = group_chars(&m, 1);
    let key = group_chars(&m, 2);
    let value = trim_vec(&group_chars(&m, 3));
    if wrapped_in_exec(&value, '"', '"') || wrapped_in_exec(&value, '\'', '\'') || wrapped_in_exec(
        &value,
        '[',
        ']',
    ) || wrapped_in_exec(&value, '{', '}') || matches(BLOCK_SCALAR, &value) {
        return crate::text::slice_vec(line, 0, line.len());
    }
    if contains_vec(&value, &[':', ' ']) || contains_vec(&value, &[' ', '#']) || matches(
        SPECIAL_START,
        &value,
    ) {
        let mut out = indent;
        push_all(&mut out, &key);
        out.push(':');
        out.push(' ');
        out.push('"');
        push_all(&mut out, &escape_dq_vec(&value));
        out.push('"');
        assert(out@ =~= preprocess_line(line@));
        proof {
            if one_line(line@) {
                let mv = first_view(m);
                lemma_group_one_line(mv, line@, 1);
                lemma_group_one_line(mv, line@, 2);
                lemma_group_one_line(mv, line@, 3);
                lemma_trim_one_line(group(mv, 3));
                lemma_escape_dq_one_line(value@);
                let tail = seq![':', ' ', '"'];
                assert(out@ =~= group(mv, 1) + group(mv, 2) + tail + escape_dq(value@) + seq!['"']);
                assert forall|j: int| 0 <= j < out@.len() implies out@[j] != '\n' by {
                    let a = group(mv, 1).len();
                    let b = a + group(mv, 2).len();
                    let c = b + 3;
                    let d = c + escape_dq(value@).len();
                    if j < a {
                        assert(out@[j] == group(mv, 1)[j]);
                    } else if j < b {
                        assert(out@[j] == group(mv, 2)[j - a]);
                    } else if j < c {
                        assert(out@[j] == tail[j - b]);
                    } else if j < d {
                        assert(out@[j] == escape_dq(value@)[j - c]);
                    } else {
                        assert(out@[j] == '"');
                    }
                }
            }
        }
        return out;
    }
    crate::text::slice_vec(line, 0, line.len())
}

/// Quote `key: value` values that would otherwise break YAML parsing. The
/// text keeps its lines: line `k` of the result is `preprocess_line` of line
/// `k` of the input, so a line the mapping pattern does not match is kept.
pub fn preprocess_yaml_for_parsing(yaml_text: &str) -> (r: String)
    ensures
        r@ == preprocessed(yaml_text@),
        split_lines(r@).len() == split_lines(yaml_text@).len(),
        forall|k: int| 0 <= k < split_lines(yaml_text@).len()
            ==> #[trigger] split_lines(r@)[k] == preprocess_line(split_lines(yaml_text@)[k]),
        forall|k: int| 0 <= k < split_lines(yaml_text@).len() && first_match(YAML_MAPPING@, split_lines(yaml_text@)[k]) is None
            ==> #[trigger] split_lines(r@)[k] == split_lines(yaml_text@)[k],
{
    proof {
        lemma_join_split(yaml_text@);
        lemma_split_no_newline(yaml_text@);
    }
    let c = chars_of(yaml_text);
    let ls = split_lines_vec(&c);
    let ghost g = lv(ls@);
    let ghost target = g.map_values(|l: Seq<char>| preprocess_line(l));
    let mut out: Vec<Vec<char>> = Vec::new();
    let mut i: usize = 0;
    while i < ls.len()
        invariant
            i <= ls.len(),
            g == lv(ls@),
            target == g.map_values(|l: Seq<char>| preprocess_line(l)),
            lv(out@) == target.take(i as int),
            g == split_lines(yaml_text@),
            forall|k: int| 0 <= k < g.len() ==> one_line(#[trigger] g[k]),
            forall|k: int| 0 <= k < i ==> one_line(#[trigger] target[k]),
        decreases ls.len() - i,
    {
        assert(one_line(g[i as int]));
        let l = preprocess_line_exec(&ls[i]);
        assert(ls[i as int]@ == g[i as int]);
        assert(l@ == target[i as int]);
        let ghost prev = out@;
        out.push(l);
        assert(lv(out@) =~= lv(prev).push(l@));
        assert(target.take(i + 1) =~= target.take(i as int).push(target[i as int]));
        i += 1;
    }
    assert(target.take(ls.len() as int) =~= target);
    proof {
        assert forall|k: int, j: int| 0 <= k < target.len() && 0 <= j < target[k].len() implies target[k][j] != '\n' by {
            assert(one_line(target[k]));
        }
        lemma_split_join(target);
    }
    let j = join_lines_vec(&out);
    string_of(&j)
}

// ---------------------------------------------------------------------------
// Block scalars preserved verbatim
// ---------------------------------------------------------------------------

/// `char::is_alphanumeric` (Unicode `Alphabetic` or `Numeric`).
pub uninterp spec fn unicode_alphanumeric(c: char) -> bool;

/// `char::is_alphanumeric`; the result is named `unicode_alphanumeric`.
#[verifier::external_body]
fn char_is_alphanumeric(c: char) -> (r: bool)
    ensures
        r == unicode_alphanumeric(c),
{
    c.is_alphanumeric()
}

pub open spec fn is_key_char(c: char) -> bool {
    unicode_alphanumeric(c) || c == '_' || c == '-' || c == '.'
}

/// A plain mapping key that may introduce a nested path level.
pub open spec fn is_path_key(k: Seq<char>) -> bool {
    k.len() > 0 && forall|i: int| 0 <= i < k.len() ==> is_key_char(#[trigger] k[i])
}

/// Byte width of a line's leading white space.
pub open spec fn indent_bytes(line: Seq<char>) -> nat {
    crate::text::utf8_len(line.take(lead_count(line, ws_pred()) as int))
}

/// Pop path entries at an indent `>= indent`.
pub open spec fn pop_ge(stack: Seq<(nat, Seq<char>)>, indent: nat) -> Seq<(nat, Seq<char>)>
    decreases stack.len(),
{
    if stack.len() > 0 && stack.last().0 >= indent {
        pop_ge(stack.drop_last(), indent)
    } else {
        stack
    }
}

pub open spec fn path_keys(stack: Seq<(nat, Seq<char>)>) -> Seq<Seq<char>> {
    stack.map_values(|e: (nat, Seq<char>)| e.1)
}

/// End (exclusive) of the block scalar content starting at `j`: empty lines
/// and lines indented deeper than `indent`.
pub open spec fn content_end(ls: Seq<Seq<char>>, j: int, indent: nat) -> int
    decreases ls.len() - j,
{
    if j < 0 || j >= ls.len() {
        j
    } else if ls[j].len() == 0 {
        content_end(ls, j + 1, indent)
    } else if indent_bytes(ls[j]) <= indent {
        j
    } else {
        content_end(ls, j + 1, indent)
    }
}

/// Trailing empty lines removed.
pub open spec fn drop_trailing_empty(s: Seq<Seq<char>>) -> Seq<Seq<char>>
    decreases s.len(),
{
    if s.len() > 0 && s.last().len() == 0 {
        drop_trailing_empty(s.drop_last())
    } else {
        s
    }
}

pub open spec fn starts_sequence_item(t: Seq<char>) -> bool {
    t == seq!['-'] || starts_with(t, seq!['-', ' '])
}

/// The scan of `extract_block_scalars` from line `i`.
pub open spec fn block_scan(
    ls: Seq<Seq<char>>,
    i: int,
    stack: Seq<(nat, Seq<char>)>,
    acc: Map<Seq<Seq<char>>, Seq<char>>,
) -> Map<Seq<Seq<char>>, Seq<char>>
    decreases ls.len() - i,
{
    if i < 0 || i >= ls.len() {
        acc
    } else {
        let line = ls[i];
        if is_blank(line) || starts_with(trim_start(line), seq!['#']) {
            block_scan(ls, i + 1, stack, acc)
        } else {
            let k = lead_count(line, ws_pred());
            let indent = indent_bytes(line);
            let t = line.skip(k as int);
            let st = pop_ge(stack, indent);
            if starts_sequence_item(t) {
                block_scan(ls, i + 1, st, acc)
            } else {
                match first_match(YAML_BLOCK_SCALAR_KEY@, t) {
                    Some(m) => {
                        let path = path_keys(st).push(group(m, 1));
                        let j = content_end(ls, i + 1, indent);
                        proof {
                            lemma_content_end(ls, i + 1, indent);
                        }
                        let content = drop_trailing_empty(ls.subrange(i + 1, j));
                        let text = if content.len() == 0 {
                            group(m, 2)
                        } else {
                            group(m, 2) + seq!['\n'] + join_lines(content)
                        };
                        if j > i {
                            block_scan(ls, j, st, acc.insert(path, text))
                        } else {
                            acc
                        }
                    },
                    None => {
                        let c = crate::text::first_index(t, ':');
                        let st2 = if c < t.len() && is_path_key(t.take(c as int)) {
                            st.push((indent, t.take(c as int)))
                        } else {
                            st
                        };
                        block_scan(ls, i + 1, st2, acc)
                    },
                }
            }
        }
    }
}

/// Paths (key segments) of block-scalar values, each mapped to its indicator
/// and content lines, verbatim.
pub open spec fn block_scalars_of(yaml: Seq<char>) -> Map<Seq<Seq<char>>, Seq<char>> {
    block_scan(split_lines(yaml), 0, Seq::empty(), Map::empty())
}

pub proof fn lemma_content_end(ls: Seq<Seq<char>>, j: int, indent: nat)
    requires
        0 <= j <= ls.len(),
    ensures
        j <= content_end(ls, j, indent) <= ls.len(),
    decreases ls.len() - j,
{
    if j < ls.len() && (ls[j].len() == 0 || indent_bytes(ls[j]) > indent) {
        lemma_content_end(ls, j + 1, indent);
    }
}

/// A path of key segments with its preserved block text.
pub struct BlockScalar {
    pub path: Vec<Vec<char>>,
    pub text: Vec<char>,
}

/// Map view of an association list: later entries win.
pub open spec fn assoc_view(s: Seq<BlockScalar>) -> Map<Seq<Seq<char>>, Seq<char>>
    decreases s.len(),
{
    if s.len() == 0 {
        Map::empty()
    } else {
        assoc_view(s.drop_last()).insert(lv(s.last().path@), s.last().text@)
    }
}

fn indent_bytes_exec(line: &[char]) -> (r: u128)
    ensures
        r == indent_bytes(line@),
{
    let k = lead_ws_len(line);
    let lead = crate::text::slice_vec(line, 0, k);
    assert(lead@ =~= line@.take(k as int));
    crate::text::utf8_len_exec(&lead)
}

fn is_path_key_exec(k: &[char]) -> (r: bool)
    ensures
        r == is_path_key(k@),
{
    if k.len() == 0 {
        return false;
    }
    let mut i: usize = 0;
    while i < k.len()
        invariant
            i <= k.len(),
            forall|j: int| 0 <= j < i ==> is_key_char(#[trigger] k@[j]),
        decreases k.len() - i,
    {
        let c = k[i];
        if !(char_is_alphanumeric(c) || c == '_' || c == '-' || c == '.') {
            return false;
        }
        i += 1;
    }
    true
}

fn copy_lines(ls: &Vec<Vec<char>>, a: usize, b: usize) -> (r: Vec<Vec<char>>)
    requires
        a <= b <= ls.len(),
    ensures
        lv(r@) == lv(ls@).subrange(a as int, b as int),
{
    let mut out: Vec<Vec<char>> = Vec::new();
    let mut i = a;
    while i < b
        invariant
            a <= i <= b <= ls.len(),
            lv(out@) == lv(ls@).subrange(a as int, i as int),
        decreases b - i,
    {
        let v = crate::text::slice_vec(&ls[i], 0, ls[i].len());
        assert(v@ =~= lv(ls@)[i as int]);
        let ghost prev = out@;
        out.push(v);
        assert(lv(out@) =~= lv(prev).push(v@));
        assert(lv(ls@).subrange(a as int, i + 1) =~= lv(ls@).subrange(a as int, i as int).push(lv(ls@)[i as int]));
        i += 1;
    }
    out
}

/// Scan YAML text for keys whose values are block scalars, at any nesting
/// depth outside sequences; each full key path maps to the indicator and
/// content lines, verbatim.
pub fn extract_block_scalars(yaml_text: &str) -> (r: Vec<BlockScalar>)
    ensures
        assoc_view(r@) == block_scalars_of(yaml_text@),
{
    let c = chars_of(yaml_text);
    let ls = split_lines_vec(&c);
    let ghost g = lv(ls@);
    let mut result: Vec<BlockScalar> = Vec::new();
    let mut stack: Vec<(u128, Vec<char>)> = Vec::new();
    let mut i: usize = 0;
    assert(stack@.map_values(|e: (u128, Vec<char>)| (e.0 as nat, e.1@)) =~= Seq::<(nat, Seq<char>)>::empty());
    assert(assoc_view(result@) == Map::<Seq<Seq<char>>, Seq<char>>::empty());
    while i < ls.len()
        invariant
            i <= ls.len(),
            g == lv(ls@),
            block_scalars_of(yaml_text@) == block_scan(
                g,
                i as int,
                stack@.map_values(|e: (u128, Vec<char>)| (e.0 as nat, e.1@)),
                assoc_view(result@),
            ),
        decreases ls.len() - i,
    {
        let ghost sv0 = stack@.map_values(|e: (u128, Vec<char>)| (e.0 as nat, e.1@));
        let line = &ls[i];
        assert(line@ == g[i as int]);
        let ts = trim_start_vec(line);
        assert(starts_with(trim_start(g[i as int]), seq!['#']) == (ts.len() > 0 && ts[0] == '#')) by {
            if ts.len() > 0 && ts[0] == '#' {
                assert(ts@.take(1) =~= seq!['#']);
            }
            if starts_with(ts@, seq!['#']) {
                assert(ts@.take(1)[0] == '#');
            }
        }
        if is_blank_line(line) || (ts.len() > 0 && ts[0] == '#') {
            assert(block_scan(g, i as int, sv0, assoc_view(result@)) == block_scan(g, i + 1, sv0, assoc_view(result@)));
            i += 1;
            continue;
        }
        let k = lead_ws_len(line);
        let indent = indent_bytes_exec(line);
        let t = crate::text::slice_vec(line, k, line.len());
        assert(t@ =~= g[i as int].skip(k as int));
        // pop the path stack
        while stack.len() > 0 && stack[stack.len() - 1].0 >= indent
            invariant
                pop_ge(sv0, indent as nat) == pop_ge(stack@.map_values(|e: (u128, Vec<char>)| (e.0 as nat, e.1@)), indent as nat),
            decreases stack.len(),
        {
            let ghost before = stack@.map_values(|e: (u128, Vec<char>)| (e.0 as nat, e.1@));
            stack.pop();
            assert(stack@.map_values(|e: (u128, Vec<char>)| (e.0 as nat, e.1@)) =~= before.drop_last());
        }
        let ghost st = stack@.map_values(|e: (u128, Vec<char>)| (e.0 as nat, e.1@));
        assert(pop_ge(st, indent as nat) == st);
        assert(st == pop_ge(sv0, indent as nat));
        let seq_item = (t.len() == 1 && t[0] == '-') || (t.len() >= 2 && t[0] == '-' && t[1] == ' ');
        assert(seq_item == starts_sequence_item(t@)) by {
            if t.len() == 1 && t[0] == '-' {
                assert(t@ =~= seq!['-']);
            }
            if t.len() >= 2 && t[0] == '-' && t[1] == ' ' {
                assert(t@.take(2) =~= seq!['-', ' ']);
            }
            if t@ == seq!['-'] {
                assert(t@[0] == '-');
            }
            if starts_with(t@, seq!['-', ' ']) {
                assert(t@.take(2)[0] == '-' && t@.take(2)[1] == ' ');
            }
        }
        if seq_item {
            assert(block_scan(g, i as int, sv0, assoc_view(result@)) == block_scan(g, i + 1, st, assoc_view(result@)));
            i += 1;
            continue;
        }
        match find_first(YAML_BLOCK_SCALAR_KEY, &t) {
            Some(m) => {
                let key = group_chars(&m, 1);
                let indicator = group_chars(&m, 2);
                let mut path: Vec<Vec<char>> = Vec::new();
                let mut q: usize = 0;
                let ghost pk = path_keys(st);
                assert(pk.len() == stack.len());
                assert(forall|w: int| 0 <= w < stack.len() ==> pk[w] == (#[trigger] stack@[w]).1@);
                while q < stack.len()
                    invariant
                        q <= stack.len(),
                        pk.len() == stack.len(),
                        forall|w: int| 0 <= w < stack.len() ==> pk[w] == (#[trigger] stack@[w]).1@,
                        lv(path@) == pk.take(q as int),
                    decreases stack.len() - q,
                {
                    let v = crate::text::slice_vec(&stack[q].1, 0, stack[q].1.len());
                    assert(v@ =~= pk[q as int]);
                    let ghost prev = path@;
                    path.push(v);
                    assert(lv(path@) =~= lv(prev).push(v@));
                    assert(pk.take(q + 1) =~= pk.take(q as int).push(pk[q as int]));
                    q += 1;
                }
                assert(pk.take(q as int) =~= pk);
                let ghost prev_path = path@;
                path.push(key);
                assert(lv(path@) =~= lv(prev_path).push(key@));
                let mut j = i + 1;
                while j < ls.len() && (ls[j].len() == 0 || indent_bytes_exec(&ls[j]) > indent)
                    invariant
                        i + 1 <= j <= ls.len(),
                        g == lv(ls@),
                        content_end(g, i + 1, indent as nat) == content_end(g, j as int, indent as nat),
                    decreases ls.len() - j,
                {
                    j += 1;
                }
                assert(content_end(g, j as int, indent as nat) == j);
                let mut content = copy_lines(&ls, i + 1, j);
                while content.len() > 0 && content[content.len() - 1].len() == 0
                    invariant
                        i + 1 <= j <= g.len(),
                        drop_trailing_empty(g.subrange(i + 1, j as int)) == drop_trailing_empty(lv(content@)),
                    decreases content.len(),
                {
                    let ghost before = lv(content@);
                    content.pop();
                    assert(lv(content@) =~= before.drop_last());
                }
                assert(drop_trailing_empty(lv(content@)) == lv(content@));
                let mut text = indicator;
                if content.len() > 0 {
                    text.push('\n');
                    let body = join_lines_vec(&content);
                    push_all(&mut text, &body);
                }
                let ghost path_v = lv(path@);
                let ghost text_v = text@;
                assert(path_v == path_keys(st).push(group(first_view(m), 1)));
                assert(text_v == (if drop_trailing_empty(g.subrange(i + 1, j as int)).len() == 0 {
                    group(first_view(m), 2)
                } else {
                    group(first_view(m), 2) + seq!['\n'] + join_lines(drop_trailing_empty(g.subrange(i + 1, j as int)))
                }));
                let entry = BlockScalar { path, text };
                let ghost prev_res = result@;
                result.push(entry);
                assert(result@.drop_last() =~= prev_res);
                assert(assoc_view(result@) == assoc_view(prev_res).insert(path_v, text_v));
                assert(block_scan(g, i as int, sv0, assoc_view(prev_res)) == block_scan(g, j as int, st, assoc_view(prev_res).insert(path_v, text_v)));
                i = j;
            },
            None => {
                let colon: Vec<char> = vec![':'];
                assert(colon@ =~= seq![':']);
                match crate::text::find_vec(&t, &colon) {
                    Some(cpos) => {
                        proof {
                            assert forall|j: int| 0 <= j < cpos implies t@[j] != ':' by {
                                if t@[j] == ':' {
                                    assert(t@.subrange(j, j + 1) =~= seq![':']);
                                    assert(crate::text::occurs_at(t@, seq![':'], j));
                                }
                            }
                            assert(t@.subrange(cpos as int, cpos + 1)[0] == ':');
                            crate::text::lemma_first_index_char(t@, ':', cpos as int);
                        }
                        let cand = crate::text::slice_vec(&t, 0, cpos);
                        assert(cand@ =~= t@.take(cpos as int));
                        if is_path_key_exec(&cand) {
                            stack.push((indent, cand));
                            assert(stack@.map_values(|e: (u128, Vec<char>)| (e.0 as nat, e.1@)) =~= st.push((indent as nat, t@.take(cpos as int))));
                        }
                    },
                    None => {
                        proof {
                            crate::text::lemma_first_index(t@, ':');
                            if crate::text::first_index(t@, ':') < t@.len() {
                                let c0 = crate::text::first_index(t@, ':') as int;
                                assert(crate::text::occurs_at(t@, seq![':'], c0)) by {
                                    assert(t@.subrange(c0, c0 + 1) =~= seq![':']);
                                }
                            }
                        }
                    },
                }
                i += 1;
            },
        }
    }
    result
}

} // verus!
