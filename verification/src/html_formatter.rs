//! Indentation of HTML blocks by tag nesting.
use vstd::prelude::*;
use crate::text::{
    trim, spaces, split_lines, join_lines, lv, chars_of, string_of, trim_vec, push_all,
    split_lines_vec, join_lines_vec, has_char, has_char_vec, spaces_vec, lemma_trim_ends, lemma_trim_padded,
};
use crate::pattern::{
    MatchView, whole, group, first_match, regex_scan_of, regex_scan, find_first, first_view,
    FirstMatch, matches_text, RegexScan,
};

verus! {

/// Opening tag at the start of a line: (1) tag name, (2) attributes.
pub const OPENING_TAG: &'static str = r"^<([a-zA-Z][a-zA-Z0-9]*)(\s[^>]*)?>";
/// Closing tag at the start of a line: (1) tag name.
pub const CLOSING_TAG: &'static str = r"^</([a-zA-Z][a-zA-Z0-9]*)>";
/// Self-closing tag (`<br />`, `<img ... />`).
pub const SELF_CLOSING: &'static str = r"^<([a-zA-Z][a-zA-Z0-9]*)(\s[^>]*)?\s*/>";
/// `<dt>` with no nested tag: (1) content.
pub const DT_TAG: &'static str = r"<dt>([^<]*)</dt>";
/// `<dd>` with no nested tag: (1) content.
pub const DD_TAG: &'static str = r"<dd>([^<]*)</dd>";
/// Start of an opening tag, closing bracket not required.
pub const OPENING_TAG_START: &'static str = r"^<[a-zA-Z][a-zA-Z0-9]*";
/// `<dt>`/`<dd>` with surrounding white space inside: (1) open, (2) content, (3) close.
pub const DT_DD_TRIM: &'static str = r"<(dt|dd)>\s*(.*?)\s*</(dt|dd)>";
/// A run of white space.
pub const WHITESPACE_RUN: &'static str = r"\s+";

// ---------------------------------------------------------------------------
// Void elements
// ---------------------------------------------------------------------------

pub open spec fn ascii_lower_char(c: char) -> char {
    if 'A' <= c && c <= 'Z' {
        ((c as u32) + 32) as char
    } else {
        c
    }
}

pub open spec fn ascii_lower(s: Seq<char>) -> Seq<char> {
    Seq::new(s.len(), |i: int| ascii_lower_char(s[i]))
}

/// The HTML void elements.
pub open spec fn void_names() -> Seq<Seq<char>> {
    seq![
        seq!['a', 'r', 'e', 'a'],
        seq!['b', 'a', 's', 'e'],
        seq!['b', 'r'],
        seq!['c', 'o', 'l'],
        seq!['e', 'm', 'b', 'e', 'd'],
        seq!['h', 'r'],
        seq!['i', 'm', 'g'],
        seq!['i', 'n', 'p', 'u', 't'],
        seq!['l', 'i', 'n', 'k'],
        seq!['m', 'e', 't', 'a'],
        seq!['p', 'a', 'r', 'a', 'm'],
        seq!['s', 'o', 'u', 'r', 'c', 'e'],
        seq!['t', 'r', 'a', 'c', 'k'],
        seq!['w', 'b', 'r'],
    ]
}

pub open spec fn is_void(tag: Seq<char>) -> bool {
    void_names().contains(ascii_lower(tag))
}

/// The HTML void elements, matched without regard to ASCII letter case, are
/// exactly `area`, `base`, `br`, `col`, `embed`, `hr`, `img`, `input`,
/// `link`, `meta`, `param`, `source`, `track` and `wbr`: such a tag opens no
/// level of nesting.
pub proof fn lemma_void_elements(tag: Seq<char>)
    ensures
        is_void(tag) <==> ({
            let l = ascii_lower(tag);
            ||| l == seq!['a', 'r', 'e', 'a']
            ||| l == seq!['b', 'a', 's', 'e']
            ||| l == seq!['b', 'r']
            ||| l == seq!['c', 'o', 'l']
            ||| l == seq!['e', 'm', 'b', 'e', 'd']
            ||| l == seq!['h', 'r']
            ||| l == seq!['i', 'm', 'g']
            ||| l == seq!['i', 'n', 'p', 'u', 't']
            ||| l == seq!['l', 'i', 'n', 'k']
            ||| l == seq!['m', 'e', 't', 'a']
            ||| l == seq!['p', 'a', 'r', 'a', 'm']
            ||| l == seq!['s', 'o', 'u', 'r', 'c', 'e']
            ||| l == seq!['t', 'r', 'a', 'c', 'k']
            ||| l == seq!['w', 'b', 'r']
        }),
{
    let l = ascii_lower(tag);
    let v = void_names();
    if v.contains(l) {
        let i = choose|i: int| 0 <= i < v.len() && v[i] == l;
        assert(0 <= i < 14);
    }
    if l == seq!['a', 'r', 'e', 'a'] { assert(v[0] == l); }
    if l == seq!['b', 'a', 's', 'e'] { assert(v[1] == l); }
    if l == seq!['b', 'r'] { assert(v[2] == l); }
    if l == seq!['c', 'o', 'l'] { assert(v[3] == l); }
    if l == seq!['e', 'm', 'b', 'e', 'd'] { assert(v[4] == l); }
    if l == seq!['h', 'r'] { assert(v[5] == l); }
    if l == seq!['i', 'm', 'g'] { assert(v[6] == l); }
    if l == seq!['i', 'n', 'p', 'u', 't'] { assert(v[7] == l); }
    if l == seq!['l', 'i', 'n', 'k'] { assert(v[8] == l); }
    if l == seq!['m', 'e', 't', 'a'] { assert(v[9] == l); }
    if l == seq!['p', 'a', 'r', 'a', 'm'] { assert(v[10] == l); }
    if l == seq!['s', 'o', 'u', 'r', 'c', 'e'] { assert(v[11] == l); }
    if l == seq!['t', 'r', 'a', 'c', 'k'] { assert(v[12] == l); }
    if l == seq!['w', 'b', 'r'] { assert(v[13] == l); }
}

fn ascii_lower_vec(s: &[char]) -> (r: Vec<char>)
    ensures
        r@ == ascii_lower(s@),
{
    let mut out: Vec<char> = Vec::new();
    let mut i: usize = 0;
    while i < s.len()
        invariant
            i <= s.len(),
            out@ == ascii_lower(s@).take(i as int),
        decreases s.len() - i,
    {
        let c = s[i];
        let l = if 'A' <= c && c <= 'Z' { ((c as u32) + 32) as u8 as char } else { c };
        assert(l == ascii_lower_char(c)) by {
            if 'A' <= c && c <= 'Z' {
                assert(((c as u32) + 32) < 256);
            }
        }
        out.push(l);
        assert(out@ =~= ascii_lower(s@).take(i + 1));
        i += 1;
    }
    assert(ascii_lower(s@).take(s.len() as int) =~= ascii_lower(s@));
    out
}

pub fn seq_eq(a: &[char], b: &[char]) -> (r: bool)
    ensures
        r == (a@ == b@),
{
    if a.len() != b.len() {
        return false;
    }
    let mut i: usize = 0;
    while i < a.len()
        invariant
            a.len() == b.len(),
            i <= a.len(),
            forall|j: int| 0 <= j < i ==> a@[j] == b@[j],
        decreases a.len() - i,
    {
        if a[i] != b[i] {
            return false;
        }
        i += 1;
    }
    assert(a@ =~= b@);
    true
}

/// Is `tag` (case-insensitively) a void element?
pub fn is_void_element(tag: &[char]) -> (r: bool)
    ensures
        r == is_void(tag@),
{
    let l = ascii_lower_vec(tag);
    let names: Vec<Vec<char>> = vec![
        vec!['a', 'r', 'e', 'a'],
        vec!['b', 'a', 's', 'e'],
        vec!['b', 'r'],
        vec!['c', 'o', 'l'],
        vec!['e', 'm', 'b', 'e', 'd'],
        vec!['h', 'r'],
        vec!['i', 'm', 'g'],
        vec!['i', 'n', 'p', 'u', 't'],
        vec!['l', 'i', 'n', 'k'],
        vec!['m', 'e', 't', 'a'],
        vec!['p', 'a', 'r', 'a', 'm'],
        vec!['s', 'o', 'u', 'r', 'c', 'e'],
        vec!['t', 'r', 'a', 'c', 'k'],
        vec!['w', 'b', 'r'],
    ];
    assert(lv(names@) =~= void_names());
    let mut i: usize = 0;
    while i < names.len()
        invariant
            i <= names.len(),
            lv(names@) == void_names(),
            l@ == ascii_lower(tag@),
            forall|j: int| 0 <= j < i ==> void_names()[j] != l@,
        decreases names.len() - i,
    {
        if seq_eq(&names[i], &l) {
            assert(void_names()[i as int] == l@);
            return true;
        }
        i += 1;
    }
    false
}


// ---------------------------------------------------------------------------
// Per-line depth changes
// ---------------------------------------------------------------------------

/// How far a scan moves past a match: the match end (with its gap) or the
/// match length; at least one character.
pub open spec fn advance(m: MatchView, with_gap: bool) -> nat {
    let a = (if with_gap { m.0.len() } else { 0nat }) + whole(m).len();
    if a == 0 {
        1
    } else {
        a
    }
}

pub open spec fn min_int(a: int, b: int) -> int {
    if a < b { a } else { b }
}

/// Scan a trimmed line from `pos`: self-closing tags leave the depth alone,
/// closing tags lower it (tracking the lowest point), opening non-void tags
/// raise it.
pub open spec fn depth_scan(t: Seq<char>, pos: int, delta: int, mn: int) -> (int, int)
    decreases t.len() - pos,
{
    if pos < 0 || pos >= t.len() {
        (mn, delta - mn)
    } else if t[pos] != '<' {
        depth_scan(t, pos + 1, delta, mn)
    } else {
        let rem = t.skip(pos);
        match first_match(SELF_CLOSING@, rem) {
            Some(m) => depth_scan(t, min_int(pos + advance(m, true), t.len() as int), delta, mn),
            None => match first_match(CLOSING_TAG@, rem) {
                Some(m) => depth_scan(
                    t,
                    min_int(pos + advance(m, false), t.len() as int),
                    delta - 1,
                    min_int(mn, delta - 1),
                ),
                None => match first_match(OPENING_TAG@, rem) {
                    Some(m) => depth_scan(
                        t,
                        min_int(pos + advance(m, false), t.len() as int),
                        if is_void(group(m, 1)) {
                            delta
                        } else {
                            delta + 1
                        },
                        mn,
                    ),
                    None => depth_scan(t, pos + 1, delta, mn),
                },
            },
        }
    }
}

/// What one tag does to the depth count: at a `<` where the first pattern
/// to match is an opening tag, the scan goes on past the tag with the depth
/// unchanged for a void element and one deeper for any other element; a
/// closing tag makes it one shallower; a self-closing tag leaves it.
proof fn lemma_depth_scan_tag(t: Seq<char>, pos: int, delta: int, mn: int)
    requires
        0 <= pos < t.len(),
        t[pos] == '<',
    ensures
        first_match(SELF_CLOSING@, t.skip(pos)) matches Some(m) ==> depth_scan(t, pos, delta, mn)
            == depth_scan(t, min_int(pos + advance(m, true), t.len() as int), delta, mn),
        first_match(SELF_CLOSING@, t.skip(pos)) is None ==> (first_match(CLOSING_TAG@, t.skip(pos)) matches Some(m)
            ==> depth_scan(t, pos, delta, mn) == depth_scan(t, min_int(pos + advance(m, false), t.len() as int), delta - 1, min_int(mn, delta - 1))),
        first_match(SELF_CLOSING@, t.skip(pos)) is None && first_match(CLOSING_TAG@, t.skip(pos)) is None
            ==> (first_match(OPENING_TAG@, t.skip(pos)) matches Some(m) ==> depth_scan(t, pos, delta, mn) == depth_scan(
                t,
                min_int(pos + advance(m, false), t.len() as int),
                if is_void(group(m, 1)) { delta } else { delta + 1 },
                mn,
            )),
{
}

/// An opening `img`, `br`, `hr`, `input` (or any other void element, in any
/// letter case) leaves the depth where it was.
pub proof fn lemma_void_opening_keeps_depth(t: Seq<char>, pos: int, delta: int, mn: int, m: MatchView)
    requires
        0 <= pos < t.len(),
        t[pos] == '<',
        first_match(SELF_CLOSING@, t.skip(pos)) is None,
        first_match(CLOSING_TAG@, t.skip(pos)) is None,
        first_match(OPENING_TAG@, t.skip(pos)) == Some(m),
        ({
            let l = ascii_lower(group(m, 1));
            l == seq!['i', 'm', 'g'] || l == seq!['b', 'r'] || l == seq!['h', 'r'] || l == seq!['i', 'n', 'p', 'u', 't']
                || l == seq!['m', 'e', 't', 'a'] || l == seq!['l', 'i', 'n', 'k'] || l == seq!['w', 'b', 'r']
                || l == seq!['a', 'r', 'e', 'a'] || l == seq!['b', 'a', 's', 'e'] || l == seq!['c', 'o', 'l']
                || l == seq!['e', 'm', 'b', 'e', 'd'] || l == seq!['p', 'a', 'r', 'a', 'm']
                || l == seq!['s', 'o', 'u', 'r', 'c', 'e'] || l == seq!['t', 'r', 'a', 'c', 'k']
        }),
    ensures
        depth_scan(t, pos, delta, mn) == depth_scan(t, min_int(pos + advance(m, false), t.len() as int), delta, mn),
{
    lemma_void_elements(group(m, 1));
    lemma_depth_scan_tag(t, pos, delta, mn);
}

/// `(before, after)`: the un-indent applied to this line and the indent
/// added for the following lines.
pub open spec fn depth_changes(t: Seq<char>) -> (int, int) {
    depth_scan(t, 0, 0, 0)
}

fn group_vec(f: &FirstMatch, k: usize) -> (r: Vec<char>)
    ensures
        r@ == group(first_view(*f), k as int),
{
    if k < f.groups.len() {
        match &f.groups[k] {
            Some(v) => crate::text::slice_vec(v, 0, v.len()),
            None => Vec::new(),
        }
    } else {
        Vec::new()
    }
}

fn whole_len(f: &FirstMatch) -> (r: usize)
    ensures
        r == whole(first_view(*f)).len(),
{
    if f.groups.len() > 0 {
        match &f.groups[0] {
            Some(v) => v.len(),
            None => 0,
        }
    } else {
        0
    }
}

/// Depth changes of a trimmed line: `(before, after)`.
pub fn compute_depth_changes(t: &[char]) -> (r: (i128, i128))
    ensures
        (r.0 as int, r.1 as int) == depth_changes(t@),
        -(t.len() as int) <= r.0 <= 0,
        0 <= r.1 <= 2 * t.len(),
{
    let mut delta: i128 = 0;
    let mut mn: i128 = 0;
    let mut pos: usize = 0;
    while pos < t.len()
        invariant
            pos <= t.len(),
            -(pos as int) <= delta <= pos,
            -(pos as int) <= mn <= 0,
            mn <= delta,
            depth_changes(t@) == depth_scan(t@, pos as int, delta as int, mn as int),
        decreases t.len() - pos,
    {
        if t[pos] != '<' {
            pos += 1;
            continue;
        }
        let rem = crate::text::slice_vec(t, pos, t.len());
        assert(rem@ =~= t@.skip(pos as int));
        match find_first(SELF_CLOSING, &rem) {
            Some(m) => {
                let a = m.before.len() + whole_len(&m);
                pos = pos + if a == 0 { 1 } else { a };
                continue;
            },
            None => {},
        }
        match find_first(CLOSING_TAG, &rem) {
            Some(m) => {
                delta = delta - 1;
                if delta < mn {
                    mn = delta;
                }
                let a = whole_len(&m);
                pos = pos + if a == 0 { 1 } else { a };
                continue;
            },
            None => {},
        }
        match find_first(OPENING_TAG, &rem) {
            Some(m) => {
                let tag = group_vec(&m, 1);
                if !is_void_element(&tag) {
                    delta = delta + 1;
                }
                let a = whole_len(&m);
                pos = pos + if a == 0 { 1 } else { a };
                continue;
            },
            None => {},
        }
        pos += 1;
    }
    (mn, delta - mn)
}


// ---------------------------------------------------------------------------
// Replacements over regex matches
// ---------------------------------------------------------------------------

/// Every match replaced by a single space.
pub open spec fn rewritten_space(ms: Seq<MatchView>) -> Seq<char>
    decreases ms.len(),
{
    if ms.len() == 0 {
        Seq::empty()
    } else {
        rewritten_space(ms.drop_last()) + ms.last().0 + seq![' ']
    }
}

/// `WHITESPACE_RUN.replace_all(s, " ")`.
pub open spec fn spaces_collapsed(s: Seq<char>) -> Seq<char> {
    match regex_scan_of(WHITESPACE_RUN@, s) {
        Some((ms, tail)) => rewritten_space(ms) + tail,
        None => s,
    }
}

/// `collapse_whitespace`: white-space runs to one space, then trimmed.
pub open spec fn collapsed(s: Seq<char>) -> Seq<char> {
    trim(spaces_collapsed(s))
}

/// How a match is rewritten.
pub enum Rewrite {
    /// `<dt>` + collapsed group 1 + `</dt>`.
    CollapseDt,
    /// `<dd>` + collapsed group 1 + `</dd>`.
    CollapseDd,
    /// `<$1>$2</$3>`.
    TrimDtDd,
}

pub open spec fn dt_open() -> Seq<char> { seq!['<', 'd', 't', '>'] }
pub open spec fn dt_close() -> Seq<char> { seq!['<', '/', 'd', 't', '>'] }
pub open spec fn dd_open() -> Seq<char> { seq!['<', 'd', 'd', '>'] }
pub open spec fn dd_close() -> Seq<char> { seq!['<', '/', 'd', 'd', '>'] }

pub open spec fn rewrite_match(k: Rewrite, m: MatchView) -> Seq<char> {
    match k {
        Rewrite::CollapseDt => dt_open() + collapsed(group(m, 1)) + dt_close(),
        Rewrite::CollapseDd => dd_open() + collapsed(group(m, 1)) + dd_close(),
        Rewrite::TrimDtDd => seq!['<'] + group(m, 1) + seq!['>'] + group(m, 2) + seq!['<', '/']
            + group(m, 3) + seq!['>'],
    }
}

pub open spec fn rewritten(ms: Seq<MatchView>, k: Rewrite) -> Seq<char>
    decreases ms.len(),
{
    if ms.len() == 0 {
        Seq::empty()
    } else {
        rewritten(ms.drop_last(), k) + ms.last().0 + rewrite_match(k, ms.last())
    }
}

/// `replace_all` of `pattern` in `s` with the rewrite `k`.
pub open spec fn replaced_all(pattern: Seq<char>, s: Seq<char>, k: Rewrite) -> Seq<char> {
    match regex_scan_of(pattern, s) {
        Some((ms, tail)) => rewritten(ms, k) + tail,
        None => s,
    }
}

fn group_of(m: &crate::pattern::RegexMatch, k: usize) -> (r: Vec<char>)
    ensures
        r@ == group(m@, k as int),
{
    if k < m.groups.len() {
        match &m.groups[k] {
            Some(g) => chars_of(g.as_str()),
            None => Vec::new(),
        }
    } else {
        Vec::new()
    }
}

/// Collapse runs of white space to one space, then trim.
pub fn collapse_whitespace(s: &[char]) -> (r: Vec<char>)
    ensures
        r@ == collapsed(s@),
{
    let st = string_of(s);
    let sc = regex_scan(WHITESPACE_RUN, st.as_str());
    let mut out: Vec<char> = Vec::new();
    match sc {
        None => {
            push_all(&mut out, s);
        },
        Some(sc) => {
            let mut i: usize = 0;
            while i < sc.matches.len()
                invariant
                    i <= sc.matches.len(),
                    out@ == rewritten_space(sc@.0.take(i as int)),
                decreases sc.matches.len() - i,
            {
                let ghost prev = sc@.0.take(i as int);
                assert(sc@.0.take(i + 1).drop_last() =~= prev);
                assert(sc@.0.take(i + 1).last() == sc.matches@[i as int]@);
                let gap = chars_of(sc.matches[i].before.as_str());
                push_all(&mut out, &gap);
                out.push(' ');
                assert(out@ =~= rewritten_space(sc@.0.take(i + 1)));
                i += 1;
            }
            assert(sc@.0.take(sc.matches.len() as int) =~= sc@.0);
            let tail = chars_of(sc.tail.as_str());
            push_all(&mut out, &tail);
        },
    }
    trim_vec(&out)
}

fn rewrite_exec(k: &Rewrite, m: &crate::pattern::RegexMatch) -> (r: Vec<char>)
    ensures
        r@ == rewrite_match(*k, m@),
{
    let mut out: Vec<char> = Vec::new();
    match k {
        Rewrite::CollapseDt => {
            out.push('<'); out.push('d'); out.push('t'); out.push('>');
            let c = collapse_whitespace(&group_of(m, 1));
            push_all(&mut out, &c);
            out.push('<'); out.push('/'); out.push('d'); out.push('t'); out.push('>');
            assert(out@ =~= rewrite_match(*k, m@));
        },
        Rewrite::CollapseDd => {
            out.push('<'); out.push('d'); out.push('d'); out.push('>');
            let c = collapse_whitespace(&group_of(m, 1));
            push_all(&mut out, &c);
            out.push('<'); out.push('/'); out.push('d'); out.push('d'); out.push('>');
            assert(out@ =~= rewrite_match(*k, m@));
        },
        Rewrite::TrimDtDd => {
            out.push('<');
            push_all(&mut out, &group_of(m, 1));
            out.push('>');
            push_all(&mut out, &group_of(m, 2));
            out.push('<');
            out.push('/');
            push_all(&mut out, &group_of(m, 3));
            out.push('>');
            assert(out@ =~= rewrite_match(*k, m@));
        },
    }
    out
}

/// `replace_all` of `pattern` in `s` with the rewrite `k`.
pub fn replace_all(pattern: &str, s: &[char], k: Rewrite) -> (r: Vec<char>)
    ensures
        r@ == replaced_all(pattern@, s@, k),
{
    let st = string_of(s);
    let sc = regex_scan(pattern, st.as_str());
    let mut out: Vec<char> = Vec::new();
    match sc {
        None => {
            push_all(&mut out, s);
        },
        Some(sc) => {
            let mut i: usize = 0;
            while i < sc.matches.len()
                invariant
                    i <= sc.matches.len(),
                    out@ == rewritten(sc@.0.take(i as int), k),
                decreases sc.matches.len() - i,
            {
                let ghost prev = sc@.0.take(i as int);
                assert(sc@.0.take(i + 1).drop_last() =~= prev);
                assert(sc@.0.take(i + 1).last() == sc.matches@[i as int]@);
                let gap = chars_of(sc.matches[i].before.as_str());
                push_all(&mut out, &gap);
                let rep = rewrite_exec(&k, &sc.matches[i]);
                push_all(&mut out, &rep);
                assert(out@ =~= rewritten(sc@.0.take(i + 1), k));
                i += 1;
            }
            assert(sc@.0.take(sc.matches.len() as int) =~= sc@.0);
            let tail = chars_of(sc.tail.as_str());
            push_all(&mut out, &tail);
        },
    }
    out
}

/// `<dt>`/`<dd>` contents collapsed to one line.
pub open spec fn pre_dt_dd(html: Seq<char>) -> Seq<char> {
    replaced_all(DD_TAG@, replaced_all(DT_TAG@, html, Rewrite::CollapseDt), Rewrite::CollapseDd)
}

/// White space just inside `<dt>`/`<dd>` removed.
pub open spec fn post_dt_dd(html: Seq<char>) -> Seq<char> {
    replaced_all(DT_DD_TRIM@, html, Rewrite::TrimDtDd)
}

/// A trimmed line starts an opening tag whose `>` is not on the line.
pub open spec fn splits_tag(t: Seq<char>) -> bool {
    match first_match(OPENING_TAG_START@, t) {
        Some(m) => !has_char(t.skip((m.0.len() + whole(m).len()) as int), '>'),
        None => false,
    }
}

/// Some line of the block opens a tag that continues on a later line.
pub open spec fn has_multiline(html: Seq<char>) -> bool {
    exists|i: int| 0 <= i < split_lines(html).len() && splits_tag(trim(#[trigger] split_lines(html)[i]))
}

/// Does the HTML hold an opening tag split across lines?
pub fn has_multiline_tags(html: &[char]) -> (r: bool)
    ensures
        r == has_multiline(html@),
{
    let ls = split_lines_vec(html);
    let mut i: usize = 0;
    while i < ls.len()
        invariant
            i <= ls.len(),
            lv(ls@) == split_lines(html@),
            forall|j: int| 0 <= j < i ==> !splits_tag(trim(#[trigger] split_lines(html@)[j])),
        decreases ls.len() - i,
    {
        let t = trim_vec(&ls[i]);
        assert(t@ == trim(split_lines(html@)[i as int]));
        match find_first(OPENING_TAG_START, &t) {
            Some(m) => {
                let wl = whole_len(&m);
                assert(first_view(m).0.len() + whole(first_view(m)).len() <= t@.len());
                assert(first_view(m).0 == m.before@);
                assert(m.before.len() + wl <= t.len());
                let end = m.before.len() + wl;
                let after = crate::text::slice_vec(&t, end, t.len());
                assert(after@ =~= t@.skip(end as int));
                if !has_char_vec(&after, '>') {
                    return true;
                }
            },
            None => {},
        }
        i += 1;
    }
    false
}

pub open spec fn clamp0(d: int) -> int {
    if d < 0 { 0 } else { d }
}

/// Indentation width for a depth, saturated at `usize::MAX`.
pub open spec fn indent_width(depth: int, indent: nat) -> nat {
    if depth * indent > usize::MAX { usize::MAX as nat } else { (depth * indent) as nat }
}

/// Re-indent the (pre-processed) lines from line `i` on at nesting `depth`.
pub open spec fn reindented(ls: Seq<Seq<char>>, i: int, depth: int, indent: nat) -> Seq<Seq<char>>
    decreases ls.len() - i,
{
    if i < 0 || i >= ls.len() {
        Seq::empty()
    } else {
        let t = trim(ls[i]);
        if t.len() == 0 {
            seq![Seq::empty()] + reindented(ls, i + 1, depth, indent)
        } else {
            let (b, a) = depth_changes(t);
            let d1 = clamp0(depth + b);
            seq![spaces(indent_width(d1, indent)) + t] + reindented(ls, i + 1, clamp0(d1 + a), indent)
        }
    }
}

/// `format_html_block` on a whole block.
pub open spec fn html_formatted(html: Seq<char>, indent: nat) -> Seq<char> {
    if has_multiline(html) {
        html
    } else {
        post_dt_dd(join_lines(reindented(split_lines(pre_dt_dd(html)), 0, 0, indent)))
    }
}


/// Re-indenting keeps every line's text: line `k` of the output trims to
/// line `i + k` of the input; a blank line becomes empty, and any other line
/// is its trimmed text after a multiple of the indent size in spaces
/// (saturating at `usize::MAX`).
pub proof fn lemma_reindent_keeps_text(ls: Seq<Seq<char>>, i: int, depth: int, indent: nat)
    requires
        0 <= i <= ls.len(),
        depth >= 0,
    ensures
        reindented(ls, i, depth, indent).len() == ls.len() - i,
        forall|k: int| 0 <= k < ls.len() - i ==> trim(#[trigger] reindented(ls, i, depth, indent)[k]) == trim(ls[i + k]),
        forall|k: int| 0 <= k < ls.len() - i && trim(ls[i + k]).len() == 0 ==> #[trigger] reindented(ls, i, depth, indent)[k] == Seq::<char>::empty(),
        forall|k: int| 0 <= k < ls.len() - i && trim(ls[i + k]).len() > 0 ==> exists|d: nat|
            #[trigger] reindented(ls, i, depth, indent)[k] == spaces(indent_width(d as int, indent)) + trim(ls[i + k]),
    decreases ls.len() - i,
{
    if i < ls.len() {
        let t = trim(ls[i]);
        let out = reindented(ls, i, depth, indent);
        lemma_trim_ends(ls[i]);
        if t.len() == 0 {
            lemma_reindent_keeps_text(ls, i + 1, depth, indent);
            let rest = reindented(ls, i + 1, depth, indent);
            assert(out == seq![Seq::<char>::empty()] + rest);
            lemma_trim_padded(0, Seq::<char>::empty());
            assert(spaces(0) + Seq::<char>::empty() =~= Seq::<char>::empty());
            assert forall|k: int| 0 < k < ls.len() - i implies out[k] == rest[k - 1] by {}
            assert forall|k: int| 0 < k < ls.len() - i && trim(ls[i + k]).len() > 0 implies exists|d: nat|
                #[trigger] out[k] == spaces(indent_width(d as int, indent)) + trim(ls[i + k]) by {
                assert(out[k] == rest[k - 1]);
                assert(ls[i + k] == ls[(i + 1) + (k - 1)]);
            }
            assert forall|k: int| 0 <= k < ls.len() - i implies trim(#[trigger] out[k]) == trim(ls[i + k]) by {
                if k > 0 {
                    assert(out[k] == rest[k - 1]);
                    assert(ls[i + k] == ls[(i + 1) + (k - 1)]);
                }
            }
        } else {
            let (b, a) = depth_changes(t);
            let d1 = clamp0(depth + b);
            lemma_reindent_keeps_text(ls, i + 1, clamp0(d1 + a), indent);
            let rest = reindented(ls, i + 1, clamp0(d1 + a), indent);
            let first = spaces(indent_width(d1, indent)) + t;
            assert(out == seq![first] + rest);
            lemma_trim_padded(indent_width(d1, indent), t);
            assert(out[0] == spaces(indent_width((d1 as nat) as int, indent)) + trim(ls[i + 0]));
            assert forall|k: int| 0 < k < ls.len() - i && trim(ls[i + k]).len() > 0 implies exists|d: nat|
                #[trigger] out[k] == spaces(indent_width(d as int, indent)) + trim(ls[i + k]) by {
                assert(out[k] == rest[k - 1]);
                assert(ls[i + k] == ls[(i + 1) + (k - 1)]);
            }
            assert forall|k: int| 0 <= k < ls.len() - i implies trim(#[trigger] out[k]) == trim(ls[i + k]) by {
                if k > 0 {
                    assert(out[k] == rest[k - 1]);
                    assert(ls[i + k] == ls[(i + 1) + (k - 1)]);
                }
            }
            assert forall|k: int| 0 <= k < ls.len() - i && trim(ls[i + k]).len() == 0 implies #[trigger] out[k] == Seq::<char>::empty() by {
                if k > 0 {
                    assert(out[k] == rest[k - 1]);
                    assert(ls[i + k] == ls[(i + 1) + (k - 1)]);
                }
            }
        }
    }
}

/// HTML block formatting only re-indents: a block with an opening tag that
/// spans lines comes back unchanged; any other block is the definition-list
/// pre-pass, split into lines that are re-indented keeping their text (see
/// `lemma_reindent_keeps_text`), joined, then the definition-list post-pass.
pub proof fn lemma_html_block_reindents(html: Seq<char>, indent: nat)
    ensures
        has_multiline(html) ==> html_formatted(html, indent) == html,
        !has_multiline(html) ==> html_formatted(html, indent) == post_dt_dd(join_lines(reindented(split_lines(pre_dt_dd(html)), 0, 0, indent))),
        reindented(split_lines(pre_dt_dd(html)), 0, 0, indent).len() == split_lines(pre_dt_dd(html)).len(),
{
    lemma_reindent_keeps_text(split_lines(pre_dt_dd(html)), 0, 0, indent);
}

proof fn lemma_reindent_newline_free(ls: Seq<Seq<char>>, i: int, depth: int, indent: nat)
    requires
        0 <= i <= ls.len(),
        depth >= 0,
        forall|k: int, j: int| 0 <= k < ls.len() && 0 <= j < ls[k].len() ==> ls[k][j] != '\n',
    ensures
        forall|k: int, j: int| 0 <= k < reindented(ls, i, depth, indent).len() && 0 <= j < reindented(ls, i, depth, indent)[k].len()
            ==> reindented(ls, i, depth, indent)[k][j] != '\n',
{
    lemma_reindent_keeps_text(ls, i, depth, indent);
    let out = reindented(ls, i, depth, indent);
    assert forall|k: int, j: int| 0 <= k < out.len() && 0 <= j < out[k].len() implies out[k][j] != '\n' by {
        let l = ls[i + k];
        let t = trim(l);
        crate::text::lemma_lead_count_bounds(l, crate::text::ws_pred());
        crate::text::lemma_trail_count_bounds(crate::text::trim_start(l), crate::text::ws_pred());
        let a = crate::text::lead_count(l, crate::text::ws_pred());
        assert forall|x: int| 0 <= x < t.len() implies t[x] != '\n' by {
            assert(t[x] == l[a + x]);
        }
        if t.len() == 0 {
            assert(out[k] == Seq::<char>::empty());
        } else {
            let d = choose|d: nat| out[k] == spaces(indent_width(d as int, indent)) + t;
            let w = indent_width(d as int, indent);
            if j < w {
                assert(out[k][j] == ' ');
            } else {
                assert(out[k][j] == t[j - w]);
            }
        }
    }
}

/// Where no opening tag spans lines and the definition-list passes change
/// nothing, HTML block formatting keeps the block's lines and their text:
/// each output line trims to the input line at the same place.
pub proof fn lemma_html_block_keeps_trimmed_lines(html: Seq<char>, indent: nat)
    requires
        !has_multiline(html),
        pre_dt_dd(html) == html,
        post_dt_dd(join_lines(reindented(split_lines(html), 0, 0, indent))) == join_lines(reindented(split_lines(html), 0, 0, indent)),
    ensures
        split_lines(html_formatted(html, indent)).len() == split_lines(html).len(),
        forall|k: int| 0 <= k < split_lines(html).len()
            ==> trim(#[trigger] split_lines(html_formatted(html, indent))[k]) == trim(split_lines(html)[k]),
{
    let ls = split_lines(html);
    crate::text::lemma_join_split(html);
    crate::text::lemma_split_no_newline(html);
    lemma_reindent_keeps_text(ls, 0, 0, indent);
    lemma_reindent_newline_free(ls, 0, 0, indent);
    let r = reindented(ls, 0, 0, indent);
    crate::text::lemma_split_join(r);
    assert forall|k: int| 0 <= k < ls.len() implies trim(#[trigger] split_lines(html_formatted(html, indent))[k]) == trim(ls[k]) by {
        assert(ls[0 + k] == ls[k]);
    }
}

/// Total length of a sequence of lines.
pub open spec fn total_len(ls: Seq<Seq<char>>) -> nat
    decreases ls.len(),
{
    if ls.len() == 0 {
        0
    } else {
        total_len(ls.drop_last()) + ls.last().len()
    }
}

pub proof fn lemma_total_len_append(a: Seq<Seq<char>>, b: Seq<Seq<char>>)
    ensures
        total_len(a + b) == total_len(a) + total_len(b),
    decreases b.len(),
{
    if b.len() > 0 {
        assert((a + b).drop_last() =~= a + b.drop_last());
        lemma_total_len_append(a, b.drop_last());
    } else {
        assert(a + b =~= a);
    }
}

pub proof fn lemma_total_len_split(s: Seq<char>)
    ensures
        total_len(split_lines(s)) <= s.len(),
    decreases s.len(),
{
    let i = crate::text::first_index(s, '\n');
    crate::text::lemma_first_index(s, '\n');
    if i < s.len() {
        lemma_total_len_split(s.skip(i as int + 1));
        lemma_total_len_append(seq![s.take(i as int)], split_lines(s.skip(i as int + 1)));
        let one = seq![s.take(i as int)];
        assert(one.drop_last() =~= Seq::<Seq<char>>::empty());
        assert(total_len(one) == total_len(one.drop_last()) + one.last().len());
        assert(split_lines(s) == one + split_lines(s.skip(i as int + 1)));
    } else {
        let one = seq![s];
        assert(one.drop_last() =~= Seq::<Seq<char>>::empty());
        assert(total_len(one) == total_len(one.drop_last()) + one.last().len());
    }
}

pub proof fn lemma_total_len_prefix(ls: Seq<Seq<char>>, i: int)
    requires
        0 <= i < ls.len(),
    ensures
        total_len(ls.take(i + 1)) == total_len(ls.take(i)) + ls[i].len(),
        total_len(ls.take(i + 1)) <= total_len(ls),
    decreases ls.len() - i,
{
    assert(ls.take(i + 1).drop_last() =~= ls.take(i));
    lemma_total_len_append(ls.take(i + 1), ls.skip(i + 1));
    assert(ls.take(i + 1) + ls.skip(i + 1) =~= ls);
}

fn indent_width_exec(depth: i128, indent: usize) -> (r: usize)
    requires
        0 <= depth,
    ensures
        r == indent_width(depth as int, indent as nat),
{
    if depth > usize::MAX as i128 {
        if indent == 0 {
            return 0;
        }
        assert(depth * indent >= depth) by (nonlinear_arith)
            requires indent >= 1, depth >= 0;
        return usize::MAX;
    }
    let d = depth as u128;
    let n = indent as u128;
    assert(d * n <= u128::MAX) by (nonlinear_arith)
        requires d <= usize::MAX, n <= usize::MAX, usize::MAX <= u64::MAX;
    let p = d * n;
    if p > usize::MAX as u128 {
        usize::MAX
    } else {
        p as usize
    }
}

/// Format an HTML block by tag nesting: unless an opening tag is split
/// across lines (then the block is returned unchanged), collapse
/// `<dt>`/`<dd>` contents to one line, re-indent every trimmed line by its
/// nesting depth times `indent_size`, and trim white space inside
/// `<dt>`/`<dd>`.
pub fn format_html_block(html: &str, indent_size: usize) -> (r: String)
    ensures
        r@ == html_formatted(html@, indent_size as nat),
{
    let h = chars_of(html);
    if has_multiline_tags(&h) {
        return string_of(&h);
    }
    let p1 = replace_all(DT_TAG, &h, Rewrite::CollapseDt);
    let pre = replace_all(DD_TAG, &p1, Rewrite::CollapseDd);
    let ls = split_lines_vec(&pre);
    assert(pre@.len() == pre.len());
    let ghost g = lv(ls@);
    proof {
        lemma_total_len_split(pre@);
    }
    let mut out: Vec<Vec<char>> = Vec::new();
    let mut depth: i128 = 0;
    let mut i: usize = 0;
    assert(lv(out@) + reindented(g, 0, 0, indent_size as nat) =~= reindented(g, 0, 0, indent_size as nat));
    assert(g.take(0) =~= Seq::<Seq<char>>::empty());
    while i < ls.len()
        invariant
            i <= ls.len(),
            g == lv(ls@),
            total_len(g) <= pre@.len(),
            pre@.len() <= usize::MAX,
            0 <= depth <= 2 * total_len(g.take(i as int)),
            reindented(g, 0, 0, indent_size as nat) == lv(out@) + reindented(g, i as int, depth as int, indent_size as nat),
        decreases ls.len() - i,
    {
        proof {
            lemma_total_len_prefix(g, i as int);
        }
        let t = trim_vec(&ls[i]);
        assert(t@ == trim(g[i as int]));
        assert(t@.len() <= g[i as int].len()) by {
            crate::text::lemma_lead_count_bounds(g[i as int], crate::text::ws_pred());
            crate::text::lemma_trail_count_bounds(crate::text::trim_start(g[i as int]), crate::text::ws_pred());
        }
        let ghost prev = out@;
        if t.len() == 0 {
            out.push(Vec::new());
            assert(lv(out@) =~= lv(prev).push(Seq::empty()));
            assert(lv(out@) + reindented(g, i + 1, depth as int, indent_size as nat) =~= lv(prev) + reindented(g, i as int, depth as int, indent_size as nat));
        } else {
            let (b, a) = compute_depth_changes(&t);
            let mut d1 = depth + b;
            if d1 < 0 {
                d1 = 0;
            }
            let w = indent_width_exec(d1, indent_size);
            let mut line = spaces_vec(w);
            push_all(&mut line, &t);
            out.push(line);
            let mut d2 = d1 + a;
            if d2 < 0 {
                d2 = 0;
            }
            assert(lv(out@) =~= lv(prev).push(spaces(indent_width(d1 as int, indent_size as nat)) + t@));
            assert(lv(out@) + reindented(g, i + 1, d2 as int, indent_size as nat) =~= lv(prev) + reindented(g, i as int, depth as int, indent_size as nat));
            depth = d2;
        }
        i += 1;
    }
    assert(reindented(g, i as int, depth as int, indent_size as nat) =~= Seq::<Seq<char>>::empty());
    assert(lv(out@) =~= reindented(g, 0, 0, indent_size as nat));
    let joined = join_lines_vec(&out);
    let post = replace_all(DT_DD_TRIM, &joined, Rewrite::TrimDtDd);
    string_of(&post)
}

} // verus!
