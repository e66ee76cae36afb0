//! Line classification and the two whole-document post-processing passes:
//! block-element spacing and empty-line normalization.
use vstd::prelude::*;
use crate::text::{
    is_ws, is_blank, lead_count, lead_spaces, starts_with, trim, trim_start, digit_pred,
    split_lines, join_lines, lv, sv, is_blank_line, lead_space_len, lead_digit_len, trim_vec,
    trim_start_vec, starts_with_vec, chars_of, split_lines_vec, join_lines_vec, string_of,
    lemma_lead_count_bounds, lemma_lead_count, lemma_blank_iff_trim_empty,
};

verus! {

// ---------------------------------------------------------------------------
// Spec: line shapes (all take the trimmed line unless noted)
// ---------------------------------------------------------------------------

pub open spec fn digit_run(t: Seq<char>) -> nat {
    lead_count(t, digit_pred())
}

/// `1. `, `23. `: ASCII digits, a dot, a space.
pub open spec fn is_ordered_marker(t: Seq<char>) -> bool {
    let d = digit_run(t);
    d >= 1 && d + 1 < t.len() && t[d as int] == '.' && t[d as int + 1] == ' '
}

pub open spec fn bullet_space(t: Seq<char>) -> bool {
    t.len() >= 2 && (t[0] == '-' || t[0] == '*' || t[0] == '+') && t[1] == ' '
}

/// Width of `marker + space`: 2 for bullets, digits + 2 for `N. `, 2 otherwise.
pub open spec fn marker_width(t: Seq<char>) -> nat {
    if bullet_space(t) {
        2
    } else {
        let d = digit_run(t);
        if d + 1 < t.len() && t[d as int] == '.' && t[d as int + 1] == ' ' {
            d + 2
        } else {
            2
        }
    }
}

pub open spec fn is_list_start(t: Seq<char>) -> bool {
    ||| bullet_space(t)
    ||| (t.len() == 1 && (t[0] == '-' || t[0] == '*' || t[0] == '+'))
    ||| is_ordered_marker(t)
}

pub open spec fn eq_pred(c: char) -> spec_fn(char) -> bool {
    |x: char| x == c
}

pub open spec fn run_of(t: Seq<char>, c: char) -> nat {
    lead_count(t, eq_pred(c))
}

/// Fence delimiter: character and run length of a ```` ``` ```` / `~~~` line.
pub open spec fn fence_of(t: Seq<char>) -> Option<(char, nat)> {
    if t.len() >= 3 && t[0] == '`' && t[1] == '`' && t[2] == '`' {
        Some(('`', run_of(t, '`')))
    } else if t.len() >= 3 && t[0] == '~' && t[1] == '~' && t[2] == '~' {
        Some(('~', run_of(t, '~')))
    } else {
        None
    }
}

/// `# ` through `###### `.
pub open spec fn is_heading(t: Seq<char>) -> bool {
    let h = run_of(t, '#');
    1 <= h <= 6 && h < t.len() && t[h as int] == ' '
}

pub open spec fn is_para(t: Seq<char>) -> bool {
    &&& t.len() > 0
    &&& !is_heading(t)
    &&& !is_list_start(t)
    &&& fence_of(t) is None
    &&& t[0] != '<'
    &&& t[0] != '>'
    &&& t[0] != '|'
    &&& t != seq!['-', '-', '-']
    &&& !(t.len() >= 3 && t[0] == ':' && t[1] == ':' && t[2] == ':')
}

// ---------------------------------------------------------------------------
// Executable classifiers
// ---------------------------------------------------------------------------

/// Does a trimmed line start with an ordered list marker (e.g. `1. `)?
pub fn is_ordered_list_marker(t: &[char]) -> (r: bool)
    ensures
        r == is_ordered_marker(t@),
{
    let d = lead_digit_len(t);
    d >= 1 && d < t.len() && t.len() - d > 1 && t[d] == '.' && t[d + 1] == ' '
}

fn bullet_space_exec(t: &[char]) -> (r: bool)
    ensures
        r == bullet_space(t@),
{
    t.len() >= 2 && (t[0] == '-' || t[0] == '*' || t[0] == '+') && t[1] == ' '
}

/// Width of the list marker plus its space on a trimmed line.
pub fn list_marker_width(t: &[char]) -> (r: usize)
    ensures
        r == marker_width(t@),
{
    if bullet_space_exec(t) {
        return 2;
    }
    let d = lead_digit_len(t);
    if d < t.len() && t.len() - d > 1 && t[d] == '.' && t[d + 1] == ' ' {
        d + 2
    } else {
        2
    }
}

/// Is this (trimmed) line a list item start?
pub fn is_list_line(t: &[char]) -> (r: bool)
    ensures
        r == is_list_start(t@),
{
    bullet_space_exec(t) || (t.len() == 1 && (t[0] == '-' || t[0] == '*' || t[0] == '+'))
        || is_ordered_list_marker(t)
}

fn run_len(t: &[char], c: char) -> (n: usize)
    ensures
        n == run_of(t@, c),
        n <= t.len(),
{
    let mut i: usize = 0;
    while i < t.len() && t[i] == c
        invariant
            i <= t.len(),
            forall|j: int| 0 <= j < i ==> t@[j] == c,
        decreases t.len() - i,
    {
        i += 1;
    }
    proof {
        lemma_lead_count(t@, eq_pred(c), i as int);
    }
    i
}

/// Fence delimiter character and length of a fence line, if it is one.
pub fn fence_delimiter(t: &[char]) -> (r: Option<(char, usize)>)
    ensures
        r matches Some((c, n)) ==> fence_of(t@) == Some((c, n as nat)),
        r is None ==> fence_of(t@) is None,
{
    if t.len() >= 3 && t[0] == '`' && t[1] == '`' && t[2] == '`' {
        Some(('`', run_len(t, '`')))
    } else if t.len() >= 3 && t[0] == '~' && t[1] == '~' && t[2] == '~' {
        Some(('~', run_len(t, '~')))
    } else {
        None
    }
}

/// Is this trimmed line a code fence (opening or closing)?
pub fn is_code_fence_line(t: &[char]) -> (r: bool)
    ensures
        r == fence_of(t@) is Some,
{
    fence_delimiter(t).is_some()
}

/// Is this trimmed line a heading (`#` through `######`)?
pub fn is_heading_line(t: &[char]) -> (r: bool)
    ensures
        r == is_heading(t@),
{
    let h = run_len(t, '#');
    1 <= h && h <= 6 && h < t.len() && t[h] == ' '
}

/// Is this trimmed line plain paragraph text?
pub fn is_paragraph_line(t: &[char]) -> (r: bool)
    ensures
        r == is_para(t@),
{
    let dashes = t.len() == 3 && t[0] == '-' && t[1] == '-' && t[2] == '-';
    assert(dashes == (t@ == seq!['-', '-', '-'])) by {
        if t@ == seq!['-', '-', '-'] {
            assert(t@[0] == '-' && t@[1] == '-' && t@[2] == '-');
        }
        if dashes {
            assert(t@ =~= seq!['-', '-', '-']);
        }
    }
    t.len() > 0 && !is_heading_line(t) && !is_list_line(t) && !is_code_fence_line(t) && t[0]
        != '<' && t[0] != '>' && t[0] != '|' && !dashes && !(t.len() >= 3 && t[0] == ':' && t[1]
        == ':' && t[2] == ':')
}

/// Is the (untrimmed) line a numbered list line?
pub fn is_numbered_list_line(line: &[char]) -> (r: bool)
    ensures
        r == is_ordered_marker(trim(line@)),
{
    let t = trim_vec(line);
    is_ordered_list_marker(&t)
}

/// Number of leading ASCII spaces.
pub fn leading_space_count(line: &[char]) -> (r: usize)
    ensures
        r == lead_spaces(line@),
        r <= line.len(),
{
    lead_space_len(line)
}


// ---------------------------------------------------------------------------
// Block-element spacing (post-processing pass)
// ---------------------------------------------------------------------------

/// Scan state of the block-spacing pass.
#[derive(Clone, Copy)]
pub struct SpacingState {
    pub in_fence: bool,
    pub fence_char: char,
    pub fence_len: usize,
    pub in_frontmatter: bool,
    pub at_start: bool,
}

pub open spec fn spacing_init() -> SpacingState {
    SpacingState {
        in_fence: false,
        fence_char: '`',
        fence_len: 0,
        in_frontmatter: false,
        at_start: true,
    }
}

/// Looking back from line `j - 1`: is the current indent `ci` exactly the
/// continuation column of the nearest less-indented list item, with no blank
/// line in between?
pub open spec fn cont_scan(ls: Seq<Seq<char>>, j: int, ci: nat) -> bool
    decreases j,
{
    if j <= 0 || j > ls.len() {
        false
    } else {
        let prev = ls[j - 1];
        let pt = trim(prev);
        if pt.len() == 0 {
            false
        } else if lead_spaces(prev) < ci {
            is_list_start(pt) && lead_spaces(prev) + marker_width(pt) == ci
        } else {
            cont_scan(ls, j - 1, ci)
        }
    }
}

/// Whether the pair (line `i`, line `i + 1`) needs a blank line between them,
/// given the fence state after line `i` was read.
pub open spec fn pair_needs_spacing(ls: Seq<Seq<char>>, i: int, in_fence: bool) -> bool {
    let t = trim(ls[i]);
    let nt = trim(ls[i + 1]);
    let ci = lead_spaces(ls[i]);
    let ni = lead_spaces(ls[i + 1]);
    let same = ci == ni;
    let in_cont = same && ci > 0 && cont_scan(ls, i, ci);
    let sib = same && !in_cont;
    ||| (is_para(t) && is_heading(nt))
    ||| (sib && is_para(t) && is_list_start(nt))
    ||| (sib && is_list_start(t) && is_para(nt))
    ||| (is_para(t) && fence_of(nt) is Some)
    ||| (fence_of(t) is Some && !in_fence && is_para(nt))
    ||| (sib && fence_of(t) is Some && !in_fence && is_list_start(nt))
    ||| (sib && is_list_start(t) && fence_of(nt) is Some)
}

/// One step of the block-spacing scan over line `i`: the next state, and
/// whether a blank line goes in before line `i + 1`.
pub open spec fn spacing_step(ls: Seq<Seq<char>>, i: int, st: SpacingState) -> (
    SpacingState,
    bool,
) {
    let t = trim(ls[i]);
    if t == seq!['-', '-', '-'] && st.at_start && !st.in_frontmatter {
        (SpacingState { in_frontmatter: true, ..st }, false)
    } else if t == seq!['-', '-', '-'] && st.in_frontmatter {
        (SpacingState { in_frontmatter: false, at_start: false, ..st }, false)
    } else if st.in_frontmatter {
        (st, false)
    } else {
        let (st1, outer) = match fence_of(t) {
            Some((c, n)) => if !st.in_fence {
                (SpacingState { in_fence: true, fence_char: c, fence_len: n as usize, ..st }, true)
            } else if c == st.fence_char && n >= st.fence_len {
                (SpacingState { in_fence: false, ..st }, true)
            } else {
                (st, false)
            },
            None => (st, false),
        };
        if st1.in_fence && !outer {
            (st1, false)
        } else {
            let st2 = if t.len() > 0 { SpacingState { at_start: false, ..st1 } } else { st1 };
            let ins = t.len() > 0 && i + 1 < ls.len() && trim(ls[i + 1]).len() > 0
                && pair_needs_spacing(ls, i, st2.in_fence);
            (st2, ins)
        }
    }
}

/// State and insertion points after scanning lines `[0, i)`.
pub open spec fn spacing_run(ls: Seq<Seq<char>>, i: int) -> (SpacingState, Seq<int>)
    decreases i,
{
    if i <= 0 {
        (spacing_init(), Seq::empty())
    } else {
        let (st, ins) = spacing_run(ls, i - 1);
        let (st2, b) = spacing_step(ls, i - 1, st);
        (st2, if b { ins.push(i) } else { ins })
    }
}

/// The positions (0-indexed, in the input) before which a blank line is inserted.
pub open spec fn spacing_insertions(ls: Seq<Seq<char>>) -> Seq<int> {
    spacing_run(ls, ls.len() as int).1
}

/// Insert an empty line before each position of `ps`, last position first.
pub open spec fn insert_blanks(ls: Seq<Seq<char>>, ps: Seq<int>) -> Seq<Seq<char>>
    decreases ps.len(),
{
    if ps.len() == 0 {
        ls
    } else {
        insert_blanks(ls.insert(ps.last(), Seq::empty()), ps.drop_last())
    }
}

/// The block-spacing pass on a line sequence.
pub open spec fn block_spacing(ls: Seq<Seq<char>>) -> Seq<Seq<char>> {
    insert_blanks(ls, spacing_insertions(ls))
}

proof fn lemma_spacing_run_props(ls: Seq<Seq<char>>, i: int)
    requires
        0 <= i <= ls.len(),
    ensures
        forall|k: int| 0 <= k < spacing_run(ls, i).1.len() ==> 1 <= #[trigger] spacing_run(ls, i).1[k] <= i,
        forall|a: int, b: int|
            0 <= a < b < spacing_run(ls, i).1.len() ==> spacing_run(ls, i).1[a] < spacing_run(ls, i).1[b],
        forall|k: int| 0 <= k < spacing_run(ls, i).1.len() ==> #[trigger] spacing_run(ls, i).1[k] < ls.len(),
    decreases i,
{
    if i > 0 {
        lemma_spacing_run_props(ls, i - 1);
        let (st, ins) = spacing_run(ls, i - 1);
        let (st2, b) = spacing_step(ls, i - 1, st);
        if b {
            assert(i < ls.len());
            let r = ins.push(i);
            assert(spacing_run(ls, i).1 == r);
            assert forall|a: int, c: int| 0 <= a < c < r.len() implies r[a] < r[c] by {
                if c < ins.len() {
                    assert(r[a] == ins[a] && r[c] == ins[c]);
                } else {
                    assert(r[a] == ins[a]);
                }
            }
        }
    }
}

fn cont_found(ls: &Vec<Vec<char>>, i: usize, ci: usize) -> (r: bool)
    requires
        i <= ls.len(),
    ensures
        r == cont_scan(lv(ls@), i as int, ci as nat),
{
    let mut j = i;
    while j > 0
        invariant
            j <= i <= ls.len(),
            cont_scan(lv(ls@), i as int, ci as nat) == cont_scan(lv(ls@), j as int, ci as nat),
        decreases j,
    {
        let prev = &ls[j - 1];
        let pt = trim_vec(prev);
        if pt.len() == 0 {
            return false;
        }
        let pi = lead_space_len(prev);
        if pi < ci {
            if is_list_line(&pt) {
                let w = list_marker_width(&pt);
                return pi as u128 + w as u128 == ci as u128;
            }
            return false;
        }
        j -= 1;
    }
    false
}

fn pair_needs_spacing_exec(ls: &Vec<Vec<char>>, i: usize, in_fence: bool) -> (r: bool)
    requires
        i + 1 < ls.len(),
    ensures
        r == pair_needs_spacing(lv(ls@), i as int, in_fence),
{
    let t = trim_vec(&ls[i]);
    let nt = trim_vec(&ls[i + 1]);
    let ci = lead_space_len(&ls[i]);
    let ni = lead_space_len(&ls[i + 1]);
    let same = ci == ni;
    let in_cont = same && ci > 0 && cont_found(ls, i, ci);
    let sib = same && !in_cont;
    let tp = is_paragraph_line(&t);
    let tl = is_list_line(&t);
    let tf = is_code_fence_line(&t);
    let np = is_paragraph_line(&nt);
    let nl = is_list_line(&nt);
    let nf = is_code_fence_line(&nt);
    let nh = is_heading_line(&nt);
    (tp && nh) || (sib && tp && nl) || (sib && tl && np) || (tp && nf) || (tf && !in_fence && np)
        || (sib && tf && !in_fence && nl) || (sib && tl && nf)
}

fn is_triple_dash(t: &[char]) -> (r: bool)
    ensures
        r == (t@ == seq!['-', '-', '-']),
{
    let r = t.len() == 3 && t[0] == '-' && t[1] == '-' && t[2] == '-';
    proof {
        if t@ == seq!['-', '-', '-'] {
            assert(t@[0] == '-' && t@[1] == '-' && t@[2] == '-');
        }
        if r {
            assert(t@ =~= seq!['-', '-', '-']);
        }
    }
    r
}

fn spacing_step_exec(ls: &Vec<Vec<char>>, i: usize, st: SpacingState) -> (r: (SpacingState, bool))
    requires
        i < ls.len(),
    ensures
        r == spacing_step(lv(ls@), i as int, st),
{
    let t = trim_vec(&ls[i]);
    let dash = is_triple_dash(&t);
    if dash && st.at_start && !st.in_frontmatter {
        return (SpacingState { in_frontmatter: true, ..st }, false);
    }
    if dash && st.in_frontmatter {
        return (SpacingState { in_frontmatter: false, at_start: false, ..st }, false);
    }
    if st.in_frontmatter {
        return (st, false);
    }
    let (st1, outer) = match fence_delimiter(&t) {
        Some((c, n)) => if !st.in_fence {
            (SpacingState { in_fence: true, fence_char: c, fence_len: n, ..st }, true)
        } else if c == st.fence_char && n >= st.fence_len {
            (SpacingState { in_fence: false, ..st }, true)
        } else {
            (st, false)
        },
        None => (st, false),
    };
    if st1.in_fence && !outer {
        return (st1, false);
    }
    let st2 = if t.len() > 0 { SpacingState { at_start: false, ..st1 } } else { st1 };
    let ins = t.len() > 0 && i + 1 < ls.len() && !is_blank_line(&ls[i + 1])
        && pair_needs_spacing_exec(ls, i, st2.in_fence);
    (st2, ins)
}

fn char_lines(lines: &Vec<String>) -> (r: Vec<Vec<char>>)
    ensures
        lv(r@) == sv(lines@),
{
    let mut out: Vec<Vec<char>> = Vec::new();
    let mut i: usize = 0;
    while i < lines.len()
        invariant
            i <= lines.len(),
            lv(out@) == sv(lines@).take(i as int),
        decreases lines.len() - i,
    {
        let v = chars_of(lines[i].as_str());
        assert(v@ == sv(lines@)[i as int]);
        let ghost prev = out@;
        out.push(v);
        assert(out@ == prev.push(v));
        assert(lv(out@) =~= lv(prev).push(v@));
        assert(sv(lines@).take(i + 1) =~= sv(lines@).take(i as int).push(sv(lines@)[i as int]));
        i += 1;
    }
    assert(sv(lines@).take(lines.len() as int) =~= sv(lines@));
    out
}

/// Post-processing pass: insert a blank line between adjacent non-blank
/// lines that start different block contexts (paragraph / heading / list /
/// code fence), skipping frontmatter and the inside of fenced code blocks.
pub fn ensure_block_element_spacing(lines: &mut Vec<String>)
    ensures
        sv(final(lines)@) == block_spacing(sv(old(lines)@)),
{
    let ls = char_lines(lines);
    let ghost g = lv(ls@);
    let mut st = SpacingState {
        in_fence: false,
        fence_char: '`',
        fence_len: 0,
        in_frontmatter: false,
        at_start: true,
    };
    let mut insertions: Vec<usize> = Vec::new();
    let mut i: usize = 0;
    while i < ls.len()
        invariant
            i <= ls.len(),
            g == lv(ls@),
            (st, insertions@.map_values(|p: usize| p as int)) == spacing_run(g, i as int),
        decreases ls.len() - i,
    {
        let (st2, b) = spacing_step_exec(&ls, i, st);
        let ghost old_ins = insertions@;
        if b {
            insertions.push(i + 1);
            assert(insertions@.map_values(|p: usize| p as int) =~= old_ins.map_values(
                |p: usize| p as int,
            ).push(i + 1));
        }
        st = st2;
        i += 1;
    }
    proof {
        lemma_spacing_run_props(g, g.len() as int);
    }
    let ghost ps = insertions@.map_values(|p: usize| p as int);
    assert(ps == spacing_insertions(g));
    let mut k = insertions.len();
    assert(ps.take(k as int) =~= ps);
    while k > 0
        invariant
            k <= insertions.len(),
            ps == insertions@.map_values(|p: usize| p as int),
            forall|a: int| 0 <= a < ps.len() ==> 1 <= #[trigger] ps[a] < g.len(),
            forall|a: int, b: int| 0 <= a < b < ps.len() ==> ps[a] < ps[b],
            insert_blanks(sv(lines@), ps.take(k as int)) == insert_blanks(g, ps),
            sv(lines@).len() == g.len() + (ps.len() - k),
        decreases k,
    {
        let p = insertions[k - 1];
        assert(ps[k - 1] == p as int);
        assert(p <= lines.len());
        let ghost before = sv(lines@);
        lines.insert(p, String::new());
        assert(sv(lines@) =~= before.insert(p as int, Seq::empty()));
        assert(ps.take(k as int).drop_last() =~= ps.take(k - 1));
        assert(ps.take(k as int).last() == p as int);
        k -= 1;
    }
    assert(ps.take(0) =~= Seq::<int>::empty());
}


// ---------------------------------------------------------------------------
// Empty-line normalization
// ---------------------------------------------------------------------------

pub open spec fn is_bullet_char(c: char) -> bool {
    c == '-' || c == '+' || c == '*'
}

/// Indent of a list-item marker line (`- x`, `3. x`, `3) x`), if it is one.
pub open spec fn marker_indent(line: Seq<char>) -> Option<nat> {
    let ind = lead_spaces(line);
    let t = line.skip(ind as int);
    if t.len() == 0 {
        None
    } else if is_bullet_char(t[0]) {
        if t.len() >= 2 && is_ws(t[1]) {
            Some(ind)
        } else {
            None
        }
    } else if crate::text::is_digit(t[0]) {
        let d = digit_run(t);
        if d + 1 < t.len() && (t[d as int] == '.' || t[d as int] == ')') && is_ws(t[d as int + 1]) {
            Some(ind)
        } else {
            None
        }
    } else {
        None
    }
}

/// A double blank between two list items at the same marker indent, or
/// between a deeper continuation and a following item, is kept.
pub open spec fn keeps_double_blank(ls: Seq<Seq<char>>, prev: int, next: int) -> bool {
    match marker_indent(ls[next]) {
        None => false,
        Some(ni) => match marker_indent(ls[prev]) {
            Some(pi) => pi == ni,
            None => lead_spaces(ls[prev]) > ni,
        },
    }
}

/// End (exclusive) of the run of blank lines starting at `i`.
pub open spec fn blank_run_end(ls: Seq<Seq<char>>, i: int) -> int
    decreases ls.len() - i,
{
    if i < 0 || i >= ls.len() || !is_blank(ls[i]) {
        i
    } else {
        blank_run_end(ls, i + 1)
    }
}

/// Output lines for `ls[i..]`, where `i` starts a run (`i == 0` or line
/// `i - 1` is non-blank): non-blank lines are kept, and each run of blank
/// lines becomes one empty line, or two when the run is at least two long and
/// sits between list items that keep a double separator.
pub open spec fn normalized_from(ls: Seq<Seq<char>>, i: int) -> Seq<Seq<char>>
    decreases ls.len() - i, 1int,
{
    if i < 0 || i >= ls.len() {
        Seq::empty()
    } else if !is_blank(ls[i]) {
        seq![ls[i]] + normalized_from(ls, i + 1)
    } else {
        let e = blank_run_end(ls, i);
        proof {
            lemma_blank_run_end(ls, i);
        }
        let keep: nat = if e - i >= 2 && i > 0 && e < ls.len() && keeps_double_blank(
            ls,
            i - 1,
            e,
        ) {
            2
        } else {
            1
        };
        if e > i {
            Seq::new(keep, |k: int| Seq::<char>::empty()) + normalized_from(ls, e)
        } else {
            Seq::empty()
        }
    }
}

/// `normalize_empty_lines` on a whole document.
pub open spec fn normalized(content: Seq<char>) -> Seq<char> {
    let j = join_lines(normalized_from(split_lines(content), 0));
    if content.len() > 0 && content.last() == '\n' && !(j.len() > 0 && j.last() == '\n') {
        j.push('\n')
    } else {
        j
    }
}

pub proof fn lemma_blank_run_end(ls: Seq<Seq<char>>, i: int)
    requires
        0 <= i <= ls.len(),
    ensures
        i <= blank_run_end(ls, i) <= ls.len(),
        forall|j: int| i <= j < blank_run_end(ls, i) ==> is_blank(#[trigger] ls[j]),
        blank_run_end(ls, i) < ls.len() ==> !is_blank(ls[blank_run_end(ls, i)]),
    decreases ls.len() - i,
{
    if i < ls.len() && is_blank(ls[i]) {
        lemma_blank_run_end(ls, i + 1);
    }
}

/// Indent of a list-item marker line, if it is one.
pub fn list_marker_indent(line: &[char]) -> (r: Option<usize>)
    ensures
        r matches Some(n) ==> marker_indent(line@) == Some(n as nat),
        r is None ==> marker_indent(line@) is None,
{
    let ind = lead_space_len(line);
    let t = crate::text::slice_vec(line, ind, line.len());
    assert(t@ =~= line@.skip(ind as int));
    if t.len() == 0 {
        return None;
    }
    if t[0] == '-' || t[0] == '+' || t[0] == '*' {
        if t.len() >= 2 && crate::text::char_is_ws(t[1]) {
            return Some(ind);
        }
        return None;
    }
    if '0' <= t[0] && t[0] <= '9' {
        let d = lead_digit_len(&t);
        if d < t.len() && t.len() - d > 1 && (t[d] == '.' || t[d] == ')') && crate::text::char_is_ws(t[d + 1]) {
            return Some(ind);
        }
        return None;
    }
    None
}

/// Is a double blank between `ls[prev]` and `ls[next]` intentional?
pub fn preserves_list_item_double_blank(ls: &Vec<Vec<char>>, prev: usize, next: usize) -> (r: bool)
    requires
        prev < ls.len(),
        next < ls.len(),
    ensures
        r == keeps_double_blank(lv(ls@), prev as int, next as int),
{
    let ni = match list_marker_indent(&ls[next]) {
        None => return false,
        Some(n) => n,
    };
    match list_marker_indent(&ls[prev]) {
        Some(pi) => pi == ni,
        None => lead_space_len(&ls[prev]) > ni,
    }
}

/// Collapse runs of blank lines to one empty line, keeping intentional double
/// separators between list items; a trailing newline is kept.
pub fn normalize_empty_lines(content: &str) -> (r: String)
    ensures
        r@ == normalized(content@),
{
    let c = chars_of(content);
    let ls = split_lines_vec(&c);
    let ghost g = lv(ls@);
    let mut out: Vec<Vec<char>> = Vec::new();
    let mut i: usize = 0;
    assert(lv(out@) + normalized_from(g, 0) =~= normalized_from(g, 0));
    while i < ls.len()
        invariant
            i <= ls.len(),
            g == lv(ls@),
            normalized_from(g, 0) == lv(out@) + normalized_from(g, i as int),
        decreases ls.len() - i,
    {
        if !is_blank_line(&ls[i]) {
            let ghost prev = out@;
            let v = crate::text::slice_vec(&ls[i], 0, ls[i].len());
            assert(v@ =~= g[i as int]);
            out.push(v);
            assert(lv(out@) =~= lv(prev).push(g[i as int]));
            assert(normalized_from(g, i as int) == seq![g[i as int]] + normalized_from(g, i + 1));
            assert(lv(out@) + normalized_from(g, i + 1) =~= lv(prev) + normalized_from(g, i as int));
            i += 1;
            continue;
        }
        let start = i;
        while i < ls.len() && is_blank_line(&ls[i])
            invariant
                start <= i <= ls.len(),
                g == lv(ls@),
                blank_run_end(g, start as int) == blank_run_end(g, i as int),
            decreases ls.len() - i,
        {
            i += 1;
        }
        proof {
            lemma_blank_run_end(g, start as int);
        }
        let run_len = i - start;
        let keep: usize = if run_len >= 2 && start > 0 && i < ls.len()
            && preserves_list_item_double_blank(&ls, start - 1, i) {
            2
        } else {
            1
        };
        let ghost prev = out@;
        out.push(Vec::new());
        if keep == 2 {
            out.push(Vec::new());
        }
        assert(lv(out@) =~= lv(prev) + Seq::new(keep as nat, |k: int| Seq::<char>::empty()));
        assert(lv(out@) + normalized_from(g, i as int) =~= lv(prev) + normalized_from(g, start as int));
    }
    assert(normalized_from(g, i as int) =~= Seq::<Seq<char>>::empty());
    assert(lv(out@) =~= normalized_from(g, 0));
    let mut j = join_lines_vec(&out);
    if c.len() > 0 && c[c.len() - 1] == '\n' && !(j.len() > 0 && j[j.len() - 1] == '\n') {
        j.push('\n');
    }
    string_of(&j)
}

// ---------------------------------------------------------------------------
// Laws of the two passes
// ---------------------------------------------------------------------------

/// The non-blank lines of `ls`, in order.
pub open spec fn nonblank_lines(ls: Seq<Seq<char>>) -> Seq<Seq<char>>
    decreases ls.len(),
{
    if ls.len() == 0 {
        Seq::empty()
    } else {
        (if is_blank(ls[0]) { Seq::empty() } else { seq![ls[0]] }) + nonblank_lines(ls.skip(1))
    }
}

/// No three consecutive lines are blank.
pub open spec fn no_triple_blank(ls: Seq<Seq<char>>) -> bool {
    forall|k: int| 0 <= k && k + 2 < ls.len() ==> !(is_blank(#[trigger] ls[k]) && is_blank(ls[k + 1]) && is_blank(ls[k + 2]))
}

pub proof fn lemma_nonblank_lines_add(a: Seq<Seq<char>>, b: Seq<Seq<char>>)
    ensures
        nonblank_lines(a + b) == nonblank_lines(a) + nonblank_lines(b),
    decreases a.len(),
{
    if a.len() == 0 {
        assert(a + b =~= b);
    } else {
        assert((a + b).skip(1) =~= a.skip(1) + b);
        assert((a + b)[0] == a[0]);
        lemma_nonblank_lines_add(a.skip(1), b);
    }
}

proof fn lemma_nonblank_lines_blank(a: Seq<Seq<char>>)
    requires
        forall|k: int| 0 <= k < a.len() ==> is_blank(#[trigger] a[k]),
    ensures
        nonblank_lines(a) == Seq::<Seq<char>>::empty(),
    decreases a.len(),
{
    if a.len() > 0 {
        assert(is_blank(a[0]));
        assert forall|k: int| 0 <= k < a.skip(1).len() implies is_blank(#[trigger] a.skip(1)[k]) by {
            assert(a.skip(1)[k] == a[k + 1]);
        }
        lemma_nonblank_lines_blank(a.skip(1));
    }
}

proof fn lemma_insert_blanks_nonblank(ls: Seq<Seq<char>>, ps: Seq<int>)
    requires
        forall|k: int| 0 <= k < ps.len() ==> 0 <= #[trigger] ps[k] <= ls.len(),
    ensures
        nonblank_lines(insert_blanks(ls, ps)) == nonblank_lines(ls),
        insert_blanks(ls, ps).len() == ls.len() + ps.len(),
    decreases ps.len(),
{
    if ps.len() > 0 {
        let p = ps.last();
        let e = Seq::<char>::empty();
        let ins = ls.insert(p, e);
        assert(ins =~= ls.take(p) + seq![e] + ls.skip(p));
        assert(ls =~= ls.take(p) + ls.skip(p));
        lemma_nonblank_lines_add(ls.take(p) + seq![e], ls.skip(p));
        lemma_nonblank_lines_add(ls.take(p), seq![e]);
        lemma_nonblank_lines_add(ls.take(p), ls.skip(p));
        assert(is_blank(e));
        assert(seq![e].skip(1) =~= Seq::<Seq<char>>::empty());
        assert(nonblank_lines(Seq::<Seq<char>>::empty()) =~= Seq::<Seq<char>>::empty());
        assert(nonblank_lines(seq![e]) =~= Seq::<Seq<char>>::empty());
        assert forall|k: int| 0 <= k < ps.drop_last().len() implies 0 <= #[trigger] ps.drop_last()[k] <= ins.len() by {
            assert(ps.drop_last()[k] == ps[k]);
        }
        lemma_insert_blanks_nonblank(ins, ps.drop_last());
    }
}

/// The block-spacing pass only adds empty lines: the non-blank lines come
/// out unchanged and in order, and the output is longer by the number of
/// insertions.
pub proof fn lemma_block_spacing_only_adds_blank_lines(ls: Seq<Seq<char>>)
    ensures
        nonblank_lines(block_spacing(ls)) == nonblank_lines(ls),
        block_spacing(ls).len() == ls.len() + spacing_insertions(ls).len(),
{
    lemma_spacing_run_props(ls, ls.len() as int);
    lemma_insert_blanks_nonblank(ls, spacing_insertions(ls));
}

/// A line that opens or closes a fence is not a paragraph or list line.
proof fn lemma_fence_line_shape(t: Seq<char>)
    requires
        fence_of(t) is Some,
    ensures
        !is_para(t),
        !is_list_start(t),
{
    if digit_run(t) >= 1 {
        assert(digit_pred()(t[0]));
    }
}

proof fn lemma_spacing_run_points(ls: Seq<Seq<char>>, i: int)
    requires
        0 <= i <= ls.len(),
    ensures
        forall|k: int| 0 <= k < spacing_run(ls, i).1.len() ==> {
            let p = #[trigger] spacing_run(ls, i).1[k];
            &&& trim(ls[p - 1]).len() > 0
            &&& trim(ls[p]).len() > 0
            &&& !spacing_run(ls, p).0.in_fence
            &&& !spacing_run(ls, p).0.in_frontmatter
        },
    decreases i,
{
    lemma_spacing_run_props(ls, i);
    if i > 0 {
        lemma_spacing_run_points(ls, i - 1);
        let (st, ins) = spacing_run(ls, i - 1);
        let (st2, b) = spacing_step(ls, i - 1, st);
        if b {
            let t = trim(ls[i - 1]);
            if fence_of(t) is Some {
                lemma_fence_line_shape(t);
            }
            assert(!st2.in_fence);
            assert(!st2.in_frontmatter);
            let r = ins.push(i);
            assert forall|k: int| 0 <= k < r.len() implies {
                let p = #[trigger] r[k];
                &&& trim(ls[p - 1]).len() > 0
                &&& trim(ls[p]).len() > 0
                &&& !spacing_run(ls, p).0.in_fence
                &&& !spacing_run(ls, p).0.in_frontmatter
            } by {
                if k < ins.len() {
                    assert(r[k] == ins[k]);
                }
            }
        }
    }
}

/// Where the block-spacing pass inserts: the output is the input with one
/// empty line inserted before each insertion point, the points rising
/// strictly within `1..ls.len()`; each lies between two non-blank lines, and
/// the line before it is outside the frontmatter and leaves no fenced block
/// open (it is neither an opening fence nor a line inside one).
pub proof fn lemma_block_spacing_insertion_points(ls: Seq<Seq<char>>)
    ensures
        block_spacing(ls) == insert_blanks(ls, spacing_insertions(ls)),
        forall|a: int, b: int|
            0 <= a < b < spacing_insertions(ls).len() ==> spacing_insertions(ls)[a] < spacing_insertions(ls)[b],
        forall|k: int| 0 <= k < spacing_insertions(ls).len() ==> {
            let p = #[trigger] spacing_insertions(ls)[k];
            &&& 1 <= p < ls.len()
            &&& trim(ls[p - 1]).len() > 0
            &&& trim(ls[p]).len() > 0
            &&& !spacing_run(ls, p).0.in_fence
            &&& !spacing_run(ls, p).0.in_frontmatter
        },
{
    lemma_spacing_run_props(ls, ls.len() as int);
    lemma_spacing_run_points(ls, ls.len() as int);
}

proof fn lemma_spacing_run_keeps(ls: Seq<Seq<char>>, j: int, m: int, p: int)
    requires
        0 <= j <= m <= ls.len(),
        spacing_run(ls, j).1.contains(p),
    ensures
        spacing_run(ls, m).1.contains(p),
    decreases m - j,
{
    if m > j {
        lemma_spacing_run_keeps(ls, j, m - 1, p);
        let (st, ins) = spacing_run(ls, m - 1);
        let (st2, b) = spacing_step(ls, m - 1, st);
        let k = choose|k: int| 0 <= k < ins.len() && ins[k] == p;
        if b {
            assert(ins.push(m)[k] == p);
        }
    }
}

/// A list-item start, a heading or a fence line is not blank.
proof fn lemma_shapes_nonblank(t: Seq<char>)
    ensures
        is_heading(t) || is_para(t) || fence_of(t) is Some || is_list_start(t) ==> t.len() > 0,
{
    if is_heading(t) {
        assert(run_of(t, '#') < t.len());
    }
    if is_list_start(t) && !bullet_space(t) && !(t.len() == 1) {
        assert(digit_run(t) + 1 < t.len());
    }
}

/// Completeness of the block-spacing insertion points. Take two adjacent
/// lines `i` and `i + 1` with the scan before line `i` outside the
/// frontmatter and outside any fenced block. A blank line goes in before
/// line `i + 1` when line `i` (trimmed) is a paragraph line and line `i + 1`
/// a heading or a code fence; and, both lines unindented, when a paragraph
/// line meets a list item, a list item meets a paragraph line, or a list
/// item meets a code fence.
pub proof fn lemma_block_spacing_inserts(ls: Seq<Seq<char>>, i: int)
    requires
        0 <= i,
        i + 1 < ls.len(),
        !spacing_run(ls, i).0.in_frontmatter,
        !spacing_run(ls, i).0.in_fence,
    ensures
        is_para(trim(ls[i])) && is_heading(trim(ls[i + 1])) ==> spacing_insertions(ls).contains(i + 1),
        is_para(trim(ls[i])) && fence_of(trim(ls[i + 1])) is Some ==> spacing_insertions(ls).contains(i + 1),
        lead_spaces(ls[i]) == 0 && lead_spaces(ls[i + 1]) == 0 && is_para(trim(ls[i])) && is_list_start(trim(ls[i + 1]))
            ==> spacing_insertions(ls).contains(i + 1),
        lead_spaces(ls[i]) == 0 && lead_spaces(ls[i + 1]) == 0 && is_list_start(trim(ls[i])) && is_para(trim(ls[i + 1]))
            ==> spacing_insertions(ls).contains(i + 1),
        lead_spaces(ls[i]) == 0 && lead_spaces(ls[i + 1]) == 0 && is_list_start(trim(ls[i])) && fence_of(trim(ls[i + 1])) is Some
            ==> spacing_insertions(ls).contains(i + 1),
{
    let t = trim(ls[i]);
    let nt = trim(ls[i + 1]);
    lemma_shapes_nonblank(t);
    lemma_shapes_nonblank(nt);
    let (st, ins) = spacing_run(ls, i);
    let (st2, b) = spacing_step(ls, i, st);
    assert(spacing_run(ls, i + 1) == (st2, if b { ins.push(i + 1) } else { ins }));
    if (is_para(t) || is_list_start(t)) && (is_heading(nt) || fence_of(nt) is Some || is_para(nt) || is_list_start(nt)) {
        if is_list_start(t) {
            if t.len() >= 1 && (t[0] == '-' || t[0] == '*' || t[0] == '+') {
            } else {
                assert(digit_pred()(t[0]));
            }
            assert(t != seq!['-', '-', '-']) by {
                if t == seq!['-', '-', '-'] {
                    assert(t[1] == '-');
                    if is_ordered_marker(t) { assert(digit_pred()(t[0])); }
                }
            }
            assert(fence_of(t) is None);
        }
        if b {
            assert(ins.push(i + 1)[ins.len() as int] == i + 1);
            lemma_spacing_run_keeps(ls, i + 1, ls.len() as int, i + 1);
        }
    }
}

/// Completeness after a closing fence: where the scan before line `i` is
/// inside a fenced block (outside the frontmatter) and line `i` closes it,
/// a blank line goes in before a following paragraph line, and before a
/// following list item when both lines are unindented.
pub proof fn lemma_block_spacing_after_fence(ls: Seq<Seq<char>>, i: int)
    requires
        0 <= i,
        i + 1 < ls.len(),
        !spacing_run(ls, i).0.in_frontmatter,
        spacing_run(ls, i).0.in_fence,
        fence_of(trim(ls[i])) matches Some((c, n)) && c == spacing_run(ls, i).0.fence_char
            && n >= spacing_run(ls, i).0.fence_len,
    ensures
        is_para(trim(ls[i + 1])) ==> spacing_insertions(ls).contains(i + 1),
        lead_spaces(ls[i]) == 0 && lead_spaces(ls[i + 1]) == 0 && is_list_start(trim(ls[i + 1]))
            ==> spacing_insertions(ls).contains(i + 1),
{
    let t = trim(ls[i]);
    let nt = trim(ls[i + 1]);
    lemma_shapes_nonblank(t);
    lemma_shapes_nonblank(nt);
    let (st, ins) = spacing_run(ls, i);
    let (st2, b) = spacing_step(ls, i, st);
    assert(t != seq!['-', '-', '-']) by {
        if t == seq!['-', '-', '-'] {
            assert(t[0] == '-');
        }
    }
    assert(spacing_run(ls, i + 1) == (st2, if b { ins.push(i + 1) } else { ins }));
    if is_para(nt) || is_list_start(nt) {
        if b {
            assert(ins.push(i + 1)[ins.len() as int] == i + 1);
            lemma_spacing_run_keeps(ls, i + 1, ls.len() as int, i + 1);
        }
    }
}

/// The pairs of lines between which the block-spacing pass may put a blank
/// line: a paragraph line before a heading, a code fence or a list item; a
/// list item before a paragraph line or a code fence; a code fence before a
/// paragraph line or a list item (all lines taken trimmed).
pub open spec fn spaced_pair(t: Seq<char>, nt: Seq<char>) -> bool {
    ||| (is_para(t) && (is_heading(nt) || fence_of(nt) is Some || is_list_start(nt)))
    ||| (is_list_start(t) && (is_para(nt) || fence_of(nt) is Some))
    ||| (fence_of(t) is Some && (is_para(nt) || is_list_start(nt)))
}

proof fn lemma_spacing_run_pairs(ls: Seq<Seq<char>>, i: int)
    requires
        0 <= i <= ls.len(),
    ensures
        forall|k: int| 0 <= k < spacing_run(ls, i).1.len() ==> {
            let p = #[trigger] spacing_run(ls, i).1[k];
            1 <= p < ls.len() && spaced_pair(trim(ls[p - 1]), trim(ls[p]))
        },
    decreases i,
{
    lemma_spacing_run_props(ls, i);
    if i > 0 {
        lemma_spacing_run_pairs(ls, i - 1);
        let (st, ins) = spacing_run(ls, i - 1);
        let (st2, b) = spacing_step(ls, i - 1, st);
        if b {
            assert(spaced_pair(trim(ls[i - 1]), trim(ls[i])));
            let r = ins.push(i);
            assert forall|k: int| 0 <= k < r.len() implies {
                let p = #[trigger] r[k];
                1 <= p < ls.len() && spaced_pair(trim(ls[p - 1]), trim(ls[p]))
            } by {
                if k < ins.len() {
                    assert(r[k] == ins[k]);
                }
            }
        }
    }
}

/// Soundness of the block-spacing insertion points: a blank line only ever
/// goes between a pair of lines of the shapes in `spaced_pair`.
pub proof fn lemma_block_spacing_only_between_blocks(ls: Seq<Seq<char>>)
    ensures
        forall|k: int| 0 <= k < spacing_insertions(ls).len() ==> {
            let p = #[trigger] spacing_insertions(ls)[k];
            1 <= p < ls.len() && spaced_pair(trim(ls[p - 1]), trim(ls[p]))
        },
{
    lemma_spacing_run_pairs(ls, ls.len() as int);
}

proof fn lemma_normalized_from_laws(ls: Seq<Seq<char>>, i: int)
    requires
        0 <= i <= ls.len(),
    ensures
        nonblank_lines(normalized_from(ls, i)) == nonblank_lines(ls.skip(i)),
        no_triple_blank(normalized_from(ls, i)),
        normalized_from(ls, i).len() > 0 && i < ls.len() && !is_blank(ls[i]) ==> !is_blank(normalized_from(ls, i)[0]),
        i < ls.len() && !is_blank(ls[i]) ==> normalized_from(ls, i)[0] == ls[i],
        forall|k: int| 0 <= k < normalized_from(ls, i).len() && is_blank(#[trigger] normalized_from(ls, i)[k]) ==> normalized_from(ls, i)[k] == Seq::<char>::empty(),
    decreases ls.len() - i,
{
    let r = normalized_from(ls, i);
    if i == ls.len() {
        assert(ls.skip(i) =~= Seq::<Seq<char>>::empty());
    } else if !is_blank(ls[i]) {
        lemma_normalized_from_laws(ls, i + 1);
        let rest = normalized_from(ls, i + 1);
        assert(r == seq![ls[i]] + rest);
        lemma_nonblank_lines_add(seq![ls[i]], rest);
        assert(seq![ls[i]].skip(1) =~= Seq::<Seq<char>>::empty());
        assert(ls.skip(i) =~= seq![ls[i]] + ls.skip(i + 1));
        lemma_nonblank_lines_add(seq![ls[i]], ls.skip(i + 1));
        assert forall|k: int| 0 <= k && k + 2 < r.len() implies !(is_blank(#[trigger] r[k]) && is_blank(r[k + 1]) && is_blank(r[k + 2])) by {
            if k > 0 {
                assert(r[k] == rest[k - 1] && r[k + 1] == rest[k] && r[k + 2] == rest[k + 1]);
            }
        }
        assert forall|k: int| 0 <= k < r.len() && is_blank(#[trigger] r[k]) implies r[k] == Seq::<char>::empty() by {
            if k > 0 {
                assert(r[k] == rest[k - 1]);
            }
        }
    } else {
        lemma_blank_run_end(ls, i);
        let e = blank_run_end(ls, i);
        assert(e > i);
        lemma_normalized_from_laws(ls, e);
        let rest = normalized_from(ls, e);
        let keep: nat = if e - i >= 2 && i > 0 && e < ls.len() && keeps_double_blank(ls, i - 1, e) { 2 } else { 1 };
        let blanks = Seq::new(keep, |k: int| Seq::<char>::empty());
        assert(r == blanks + rest);
        lemma_nonblank_lines_add(blanks, rest);
        assert forall|k: int| 0 <= k < blanks.len() implies is_blank(#[trigger] blanks[k]) by {
            assert(blanks[k] == Seq::<char>::empty());
        }
        lemma_nonblank_lines_blank(blanks);
        assert(ls.skip(i) =~= ls.subrange(i, e) + ls.skip(e));
        lemma_nonblank_lines_add(ls.subrange(i, e), ls.skip(e));
        assert forall|k: int| 0 <= k < ls.subrange(i, e).len() implies is_blank(#[trigger] ls.subrange(i, e)[k]) by {
            assert(ls.subrange(i, e)[k] == ls[i + k]);
        }
        lemma_nonblank_lines_blank(ls.subrange(i, e));
        if rest.len() > 0 {
            assert(e < ls.len());
            assert(!is_blank(rest[0]));
        }
        assert forall|k: int| 0 <= k && k + 2 < r.len() implies !(is_blank(#[trigger] r[k]) && is_blank(r[k + 1]) && is_blank(r[k + 2])) by {
            if k >= keep {
                assert(r[k] == rest[k - keep] && r[k + 1] == rest[k + 1 - keep] && r[k + 2] == rest[k + 2 - keep]);
            } else if k + 1 == keep {
                assert(r[k + 1] == rest[0]);
            } else {
                assert(k == 0 && keep == 2);
                assert(r[k + 2] == rest[0]);
            }
        }
        assert forall|k: int| 0 <= k < r.len() && is_blank(#[trigger] r[k]) implies r[k] == Seq::<char>::empty() by {
            if k >= keep {
                assert(r[k] == rest[k - keep]);
            }
        }
    }
}

/// Empty-line normalization keeps every non-blank line, in order; the blank
/// lines it leaves are empty, and no three of them follow each other.
pub proof fn lemma_normalize_keeps_text(content: Seq<char>)
    ensures
        nonblank_lines(normalized_from(split_lines(content), 0)) == nonblank_lines(split_lines(content)),
        no_triple_blank(normalized_from(split_lines(content), 0)),
        forall|k: int| 0 <= k < normalized_from(split_lines(content), 0).len()
            && is_blank(#[trigger] normalized_from(split_lines(content), 0)[k])
            ==> normalized_from(split_lines(content), 0)[k] == Seq::<char>::empty(),
{
    let ls = split_lines(content);
    lemma_normalized_from_laws(ls, 0);
    assert(ls.skip(0) =~= ls);
}

/// No piece holds a newline.
pub open spec fn newline_free(ls: Seq<Seq<char>>) -> bool {
    forall|k: int, j: int| 0 <= k < ls.len() && 0 <= j < ls[k].len() ==> ls[k][j] != '\n'
}

proof fn lemma_insert_blanks_newline_free(ls: Seq<Seq<char>>, ps: Seq<int>)
    requires
        newline_free(ls),
        forall|k: int| 0 <= k < ps.len() ==> 0 <= #[trigger] ps[k] <= ls.len(),
    ensures
        newline_free(insert_blanks(ls, ps)),
    decreases ps.len(),
{
    if ps.len() > 0 {
        let p = ps.last();
        let ins = ls.insert(p, Seq::<char>::empty());
        assert forall|k: int, j: int| 0 <= k < ins.len() && 0 <= j < ins[k].len() implies ins[k][j] != '\n' by {
            if k < p {
                assert(ins[k] == ls[k]);
            } else if k > p {
                assert(ins[k] == ls[k - 1]);
            }
        }
        assert forall|k: int| 0 <= k < ps.drop_last().len() implies 0 <= #[trigger] ps.drop_last()[k] <= ins.len() by {
            assert(ps.drop_last()[k] == ps[k]);
        }
        lemma_insert_blanks_newline_free(ins, ps.drop_last());
    }
}

/// The block-spacing pass keeps pieces free of newlines.
pub proof fn lemma_block_spacing_newline_free(ls: Seq<Seq<char>>)
    requires
        newline_free(ls),
    ensures
        newline_free(block_spacing(ls)),
        block_spacing(ls).len() >= ls.len(),
{
    lemma_spacing_run_props(ls, ls.len() as int);
    lemma_insert_blanks_newline_free(ls, spacing_insertions(ls));
    lemma_insert_blanks_nonblank(ls, spacing_insertions(ls));
}

/// Normalization keeps pieces free of newlines and, on a non-empty
/// suffix, yields at least one line.
pub proof fn lemma_normalized_from_newline_free(ls: Seq<Seq<char>>, i: int)
    requires
        0 <= i <= ls.len(),
        newline_free(ls),
    ensures
        newline_free(normalized_from(ls, i)),
        i < ls.len() ==> normalized_from(ls, i).len() >= 1,
    decreases ls.len() - i,
{
    let r = normalized_from(ls, i);
    if i < ls.len() {
        if !is_blank(ls[i]) {
            lemma_normalized_from_newline_free(ls, i + 1);
            let rest = normalized_from(ls, i + 1);
            assert(r == seq![ls[i]] + rest);
            assert forall|k: int, j: int| 0 <= k < r.len() && 0 <= j < r[k].len() implies r[k][j] != '\n' by {
                if k > 0 {
                    assert(r[k] == rest[k - 1]);
                }
            }
        } else {
            lemma_blank_run_end(ls, i);
            let e = blank_run_end(ls, i);
            lemma_normalized_from_newline_free(ls, e);
            let rest = normalized_from(ls, e);
            let keep: nat = if e - i >= 2 && i > 0 && e < ls.len() && keeps_double_blank(ls, i - 1, e) { 2 } else { 1 };
            let blanks = Seq::new(keep, |k: int| Seq::<char>::empty());
            assert(r == blanks + rest);
            assert forall|k: int, j: int| 0 <= k < r.len() && 0 <= j < r[k].len() implies r[k][j] != '\n' by {
                if k >= keep {
                    assert(r[k] == rest[k - keep]);
                } else {
                    assert(r[k] == Seq::<char>::empty());
                }
            }
        }
    }
}


// ---------------------------------------------------------------------------
// Normalizing twice
// ---------------------------------------------------------------------------

/// The output of `normalized_from(ls, i)`, placed after any lines `p` that
/// end with the line before `i` (when line `i` is blank), normalizes to
/// itself.
proof fn lemma_normalized_stable_from(ls: Seq<Seq<char>>, i: int, p: Seq<Seq<char>>)
    requires
        0 <= i <= ls.len(),
        i < ls.len() && is_blank(ls[i]) ==> (i == 0) == (p.len() == 0),
        i < ls.len() && is_blank(ls[i]) && i > 0 ==> p.len() > 0 && p.last() == ls[i - 1] && !is_blank(ls[i - 1]),
    ensures
        normalized_from(p + normalized_from(ls, i), p.len() as int) == normalized_from(ls, i),
    decreases ls.len() - i,
{
    let n = normalized_from(ls, i);
    let z = p + n;
    let q = p.len() as int;
    if i >= ls.len() {
        assert(z.len() == q);
    } else if !is_blank(ls[i]) {
        let rest = normalized_from(ls, i + 1);
        assert(n == seq![ls[i]] + rest);
        let p2 = p.push(ls[i]);
        lemma_normalized_stable_from(ls, i + 1, p2);
        assert(z =~= p2 + rest);
        assert(z[q] == ls[i]);
        assert(normalized_from(z, q) == seq![ls[i]] + normalized_from(z, q + 1));
    } else {
        lemma_blank_run_end(ls, i);
        let e = blank_run_end(ls, i);
        let keep: nat = if e - i >= 2 && i > 0 && e < ls.len() && keeps_double_blank(ls, i - 1, e) { 2 } else { 1 };
        let blanks = Seq::new(keep, |k: int| Seq::<char>::empty());
        let rest = normalized_from(ls, e);
        assert(n == blanks + rest);
        lemma_normalized_from_laws(ls, e);
        let p2 = p + blanks;
        lemma_normalized_stable_from(ls, e, p2);
        assert(z =~= p2 + rest);
        assert forall|k: int| q <= k < q + keep implies is_blank(#[trigger] z[k]) by {
            assert(z[k] == blanks[k - q]);
        }
        if e < ls.len() {
            assert(rest[0] == ls[e]);
            assert(z[q + keep] == ls[e]);
        } else {
            assert(rest.len() == 0);
        }
        lemma_blank_run_end(z, q);
        lemma_blank_run_end_at(z, q, q + keep);
        let e2 = blank_run_end(z, q);
        assert(e2 == q + keep);
        if keep == 2 {
            assert(z[q - 1] == ls[i - 1]);
            assert(keeps_double_blank(z, q - 1, e2) == keeps_double_blank(ls, i - 1, e));
        }
        let keep2: nat = if e2 - q >= 2 && q > 0 && e2 < z.len() && keeps_double_blank(z, q - 1, e2) { 2 } else { 1 };
        assert(keep2 == keep);
        assert(normalized_from(z, q) == Seq::new(keep2, |k: int| Seq::<char>::empty()) + normalized_from(z, e2));
    }
}

proof fn lemma_blank_run_end_at(ls: Seq<Seq<char>>, i: int, e: int)
    requires
        0 <= i <= e <= ls.len(),
        forall|j: int| i <= j < e ==> is_blank(#[trigger] ls[j]),
        e == ls.len() || !is_blank(ls[e]),
    ensures
        blank_run_end(ls, i) == e,
    decreases e - i,
{
    if i < e {
        lemma_blank_run_end_at(ls, i + 1, e);
    }
}

/// Normalizing normalized lines changes nothing.
pub proof fn lemma_normalized_lines_stable(ls: Seq<Seq<char>>)
    ensures
        normalized_from(normalized_from(ls, 0), 0) == normalized_from(ls, 0),
{
    lemma_normalized_stable_from(ls, 0, Seq::empty());
    assert(Seq::<Seq<char>>::empty() + normalized_from(ls, 0) =~= normalized_from(ls, 0));
}

/// Lines ending with a blank line normalize to lines ending with an empty one.
pub proof fn lemma_normalized_ends_blank(ls: Seq<Seq<char>>, i: int)
    requires
        0 <= i < ls.len(),
        is_blank(ls.last()),
    ensures
        normalized_from(ls, i).len() > 0,
        normalized_from(ls, i).last() == Seq::<char>::empty(),
    decreases ls.len() - i,
{
    let r = normalized_from(ls, i);
    if !is_blank(ls[i]) {
        assert(i + 1 < ls.len());
        lemma_normalized_ends_blank(ls, i + 1);
        assert(r == seq![ls[i]] + normalized_from(ls, i + 1));
    } else {
        lemma_blank_run_end(ls, i);
        let e = blank_run_end(ls, i);
        let keep: nat = if e - i >= 2 && i > 0 && e < ls.len() && keeps_double_blank(ls, i - 1, e) { 2 } else { 1 };
        let blanks = Seq::new(keep, |k: int| Seq::<char>::empty());
        assert(r == blanks + normalized_from(ls, e));
        if e < ls.len() {
            lemma_normalized_ends_blank(ls, e);
        } else {
            assert(normalized_from(ls, e).len() == 0);
            assert(r =~= blanks);
        }
    }
}

/// Two empty lines (the text `"\n"`) normalize to one.
pub proof fn lemma_normalized_two_empty_lines()
    ensures
        normalized_from(seq![Seq::<char>::empty(), Seq::<char>::empty()], 0) == seq![Seq::<char>::empty()],
{
    let e = Seq::<char>::empty();
    let ls = seq![e, e];
    lemma_blank_run_end_at(ls, 0, 2);
    assert(normalized_from(ls, 2).len() == 0);
    assert(normalized_from(ls, 0) == Seq::new(1, |k: int| Seq::<char>::empty()) + normalized_from(ls, 2));
    assert(normalized_from(ls, 0) =~= seq![e]);
}

/// A list-item marker line: after its leading spaces, a bullet (`-`, `+`,
/// `*`) followed by white space, or ASCII digits followed by `.` or `)` and
/// white space.
pub open spec fn starts_list_item(line: Seq<char>) -> bool {
    let t = line.skip(lead_spaces(line) as int);
    ||| (t.len() >= 2 && (t[0] == '-' || t[0] == '+' || t[0] == '*') && is_ws(t[1]))
    ||| exists|d: int| #![trigger t[d]] 1 <= d && d + 1 < t.len() && (forall|j: int| 0 <= j < d ==> crate::text::is_digit(#[trigger] t[j]))
        && (t[d] == '.' || t[d] == ')') && is_ws(t[d + 1])
}

proof fn lemma_marker_indent_starts_item(line: Seq<char>)
    requires
        marker_indent(line) is Some,
    ensures
        starts_list_item(line),
{
    let ind = lead_spaces(line);
    crate::text::lemma_lead_count_bounds(line, crate::text::space_pred());
    let t = line.skip(ind as int);
    if !is_bullet_char(t[0]) {
        let d = digit_run(t);
        lemma_lead_count_bounds(t, digit_pred());
        assert(digit_pred()(t[0]));
        assert forall|j: int| 0 <= j < d implies crate::text::is_digit(#[trigger] t[j]) by {
            assert(digit_pred()(t[j]));
        }
        assert(t[d as int] == '.' || t[d as int] == ')');
    }
}

proof fn lemma_normalized_double_blanks(ls: Seq<Seq<char>>, i: int)
    requires
        0 <= i <= ls.len(),
    ensures
        forall|k: int| 0 <= k && k + 1 < normalized_from(ls, i).len() && is_blank(#[trigger] normalized_from(ls, i)[k])
            && is_blank(normalized_from(ls, i)[k + 1])
            ==> k + 2 < normalized_from(ls, i).len() && starts_list_item(normalized_from(ls, i)[k + 2]),
    decreases ls.len() - i,
{
    let r = normalized_from(ls, i);
    if i < ls.len() {
        if !is_blank(ls[i]) {
            lemma_normalized_double_blanks(ls, i + 1);
            let rest = normalized_from(ls, i + 1);
            assert(r == seq![ls[i]] + rest);
            assert forall|k: int| 0 <= k && k + 1 < r.len() && is_blank(#[trigger] r[k]) && is_blank(r[k + 1])
                implies k + 2 < r.len() && starts_list_item(r[k + 2]) by {
                assert(k > 0);
                assert(r[k] == rest[k - 1] && r[k + 1] == rest[k]);
                assert(is_blank(rest[k - 1]));
                if k + 1 < r.len() - 1 {
                    assert(r[k + 2] == rest[k + 1]);
                }
            }
        } else {
            lemma_blank_run_end(ls, i);
            let e = blank_run_end(ls, i);
            lemma_normalized_double_blanks(ls, e);
            lemma_normalized_from_laws(ls, e);
            let rest = normalized_from(ls, e);
            let keep: nat = if e - i >= 2 && i > 0 && e < ls.len() && keeps_double_blank(ls, i - 1, e) { 2 } else { 1 };
            let blanks = Seq::new(keep, |k: int| Seq::<char>::empty());
            assert(r == blanks + rest);
            if rest.len() > 0 {
                assert(e < ls.len());
                assert(rest[0] == ls[e]);
                assert(!is_blank(rest[0]));
            }
            if keep == 2 {
                lemma_marker_indent_starts_item(ls[e]);
            }
            assert forall|k: int| 0 <= k && k + 1 < r.len() && is_blank(#[trigger] r[k]) && is_blank(r[k + 1])
                implies k + 2 < r.len() && starts_list_item(r[k + 2]) by {
                if k >= keep {
                    assert(r[k] == rest[k - keep] && r[k + 1] == rest[k + 1 - keep]);
                    assert(is_blank(rest[k - keep]));
                    if k + 2 < r.len() {
                        assert(r[k + 2] == rest[k + 2 - keep]);
                    }
                } else if k + 1 == keep {
                    assert(r[k + 1] == rest[0]);
                } else {
                    assert(k == 0 && keep == 2);
                    assert(r[2] == rest[0]);
                }
            }
        }
    }
}

/// Empty-line normalization keeps two blank lines in a row only right
/// before a list-item marker line: any other run of blank lines becomes a
/// single empty line.
pub proof fn lemma_double_blank_only_before_list_item(ls: Seq<Seq<char>>)
    ensures
        forall|k: int| 0 <= k && k + 1 < normalized_from(ls, 0).len() && is_blank(#[trigger] normalized_from(ls, 0)[k])
            && is_blank(normalized_from(ls, 0)[k + 1])
            ==> k + 2 < normalized_from(ls, 0).len() && starts_list_item(normalized_from(ls, 0)[k + 2]),
{
    lemma_normalized_double_blanks(ls, 0);
}

proof fn lemma_starts_item_marker_indent(line: Seq<char>)
    requires
        starts_list_item(line),
    ensures
        marker_indent(line) == Some(lead_spaces(line)),
{
    let ind = lead_spaces(line);
    crate::text::lemma_lead_count_bounds(line, crate::text::space_pred());
    let t = line.skip(ind as int);
    if !(t.len() >= 2 && (t[0] == '-' || t[0] == '+' || t[0] == '*') && is_ws(t[1])) {
        let d = choose|d: int| #![trigger t[d]] 1 <= d && d + 1 < t.len() && (forall|j: int| 0 <= j < d ==> crate::text::is_digit(#[trigger] t[j]))
            && (t[d] == '.' || t[d] == ')') && is_ws(t[d + 1]);
        assert(crate::text::is_digit(t[0]));
        assert forall|j: int| 0 <= j < d implies digit_pred()(t[j]) by {
            assert(crate::text::is_digit(t[j]));
        }
        lemma_lead_count(t, digit_pred(), d);
    }
}

proof fn lemma_normalized_suffix(ls: Seq<Seq<char>>, j: int, i: int)
    requires
        0 <= j <= i <= ls.len(),
        j == 0 || j == ls.len() || !is_blank(ls[j - 1]) || !is_blank(ls[j]),
        i == j || !is_blank(ls[i - 1]),
    ensures
        exists|p: Seq<Seq<char>>| normalized_from(ls, j) == p + normalized_from(ls, i),
    decreases i - j,
{
    if j == i {
        assert(normalized_from(ls, j) =~= Seq::<Seq<char>>::empty() + normalized_from(ls, i));
    } else if !is_blank(ls[j]) {
        lemma_normalized_suffix(ls, j + 1, i);
        let p = choose|p: Seq<Seq<char>>| normalized_from(ls, j + 1) == p + normalized_from(ls, i);
        assert(normalized_from(ls, j) =~= (seq![ls[j]] + p) + normalized_from(ls, i));
    } else {
        lemma_blank_run_end(ls, j);
        let e = blank_run_end(ls, j);
        assert(e <= i - 1) by {
            if e > i - 1 {
                assert(is_blank(ls[i - 1]));
            }
        }
        lemma_normalized_suffix(ls, e, i);
        let p = choose|p: Seq<Seq<char>>| normalized_from(ls, e) == p + normalized_from(ls, i);
        let keep: nat = if e - j >= 2 && j > 0 && e < ls.len() && keeps_double_blank(ls, j - 1, e) { 2 } else { 1 };
        let blanks = Seq::new(keep, |k: int| Seq::<char>::empty());
        assert(normalized_from(ls, j) == blanks + normalized_from(ls, e));
        assert(normalized_from(ls, j) =~= (blanks + p) + normalized_from(ls, i));
    }
}

/// Empty-line normalization keeps a double separator between list items:
/// where two or more blank lines (`i..e`) sit between a line and a
/// list-item marker line, and that line is a list-item marker line at the
/// same indent or a more indented non-item line, the output holds two empty
/// lines followed by the item line.
pub proof fn lemma_double_blank_kept_before_item(ls: Seq<Seq<char>>, i: int, e: int)
    requires
        0 < i,
        i + 2 <= e < ls.len(),
        !is_blank(ls[i - 1]),
        forall|j: int| i <= j < e ==> is_blank(#[trigger] ls[j]),
        !is_blank(ls[e]),
        starts_list_item(ls[e]),
        (starts_list_item(ls[i - 1]) && lead_spaces(ls[i - 1]) == lead_spaces(ls[e]))
            || (!starts_list_item(ls[i - 1]) && lead_spaces(ls[i - 1]) > lead_spaces(ls[e])),
    ensures
        exists|p: int| 0 <= p && p + 2 < normalized_from(ls, 0).len() && #[trigger] normalized_from(ls, 0)[p] == Seq::<char>::empty()
            && normalized_from(ls, 0)[p + 1] == Seq::<char>::empty() && normalized_from(ls, 0)[p + 2] == ls[e],
{
    lemma_normalized_suffix(ls, 0, i);
    let pre = choose|p: Seq<Seq<char>>| normalized_from(ls, 0) == p + normalized_from(ls, i);
    lemma_blank_run_end_at(ls, i, e);
    lemma_starts_item_marker_indent(ls[e]);
    if starts_list_item(ls[i - 1]) {
        lemma_starts_item_marker_indent(ls[i - 1]);
    } else {
        if marker_indent(ls[i - 1]) is Some {
            lemma_marker_indent_starts_item(ls[i - 1]);
        }
    }
    assert(keeps_double_blank(ls, i - 1, e));
    lemma_normalized_from_laws(ls, e);
    let rest = normalized_from(ls, e);
    let blanks = Seq::new(2, |k: int| Seq::<char>::empty());
    assert(normalized_from(ls, i) == blanks + rest);
    assert(rest[0] == ls[e]);
    let n = normalized_from(ls, 0);
    let q = pre.len() as int;
    assert(n[q] == Seq::<char>::empty());
    assert(n[q + 1] == Seq::<char>::empty());
    assert(n[q + 2] == ls[e]);
}

} // verus!
