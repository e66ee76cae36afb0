//! Character-level text utilities shared by every formatting rule.
//!
//! Text is handled as sequences of `char`; the spec functions here give the
//! mathematical meaning of trimming, prefix tests, searching, and splitting a
//! document into lines and joining it back.
use vstd::prelude::*;

verus! {

/// The Unicode `White_Space` code points (the set `char::is_whitespace`,
/// `str::trim` and the regex class `\s` are defined over).
pub open spec fn is_ws(c: char) -> bool {
    let n = c as u32;
    ||| (9 <= n && n <= 13)
    ||| n == 32
    ||| n == 0x85
    ||| n == 0xA0
    ||| n == 0x1680
    ||| (0x2000 <= n && n <= 0x200A)
    ||| n == 0x2028
    ||| n == 0x2029
    ||| n == 0x202F
    ||| n == 0x205F
    ||| n == 0x3000
}

/// Executable membership test for `is_ws`.
pub fn char_is_ws(c: char) -> (r: bool)
    ensures
        r == is_ws(c),
{
    let n = c as u32;
    (9 <= n && n <= 13) || n == 32 || n == 0x85 || n == 0xA0 || n == 0x1680 || (0x2000 <= n
        && n <= 0x200A) || n == 0x2028 || n == 0x2029 || n == 0x202F || n == 0x205F || n
        == 0x3000
}

pub open spec fn is_digit(c: char) -> bool {
    '0' <= c && c <= '9'
}

/// Number of leading characters of `s` satisfying `p`.
pub open spec fn lead_count(s: Seq<char>, p: spec_fn(char) -> bool) -> nat
    decreases s.len(),
{
    if s.len() > 0 && p(s[0]) {
        1 + lead_count(s.drop_first(), p)
    } else {
        0
    }
}

/// Number of trailing characters of `s` satisfying `p`.
pub open spec fn trail_count(s: Seq<char>, p: spec_fn(char) -> bool) -> nat
    decreases s.len(),
{
    if s.len() > 0 && p(s.last()) {
        1 + trail_count(s.drop_last(), p)
    } else {
        0
    }
}

pub open spec fn ws_pred() -> spec_fn(char) -> bool {
    |c: char| is_ws(c)
}

pub open spec fn space_pred() -> spec_fn(char) -> bool {
    |c: char| c == ' '
}

pub open spec fn digit_pred() -> spec_fn(char) -> bool {
    |c: char| is_digit(c)
}

pub open spec fn trim_start(s: Seq<char>) -> Seq<char> {
    s.skip(lead_count(s, ws_pred()) as int)
}

pub open spec fn trim_end(s: Seq<char>) -> Seq<char> {
    s.take(s.len() - trail_count(s, ws_pred()))
}

/// `str::trim`: both ends stripped of white space.
pub open spec fn trim(s: Seq<char>) -> Seq<char> {
    trim_end(trim_start(s))
}

/// A line is blank when it holds white space only (its trim is empty).
pub open spec fn is_blank(s: Seq<char>) -> bool {
    forall|i: int| 0 <= i < s.len() ==> #[trigger] is_ws(s[i])
}

/// Number of leading ASCII spaces.
pub open spec fn lead_spaces(s: Seq<char>) -> nat {
    lead_count(s, space_pred())
}

pub open spec fn starts_with(s: Seq<char>, p: Seq<char>) -> bool {
    p.len() <= s.len() && s.take(p.len() as int) == p
}

pub open spec fn ends_with(s: Seq<char>, p: Seq<char>) -> bool {
    p.len() <= s.len() && s.skip(s.len() - p.len()) == p
}

/// `p` occurs in `s` starting at index `i`.
pub open spec fn occurs_at(s: Seq<char>, p: Seq<char>, i: int) -> bool {
    0 <= i && i + p.len() <= s.len() && s.subrange(i, i + p.len()) == p
}

pub open spec fn contains(s: Seq<char>, p: Seq<char>) -> bool {
    exists|i: int| occurs_at(s, p, i)
}

pub open spec fn has_char(s: Seq<char>, c: char) -> bool {
    exists|i: int| 0 <= i < s.len() && s[i] == c
}

/// `n` ASCII spaces.
pub open spec fn spaces(n: nat) -> Seq<char> {
    Seq::new(n, |i: int| ' ')
}

/// Index of the first `c` in `s`, or `s.len()` when there is none.
pub open spec fn first_index(s: Seq<char>, c: char) -> nat
    decreases s.len(),
{
    if s.len() == 0 {
        0
    } else if s[0] == c {
        0
    } else {
        1 + first_index(s.drop_first(), c)
    }
}

/// `str::split('\n')`: the pieces between newline characters.
pub open spec fn split_lines(s: Seq<char>) -> Seq<Seq<char>>
    decreases s.len(),
{
    let i = first_index(s, '\n');
    if i < s.len() {
        seq![s.take(i as int)] + split_lines(s.skip(i as int + 1))
    } else {
        seq![s]
    }
}

/// The character sequences held by a vector of character vectors.
pub open spec fn lv(v: Seq<Vec<char>>) -> Seq<Seq<char>> {
    Seq::new(v.len(), |i: int| v[i]@)
}

/// The character sequences held by a vector of strings.
pub open spec fn sv(v: Seq<String>) -> Seq<Seq<char>> {
    Seq::new(v.len(), |i: int| v[i]@)
}

/// `join("\n")`.
pub open spec fn join_lines(ls: Seq<Seq<char>>) -> Seq<char>
    decreases ls.len(),
{
    if ls.len() == 0 {
        Seq::empty()
    } else if ls.len() == 1 {
        ls[0]
    } else {
        join_lines(ls.drop_last()) + seq!['\n'] + ls.last()
    }
}

// ---------------------------------------------------------------------------
// Lemmas
// ---------------------------------------------------------------------------

/// `lead_count` is the length of the maximal prefix satisfying `p`.
pub proof fn lemma_lead_count(s: Seq<char>, p: spec_fn(char) -> bool, k: int)
    requires
        0 <= k <= s.len(),
        forall|j: int| 0 <= j < k ==> p(s[j]),
        k == s.len() || !p(s[k]),
    ensures
        lead_count(s, p) == k,
    decreases k,
{
    if k > 0 {
        lemma_lead_count(s.drop_first(), p, k - 1);
    }
}

pub proof fn lemma_lead_count_bounds(s: Seq<char>, p: spec_fn(char) -> bool)
    ensures
        lead_count(s, p) <= s.len(),
        forall|j: int| 0 <= j < lead_count(s, p) ==> p(#[trigger] s[j]),
        lead_count(s, p) == s.len() || !p(s[lead_count(s, p) as int]),
    decreases s.len(),
{
    if s.len() > 0 && p(s[0]) {
        lemma_lead_count_bounds(s.drop_first(), p);
        assert forall|j: int| 0 <= j < lead_count(s, p) implies p(#[trigger] s[j]) by {
            if j > 0 {
                assert(s[j] == s.drop_first()[j - 1]);
            }
        }
    }
}

pub proof fn lemma_trail_count(s: Seq<char>, p: spec_fn(char) -> bool, k: int)
    requires
        0 <= k <= s.len(),
        forall|j: int| s.len() - k <= j < s.len() ==> p(s[j]),
        k == s.len() || !p(s[s.len() - k - 1]),
    ensures
        trail_count(s, p) == k,
    decreases k,
{
    if k > 0 {
        assert forall|j: int| s.drop_last().len() - (k - 1) <= j < s.drop_last().len() implies p(
            s.drop_last()[j],
        ) by {
            assert(s.drop_last()[j] == s[j]);
        }
        lemma_trail_count(s.drop_last(), p, k - 1);
    }
}

pub proof fn lemma_trail_count_bounds(s: Seq<char>, p: spec_fn(char) -> bool)
    ensures
        trail_count(s, p) <= s.len(),
    decreases s.len(),
{
    if s.len() > 0 && p(s.last()) {
        lemma_trail_count_bounds(s.drop_last(), p);
    }
}

proof fn lemma_trail_count_stop(s: Seq<char>, p: spec_fn(char) -> bool)
    ensures
        trail_count(s, p) <= s.len(),
        trail_count(s, p) < s.len() ==> !p(s[s.len() - trail_count(s, p) - 1]),
    decreases s.len(),
{
    if s.len() > 0 && p(s.last()) {
        lemma_trail_count_stop(s.drop_last(), p);
        if trail_count(s, p) < s.len() {
            assert(s.drop_last()[s.drop_last().len() - trail_count(s.drop_last(), p) - 1] == s[s.len() - trail_count(s, p) - 1]);
        }
    }
}

/// A trimmed line is empty or starts and ends with a non-white-space character.
pub proof fn lemma_trim_ends(x: Seq<char>)
    ensures
        trim(x).len() > 0 ==> !is_ws(trim(x)[0]) && !is_ws(trim(x).last()),
{
    lemma_lead_count_bounds(x, ws_pred());
    let k = lead_count(x, ws_pred());
    let ts = x.skip(k as int);
    lemma_trail_count_stop(ts, ws_pred());
    let c = trail_count(ts, ws_pred());
    if trim(x).len() > 0 {
        assert(trim(x)[0] == ts[0]);
        assert(ts[0] == x[k as int]);
        assert(trim(x).last() == ts[ts.len() - c - 1]);
    }
}

/// Leading spaces before a trimmed text trim away.
pub proof fn lemma_trim_padded(w: nat, t: Seq<char>)
    requires
        t.len() == 0 || (!is_ws(t[0]) && !is_ws(t.last())),
    ensures
        trim(spaces(w) + t) == t,
{
    let s = spaces(w) + t;
    assert(is_ws(' '));
    assert forall|j: int| 0 <= j < w implies ws_pred()(s[j]) by {
        assert(s[j] == ' ');
    }
    if t.len() > 0 {
        assert(s[w as int] == t[0]);
    }
    lemma_lead_count(s, ws_pred(), w as int);
    assert(s.skip(w as int) =~= t);
    lemma_trail_count(t, ws_pred(), 0);
    assert(t.take(t.len() as int) =~= t);
}

/// A blank line trims to nothing, and a line that trims to nothing is blank.
pub proof fn lemma_blank_iff_trim_empty(s: Seq<char>)
    ensures
        is_blank(s) <==> trim(s).len() == 0,
        is_blank(s) <==> lead_count(s, ws_pred()) == s.len(),
{
    lemma_lead_count_bounds(s, ws_pred());
    let k = lead_count(s, ws_pred());
    let t = s.skip(k as int);
    lemma_trail_count_bounds(t, ws_pred());
    if is_blank(s) {
        lemma_lead_count(s, ws_pred(), s.len() as int);
    }
    if k < s.len() {
        assert(!is_ws(s[k as int]));
        assert(t[0] == s[k as int]);
        if trail_count(t, ws_pred()) == t.len() {
            lemma_trail_all(t, ws_pred());
            assert(false);
        }
    }
}

proof fn lemma_trail_all(s: Seq<char>, p: spec_fn(char) -> bool)
    requires
        trail_count(s, p) == s.len(),
    ensures
        forall|j: int| 0 <= j < s.len() ==> p(#[trigger] s[j]),
    decreases s.len(),
{
    if s.len() > 0 {
        lemma_trail_count_bounds(s.drop_last(), p);
        lemma_trail_all(s.drop_last(), p);
        assert forall|j: int| 0 <= j < s.len() implies p(#[trigger] s[j]) by {
            if j < s.len() - 1 {
                assert(s[j] == s.drop_last()[j]);
            }
        }
    }
}

pub proof fn lemma_first_index(s: Seq<char>, c: char)
    ensures
        first_index(s, c) <= s.len(),
        forall|j: int| 0 <= j < first_index(s, c) ==> s[j] != c,
        first_index(s, c) < s.len() ==> s[first_index(s, c) as int] == c,
    decreases s.len(),
{
    if s.len() > 0 && s[0] != c {
        lemma_first_index(s.drop_first(), c);
        assert forall|j: int| 0 <= j < first_index(s, c) implies s[j] != c by {
            if j > 0 {
                assert(s[j] == s.drop_first()[j - 1]);
            }
        }
    }
}

pub proof fn lemma_first_index_char(s: Seq<char>, c: char, k: int)
    requires
        0 <= k <= s.len(),
        forall|j: int| 0 <= j < k ==> s[j] != c,
        k == s.len() || s[k] == c,
    ensures
        first_index(s, c) == k,
    decreases k,
{
    if k > 0 {
        lemma_first_index_char(s.drop_first(), c, k - 1);
    }
}

/// Splitting at the newlines and joining with newlines gives the text back.
pub proof fn lemma_join_split(s: Seq<char>)
    ensures
        join_lines(split_lines(s)) == s,
        split_lines(s).len() >= 1,
    decreases s.len(),
{
    let i = first_index(s, '\n');
    lemma_first_index(s, '\n');
    if i < s.len() {
        let rest = s.skip(i as int + 1);
        lemma_join_split(rest);
        lemma_join_cons(s.take(i as int), split_lines(rest));
        assert(s =~= s.take(i as int) + seq!['\n'] + rest);
    }
}

/// Joining `a` in front of `ls` puts one newline between them.
pub proof fn lemma_join_cons(a: Seq<char>, ls: Seq<Seq<char>>)
    requires
        ls.len() >= 1,
    ensures
        join_lines(seq![a] + ls) == a + seq!['\n'] + join_lines(ls),
    decreases ls.len(),
{
    let whole = seq![a] + ls;
    if ls.len() == 1 {
        assert(whole.drop_last() =~= seq![a]);
        assert(join_lines(seq![a]) == a);
        assert(whole.last() == ls[0]);
        assert(join_lines(ls) == ls[0]);
    } else {
        assert(whole.drop_last() =~= seq![a] + ls.drop_last());
        lemma_join_cons(a, ls.drop_last());
        assert(whole.last() == ls.last());
        assert(join_lines(whole) == join_lines(whole.drop_last()) + seq!['\n'] + whole.last());
        assert(join_lines(ls) == join_lines(ls.drop_last()) + seq!['\n'] + ls.last());
        assert(join_lines(whole) =~= a + seq!['\n'] + join_lines(ls));
    }
}

/// Joining two non-empty groups of lines.
pub proof fn lemma_join_append(a: Seq<Seq<char>>, b: Seq<Seq<char>>)
    requires
        a.len() >= 1,
        b.len() >= 1,
    ensures
        join_lines(a + b) == join_lines(a) + seq!['\n'] + join_lines(b),
    decreases b.len(),
{
    if b.len() == 1 {
        assert((a + b).drop_last() =~= a);
    } else {
        assert((a + b).drop_last() =~= a + b.drop_last());
        lemma_join_append(a, b.drop_last());
    }
}

/// The pieces of a split hold no newline.
pub proof fn lemma_split_no_newline(s: Seq<char>)
    ensures
        forall|k: int, j: int|
            0 <= k < split_lines(s).len() && 0 <= j < split_lines(s)[k].len() ==> split_lines(
                s,
            )[k][j] != '\n',
    decreases s.len(),
{
    let i = first_index(s, '\n');
    lemma_first_index(s, '\n');
    if i < s.len() {
        lemma_split_no_newline(s.skip(i as int + 1));
        let ls = split_lines(s);
        assert forall|k: int, j: int|
            0 <= k < ls.len() && 0 <= j < ls[k].len() implies ls[k][j] != '\n' by {
            if k > 0 {
                assert(ls[k] == split_lines(s.skip(i as int + 1))[k - 1]);
            }
        }
    } else {
        assert forall|j: int| 0 <= j < s.len() implies s[j] != '\n' by {}
    }
}

/// Splitting a newline-free join recovers the pieces.
pub proof fn lemma_split_join(ls: Seq<Seq<char>>)
    requires
        ls.len() >= 1,
        forall|k: int, j: int| 0 <= k < ls.len() && 0 <= j < ls[k].len() ==> ls[k][j] != '\n',
    ensures
        split_lines(join_lines(ls)) == ls,
    decreases ls.len(),
{
    if ls.len() == 1 {
        let s = ls[0];
        lemma_first_index_char(s, '\n', s.len() as int);
        assert(split_lines(join_lines(ls)) =~= ls);
    } else {
        let rest = ls.drop_first();
        assert(ls =~= seq![ls[0]] + rest);
        lemma_join_cons(ls[0], rest);
        let s = join_lines(ls);
        let a = ls[0];
        assert(s =~= a + seq!['\n'] + join_lines(rest));
        assert forall|j: int| 0 <= j < a.len() implies s[j] != '\n' by {
            assert(s[j] == a[j]);
        }
        assert(s[a.len() as int] == '\n');
        lemma_first_index_char(s, '\n', a.len() as int);
        assert(s.take(a.len() as int) =~= a);
        assert(s.skip(a.len() as int + 1) =~= join_lines(rest));
        lemma_split_join(rest);
        assert(split_lines(s) =~= seq![a] + rest);
    }
}

// ---------------------------------------------------------------------------
// Executable helpers
// ---------------------------------------------------------------------------

/// Appends one character to a `String`.
#[verifier::external_body]
fn string_push(s: &mut String, c: char)
    ensures
        final(s)@ == old(s)@.push(c),
{
    s.push(c);
}

/// Collects the characters of a string slice.
pub fn chars_of(s: &str) -> (r: Vec<char>)
    ensures
        r@ == s@,
{
    let mut out: Vec<char> = Vec::new();
    for c in it: s.chars()
        invariant
            out@ == it.seq().take(it.index() as int),
            it.seq() == s@,
    {
        out.push(c);
    }
    out
}

/// Builds a `String` from characters.
pub fn string_of(v: &[char]) -> (r: String)
    ensures
        r@ == v@,
{
    let mut s = String::new();
    let mut i: usize = 0;
    while i < v.len()
        invariant
            i <= v.len(),
            s@ == v@.take(i as int),
        decreases v.len() - i,
    {
        string_push(&mut s, v[i]);
        assert(v@.take(i as int).push(v@[i as int]) =~= v@.take(i + 1));
        i += 1;
    }
    assert(v@.take(v.len() as int) =~= v@);
    s
}

/// Number of leading white-space characters.
pub fn lead_ws_len(s: &[char]) -> (n: usize)
    ensures
        n == lead_count(s@, ws_pred()),
        n <= s.len(),
{
    let mut i: usize = 0;
    while i < s.len() && char_is_ws(s[i])
        invariant
            i <= s.len(),
            forall|j: int| 0 <= j < i ==> is_ws(s@[j]),
        decreases s.len() - i,
    {
        i += 1;
    }
    proof {
        lemma_lead_count(s@, ws_pred(), i as int);
    }
    i
}

/// Number of trailing white-space characters.
pub fn trail_ws_len(s: &[char]) -> (n: usize)
    ensures
        n == trail_count(s@, ws_pred()),
        n <= s.len(),
{
    let mut k: usize = 0;
    while k < s.len() && char_is_ws(s[s.len() - 1 - k])
        invariant
            k <= s.len(),
            forall|j: int| s.len() - k <= j < s.len() ==> is_ws(s@[j]),
        decreases s.len() - k,
    {
        k += 1;
    }
    proof {
        lemma_trail_count(s@, ws_pred(), k as int);
    }
    k
}

/// `leading_space_count`: number of leading ASCII spaces.
pub fn lead_space_len(s: &[char]) -> (n: usize)
    ensures
        n == lead_spaces(s@),
        n <= s.len(),
{
    let mut i: usize = 0;
    while i < s.len() && s[i] == ' '
        invariant
            i <= s.len(),
            forall|j: int| 0 <= j < i ==> s@[j] == ' ',
        decreases s.len() - i,
    {
        i += 1;
    }
    proof {
        lemma_lead_count(s@, space_pred(), i as int);
    }
    i
}

/// Number of leading ASCII digits.
pub fn lead_digit_len(s: &[char]) -> (n: usize)
    ensures
        n == lead_count(s@, digit_pred()),
        n <= s.len(),
{
    let mut i: usize = 0;
    while i < s.len() && ('0' <= s[i] && s[i] <= '9')
        invariant
            i <= s.len(),
            forall|j: int| 0 <= j < i ==> is_digit(s@[j]),
        decreases s.len() - i,
    {
        i += 1;
    }
    proof {
        lemma_lead_count(s@, digit_pred(), i as int);
    }
    i
}

/// A copy of `s[from..to]`.
pub fn slice_vec(s: &[char], from: usize, to: usize) -> (r: Vec<char>)
    requires
        from <= to <= s.len(),
    ensures
        r@ == s@.subrange(from as int, to as int),
{
    let mut out: Vec<char> = Vec::new();
    let mut i = from;
    while i < to
        invariant
            from <= i <= to <= s.len(),
            out@ == s@.subrange(from as int, i as int),
        decreases to - i,
    {
        out.push(s[i]);
        assert(s@.subrange(from as int, i as int).push(s@[i as int]) =~= s@.subrange(
            from as int,
            i + 1,
        ));
        i += 1;
    }
    out
}

/// `trim_start`.
pub fn trim_start_vec(s: &[char]) -> (r: Vec<char>)
    ensures
        r@ == trim_start(s@),
{
    let k = lead_ws_len(s);
    slice_vec(s, k, s.len())
}

/// `trim`.
pub fn trim_vec(s: &[char]) -> (r: Vec<char>)
    ensures
        r@ == trim(s@),
{
    let t = trim_start_vec(s);
    let k = trail_ws_len(&t);
    slice_vec(&t, 0, t.len() - k)
}

/// `line.trim().is_empty()`.
pub fn is_blank_line(s: &[char]) -> (r: bool)
    ensures
        r == is_blank(s@),
        r == (trim(s@).len() == 0),
{
    proof {
        lemma_blank_iff_trim_empty(s@);
    }
    lead_ws_len(s) == s.len()
}

/// Appends all of `b` to `a`.
pub fn push_all(a: &mut Vec<char>, b: &[char])
    ensures
        final(a)@ == old(a)@ + b@,
{
    let mut i: usize = 0;
    while i < b.len()
        invariant
            i <= b.len(),
            a@ == old(a)@ + b@.take(i as int),
        decreases b.len() - i,
    {
        a.push(b[i]);
        assert(old(a)@ + b@.take(i + 1) =~= (old(a)@ + b@.take(i as int)).push(b@[i as int]));
        i += 1;
    }
    assert(b@.take(b.len() as int) =~= b@);
}

/// `n` spaces.
pub fn spaces_vec(n: usize) -> (r: Vec<char>)
    ensures
        r@ == spaces(n as nat),
{
    let mut out: Vec<char> = Vec::new();
    let mut i: usize = 0;
    while i < n
        invariant
            i <= n,
            out@ == spaces(i as nat),
        decreases n - i,
    {
        out.push(' ');
        assert(spaces(i as nat).push(' ') =~= spaces((i + 1) as nat));
        i += 1;
    }
    out
}

/// `s.starts_with(p)`.
pub fn starts_with_vec(s: &[char], p: &[char]) -> (r: bool)
    ensures
        r == starts_with(s@, p@),
{
    if p.len() > s.len() {
        return false;
    }
    let mut i: usize = 0;
    while i < p.len()
        invariant
            p.len() <= s.len(),
            i <= p.len(),
            forall|j: int| 0 <= j < i ==> s@[j] == p@[j],
        decreases p.len() - i,
    {
        if s[i] != p[i] {
            assert(s@.take(p.len() as int)[i as int] != p@[i as int]);
            return false;
        }
        i += 1;
    }
    assert(s@.take(p.len() as int) =~= p@);
    true
}

/// `s.ends_with(p)`.
pub fn ends_with_vec(s: &[char], p: &[char]) -> (r: bool)
    ensures
        r == ends_with(s@, p@),
{
    if p.len() > s.len() {
        return false;
    }
    let off = s.len() - p.len();
    let mut i: usize = 0;
    while i < p.len()
        invariant
            p.len() <= s.len(),
            off == s.len() - p.len(),
            i <= p.len(),
            forall|j: int| 0 <= j < i ==> s@[off + j] == p@[j],
        decreases p.len() - i,
    {
        if s[off + i] != p[i] {
            assert(s@.skip(off as int)[i as int] != p@[i as int]);
            return false;
        }
        i += 1;
    }
    assert(s@.skip(off as int) =~= p@);
    true
}

/// Does `p` occur in `s` at index `i`?
pub fn occurs_at_vec(s: &[char], p: &[char], i: usize) -> (r: bool)
    ensures
        r == occurs_at(s@, p@, i as int),
{
    if i > s.len() || p.len() > s.len() - i {
        return false;
    }
    let mut k: usize = 0;
    while k < p.len()
        invariant
            i + p.len() <= s.len(),
            k <= p.len(),
            forall|j: int| 0 <= j < k ==> s@[i + j] == p@[j],
        decreases p.len() - k,
    {
        if s[i + k] != p[k] {
            assert(s@.subrange(i as int, i + p.len())[k as int] != p@[k as int]);
            return false;
        }
        k += 1;
    }
    assert(s@.subrange(i as int, i + p.len()) =~= p@);
    true
}

/// `s.find(p)`: index of the first occurrence.
pub fn find_vec(s: &[char], p: &[char]) -> (r: Option<usize>)
    ensures
        r matches Some(i) ==> occurs_at(s@, p@, i as int) && forall|j: int|
            0 <= j < i ==> !occurs_at(s@, p@, j),
        r is None ==> !contains(s@, p@),
{
    let mut i: usize = 0;
    loop
        invariant
            i <= s.len(),
            forall|j: int| 0 <= j < i ==> !occurs_at(s@, p@, j),
        decreases s.len() - i,
    {
        if occurs_at_vec(s, p, i) {
            return Some(i);
        }
        if i == s.len() {
            assert forall|j: int| !occurs_at(s@, p@, j) by {
                if 0 <= j < i {
                }
            }
            return None;
        }
        i += 1;
    }
}

/// `s.rfind(p)`: index of the last occurrence.
pub fn rfind_vec(s: &[char], p: &[char]) -> (r: Option<usize>)
    ensures
        r matches Some(i) ==> occurs_at(s@, p@, i as int) && forall|j: int|
            i < j ==> !occurs_at(s@, p@, j),
        r is None ==> !contains(s@, p@),
{
    let mut i: usize = s.len();
    loop
        invariant
            i <= s.len(),
            forall|j: int| i < j ==> !occurs_at(s@, p@, j),
        decreases i,
    {
        if occurs_at_vec(s, p, i) {
            return Some(i);
        }
        if i == 0 {
            return None;
        }
        i -= 1;
    }
}

/// `s.contains(p)`.
pub fn contains_vec(s: &[char], p: &[char]) -> (r: bool)
    ensures
        r == contains(s@, p@),
{
    find_vec(s, p).is_some()
}

/// `s.contains(c)`.
pub fn has_char_vec(s: &[char], c: char) -> (r: bool)
    ensures
        r == has_char(s@, c),
{
    let mut i: usize = 0;
    while i < s.len()
        invariant
            i <= s.len(),
            forall|j: int| 0 <= j < i ==> s@[j] != c,
        decreases s.len() - i,
    {
        if s[i] == c {
            return true;
        }
        i += 1;
    }
    false
}

/// `s.split('\n')`.
pub fn split_lines_vec(s: &[char]) -> (r: Vec<Vec<char>>)
    ensures
        lv(r@) == split_lines(s@),
        r.len() >= 1,
{
    let mut out: Vec<Vec<char>> = Vec::new();
    let mut cur: Vec<char> = Vec::new();
    let mut start: usize = 0;
    let mut i: usize = 0;
    assert(s@.skip(0) =~= s@);
    assert(lv(out@) + split_lines(s@) =~= split_lines(s@));
    while i < s.len()
        invariant
            start <= i <= s.len(),
            cur@ == s@.subrange(start as int, i as int),
            forall|j: int| start <= j < i ==> s@[j] != '\n',
            split_lines(s@) == lv(out@) + split_lines(s@.skip(start as int)),
        decreases s.len() - i,
    {
        if s[i] == '\n' {
            proof {
                let t = s@.skip(start as int);
                lemma_first_index_char(t, '\n', i - start);
                assert(t.take(i - start) =~= cur@);
                assert(t.skip(i - start + 1) =~= s@.skip(i + 1));
                assert(split_lines(t) == seq![cur@] + split_lines(s@.skip(i + 1)));
            }
            let ghost old_out = lv(out@);
            out.push(cur);
            assert(lv(out@) =~= old_out.push(cur@));
            cur = Vec::new();
            start = i + 1;
            assert(split_lines(s@) =~= lv(out@) + split_lines(s@.skip(start as int)));
        } else {
            cur.push(s[i]);
            assert(cur@ =~= s@.subrange(start as int, i + 1));
        }
        i += 1;
    }
    proof {
        let t = s@.skip(start as int);
        lemma_first_index_char(t, '\n', t.len() as int);
        assert(t =~= cur@);
    }
    let ghost old_out = lv(out@);
    out.push(cur);
    assert(lv(out@) =~= old_out.push(s@.skip(start as int)));
    out
}

/// `lines.join("\n")`.
pub fn join_lines_vec(ls: &Vec<Vec<char>>) -> (r: Vec<char>)
    ensures
        r@ == join_lines(lv(ls@)),
{
    let mut out: Vec<char> = Vec::new();
    let mut i: usize = 0;
    while i < ls.len()
        invariant
            i <= ls.len(),
            out@ == join_lines(lv(ls@).take(i as int)),
        decreases ls.len() - i,
    {
        let ghost prev = lv(ls@).take(i as int);
        assert(lv(ls@).take(i + 1).drop_last() =~= prev);
        assert(lv(ls@).take(i + 1).last() == ls[i as int]@);
        if i > 0 {
            out.push('\n');
        }
        push_all(&mut out, &ls[i]);
        if i == 0 {
            assert(out@ =~= join_lines(lv(ls@).take(1)));
        } else {
            assert(out@ =~= join_lines(prev) + seq!['\n'] + ls[i as int]@);
        }
        i += 1;
    }
    assert(lv(ls@).take(ls.len() as int) =~= lv(ls@));
    out
}

/// UTF-8 width of a character (`char::len_utf8`).
pub open spec fn char_utf8_len(c: char) -> nat {
    let n = c as u32;
    if n < 0x80 {
        1
    } else if n < 0x800 {
        2
    } else if n < 0x10000 {
        3
    } else {
        4
    }
}

/// UTF-8 byte length of a character sequence (`str::len`).
pub open spec fn utf8_len(s: Seq<char>) -> nat
    decreases s.len(),
{
    if s.len() == 0 {
        0
    } else {
        utf8_len(s.drop_last()) + char_utf8_len(s.last())
    }
}

pub proof fn lemma_utf8_len_bound(s: Seq<char>)
    ensures
        utf8_len(s) <= 4 * s.len(),
    decreases s.len(),
{
    if s.len() > 0 {
        lemma_utf8_len_bound(s.drop_last());
    }
}

/// Byte length of a character sequence.
pub fn utf8_len_exec(s: &[char]) -> (r: u128)
    ensures
        r == utf8_len(s@),
{
    let mut n: u128 = 0;
    let mut i: usize = 0;
    while i < s.len()
        invariant
            i <= s.len(),
            n == utf8_len(s@.take(i as int)),
            n <= 4 * i,
        decreases s.len() - i,
    {
        let c = s[i] as u32;
        let w: u128 = if c < 0x80 { 1 } else if c < 0x800 { 2 } else if c < 0x10000 { 3 } else { 4 };
        assert(s@.take(i + 1).drop_last() =~= s@.take(i as int));
        n = n + w;
        i += 1;
    }
    assert(s@.take(s.len() as int) =~= s@);
    n
}


/// Index of the first occurrence of `p` in `s` (`str::find`).
pub open spec fn find_first(s: Seq<char>, p: Seq<char>) -> Option<nat> {
    if exists|i: int| occurs_at(s, p, i) && forall|j: int| 0 <= j < i ==> !occurs_at(s, p, j) {
        Some((choose|i: int| occurs_at(s, p, i) && forall|j: int| 0 <= j < i ==> !occurs_at(s, p, j)) as nat)
    } else {
        None
    }
}

/// Index of the last occurrence of `p` in `s` (`str::rfind`).
pub open spec fn find_last(s: Seq<char>, p: Seq<char>) -> Option<nat> {
    if exists|i: int| occurs_at(s, p, i) && forall|j: int| i < j ==> !occurs_at(s, p, j) {
        Some((choose|i: int| occurs_at(s, p, i) && forall|j: int| i < j ==> !occurs_at(s, p, j)) as nat)
    } else {
        None
    }
}

pub open spec fn opt_usize(r: Option<usize>) -> Option<nat> {
    match r {
        Some(i) => Some(i as nat),
        None => None,
    }
}

/// `s.find(p)`.
pub fn find_first_exec(s: &[char], p: &[char]) -> (r: Option<usize>)
    ensures
        opt_usize(r) == find_first(s@, p@),
        r matches Some(i) ==> occurs_at(s@, p@, i as int),
{
    let r = find_vec(s, p);
    match r {
        Some(i) => {
            let ghost w = choose|k: int| occurs_at(s@, p@, k) && forall|j: int| 0 <= j < k ==> !occurs_at(s@, p@, j);
            assert(occurs_at(s@, p@, i as int) && forall|j: int| 0 <= j < i ==> !occurs_at(s@, p@, j));
            assert(w == i as int) by {
                if w < i as int {
                    assert(!occurs_at(s@, p@, w));
                }
                if w > i as int {
                    assert(!occurs_at(s@, p@, i as int));
                }
            }
        },
        None => {
            assert(!(exists|k: int| occurs_at(s@, p@, k) && forall|j: int| 0 <= j < k ==> !occurs_at(s@, p@, j)));
        },
    }
    r
}

/// `s.rfind(p)`.
pub fn find_last_exec(s: &[char], p: &[char]) -> (r: Option<usize>)
    ensures
        opt_usize(r) == find_last(s@, p@),
        r matches Some(i) ==> occurs_at(s@, p@, i as int),
{
    let r = rfind_vec(s, p);
    match r {
        Some(i) => {
            let ghost w = choose|k: int| occurs_at(s@, p@, k) && forall|j: int| k < j ==> !occurs_at(s@, p@, j);
            assert(occurs_at(s@, p@, i as int) && forall|j: int| i < j ==> !occurs_at(s@, p@, j));
            assert(w == i as int) by {
                if w < i as int {
                    assert(!occurs_at(s@, p@, i as int));
                }
                if w > i as int {
                    assert(!occurs_at(s@, p@, w));
                }
            }
        },
        None => {
            assert(!(exists|k: int| occurs_at(s@, p@, k) && forall|j: int| k < j ==> !occurs_at(s@, p@, j)));
        },
    }
    r
}


/// An occurrence implies a first occurrence.
pub proof fn lemma_first_occurrence(s: Seq<char>, p: Seq<char>, w: int)
    requires
        occurs_at(s, p, w),
    ensures
        find_first(s, p) is Some,
    decreases w,
{
    if forall|j: int| 0 <= j < w ==> !occurs_at(s, p, j) {
        assert(occurs_at(s, p, w) && forall|j: int| 0 <= j < w ==> !occurs_at(s, p, j));
    } else {
        let j = choose|j: int| 0 <= j < w && occurs_at(s, p, j);
        lemma_first_occurrence(s, p, j);
    }
}


/// An occurrence implies a last occurrence.
pub proof fn lemma_last_occurrence(s: Seq<char>, p: Seq<char>, w: int)
    requires
        occurs_at(s, p, w),
    ensures
        find_last(s, p) is Some,
    decreases s.len() - w,
{
    if forall|j: int| w < j ==> !occurs_at(s, p, j) {
        assert(occurs_at(s, p, w) && forall|j: int| w < j ==> !occurs_at(s, p, j));
    } else {
        let j = choose|j: int| w < j && occurs_at(s, p, j);
        lemma_last_occurrence(s, p, j);
    }
}

/// Index of the character holding byte `b` of `s` (`s.len()` past the end):
/// how a byte column maps onto characters.
pub open spec fn char_at_byte(s: Seq<char>, b: int) -> nat
    decreases s.len(),
{
    if s.len() == 0 || b < char_utf8_len(s[0]) {
        0
    } else {
        1 + char_at_byte(s.drop_first(), b - char_utf8_len(s[0]))
    }
}

pub proof fn lemma_char_at_byte_bound(s: Seq<char>, b: int)
    ensures
        char_at_byte(s, b) <= s.len(),
    decreases s.len(),
{
    if s.len() > 0 && b >= char_utf8_len(s[0]) {
        lemma_char_at_byte_bound(s.drop_first(), b - char_utf8_len(s[0]));
    }
}

/// Character index of byte offset `b` in `s`.
pub fn char_index_of_byte(s: &[char], b: usize) -> (r: usize)
    ensures
        r == char_at_byte(s@, b as int),
        r <= s.len(),
{
    let mut i: usize = 0;
    let mut used: usize = 0;
    proof {
        assert(s@.skip(0) =~= s@);
    }
    while i < s.len()
        invariant
            i <= s.len(),
            used <= b,
            char_at_byte(s@, b as int) == i + char_at_byte(s@.skip(i as int), b - used),
        decreases s.len() - i,
    {
        let c = s[i] as u32;
        let w: usize = if c < 0x80 { 1 } else if c < 0x800 { 2 } else if c < 0x10000 { 3 } else { 4 };
        assert(w == char_utf8_len(s@[i as int]));
        assert(s@.skip(i as int)[0] == s@[i as int]);
        if b - used < w {
            return i;
        }
        assert(s@.skip(i as int).drop_first() =~= s@.skip(i + 1));
        used = used + w;
        i += 1;
    }
    proof {
        assert(s@.skip(i as int).len() == 0);
    }
    i
}

/// Byte 0 is in the first character.
pub proof fn lemma_char_at_byte_zero(s: Seq<char>)
    ensures
        char_at_byte(s, 0) == 0,
{
}

/// A later byte is in the same or a later character.
pub proof fn lemma_char_at_byte_mono(s: Seq<char>, a: int, b: int)
    requires
        a <= b,
    ensures
        char_at_byte(s, a) <= char_at_byte(s, b),
    decreases s.len(),
{
    if s.len() > 0 && a >= char_utf8_len(s[0]) {
        lemma_char_at_byte_mono(s.drop_first(), a - char_utf8_len(s[0]), b - char_utf8_len(s[0]));
    }
}

/// `str::split(c)`: the pieces between occurrences of `c`.
pub open spec fn split_on(s: Seq<char>, c: char) -> Seq<Seq<char>>
    decreases s.len(),
{
    let i = first_index(s, c);
    if i < s.len() {
        seq![s.take(i as int)] + split_on(s.skip(i as int + 1), c)
    } else {
        seq![s]
    }
}

/// Split a character sequence at every `c`.
pub fn split_on_vec(s: &[char], c: char) -> (r: Vec<Vec<char>>)
    ensures
        lv(r@) == split_on(s@, c),
{
    let mut out: Vec<Vec<char>> = Vec::new();
    let mut cur: Vec<char> = Vec::new();
    let mut start: usize = 0;
    let mut i: usize = 0;
    assert(s@.skip(0) =~= s@);
    assert(lv(out@) + split_on(s@, c) =~= split_on(s@, c));
    while i < s.len()
        invariant
            start <= i <= s.len(),
            cur@ == s@.subrange(start as int, i as int),
            forall|j: int| start <= j < i ==> s@[j] != c,
            split_on(s@, c) == lv(out@) + split_on(s@.skip(start as int), c),
        decreases s.len() - i,
    {
        if s[i] == c {
            proof {
                let t = s@.skip(start as int);
                lemma_first_index_char(t, c, i - start);
                assert(t.take(i - start) =~= cur@);
                assert(t.skip(i - start + 1) =~= s@.skip(i + 1));
                assert(split_on(t, c) == seq![cur@] + split_on(s@.skip(i + 1), c));
            }
            let ghost old_out = lv(out@);
            out.push(cur);
            assert(lv(out@) =~= old_out.push(cur@));
            cur = Vec::new();
            start = i + 1;
            assert(split_on(s@, c) =~= lv(out@) + split_on(s@.skip(start as int), c));
        } else {
            cur.push(s[i]);
            assert(cur@ =~= s@.subrange(start as int, i + 1));
        }
        i += 1;
    }
    proof {
        let t = s@.skip(start as int);
        lemma_first_index_char(t, c, t.len() as int);
        assert(t =~= cur@);
    }
    let ghost old_out = lv(out@);
    out.push(cur);
    assert(lv(out@) =~= old_out.push(s@.skip(start as int)));
    out
}

} // verus!
