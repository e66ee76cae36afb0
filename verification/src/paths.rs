//! File operands: separator normalization, glob detection, and lexical path
//! arithmetic over path components.
use vstd::prelude::*;
use crate::text::{chars_of, string_of, starts_with, starts_with_vec, slice_vec, push_all};

verus! {

/// A path component (`std::path::Component`, with its text where it has one).
#[derive(Debug, Clone)]
pub enum PathPart {
    Prefix(String),
    RootDir,
    CurDir,
    ParentDir,
    Normal(String),
}

/// A copy of a component.
pub fn copy_part(p: &PathPart) -> (r: PathPart)
    ensures
        r == *p,
{
    match p {
        PathPart::Prefix(s) => PathPart::Prefix(crate::ops::clone_string(s)),
        PathPart::RootDir => PathPart::RootDir,
        PathPart::CurDir => PathPart::CurDir,
        PathPart::ParentDir => PathPart::ParentDir,
        PathPart::Normal(s) => PathPart::Normal(crate::ops::clone_string(s)),
    }
}

/// Every `\` turned into `/`.
pub open spec fn slashes(s: Seq<char>) -> Seq<char> {
    s.map_values(|c: char| if c == '\\' { '/' } else { c })
}

fn slashes_exec(s: &[char]) -> (r: Vec<char>)
    ensures
        r@ == slashes(s@),
{
    let mut out: Vec<char> = Vec::new();
    let mut i: usize = 0;
    while i < s.len()
        invariant
            i <= s.len(),
            out@ == slashes(s@.take(i as int)),
        decreases s.len() - i,
    {
        out.push(if s[i] == '\\' { '/' } else { s[i] });
        assert(slashes(s@.take(i + 1)) =~= slashes(s@.take(i as int)).push(if s@[i as int] == '\\' { '/' } else { s@[i as int] }));
        i += 1;
    }
    assert(s@.take(s.len() as int) =~= s@);
    out
}

/// An operand with `/` separators and without a leading `./`.
pub open spec fn normalized_operand(p: Seq<char>) -> Seq<char> {
    let n = slashes(p);
    if starts_with(n, seq!['.', '/']) { n.skip(2) } else { n }
}

/// Normalize separators of an operand for matching.
pub fn normalize_operand(path: &str) -> (r: String)
    ensures
        r@ == normalized_operand(path@),
{
    let c = chars_of(path);
    let n = slashes_exec(&c);
    let dot_slash: Vec<char> = vec!['.', '/'];
    assert(dot_slash@ =~= seq!['.', '/']);
    if starts_with_vec(&n, &dot_slash) {
        let rest = slice_vec(&n, 2, n.len());
        assert(rest@ =~= n@.skip(2));
        string_of(&rest)
    } else {
        string_of(&n)
    }
}

/// Whether `*`, `?` or `[` occurs outside a backslash escape, scanning from
/// `i` with `escaped` telling whether the previous character escapes this one.
pub open spec fn magic_from(s: Seq<char>, i: int, escaped: bool) -> bool
    decreases s.len() - i,
{
    if i < 0 || i >= s.len() {
        false
    } else if escaped {
        magic_from(s, i + 1, false)
    } else if s[i] == '\\' {
        magic_from(s, i + 1, true)
    } else if s[i] == '*' || s[i] == '?' || s[i] == '[' {
        true
    } else {
        magic_from(s, i + 1, false)
    }
}

/// Does the operand hold an unescaped glob character (`*`, `?`, `[`)?
pub fn has_glob_magic(operand: &str) -> (r: bool)
    ensures
        r == magic_from(operand@, 0, false),
{
    let s = chars_of(operand);
    let mut escaped = false;
    let mut i: usize = 0;
    while i < s.len()
        invariant
            i <= s.len(),
            s@ == operand@,
            magic_from(s@, 0, false) == magic_from(s@, i as int, escaped),
        decreases s.len() - i,
    {
        let ch = s[i];
        if escaped {
            escaped = false;
        } else if ch == '\\' {
            escaped = true;
        } else if ch == '*' || ch == '?' || ch == '[' {
            return true;
        }
        i += 1;
    }
    false
}

/// How many backslashes stand directly before position `i`.
pub open spec fn backslashes_before(s: Seq<char>, i: int) -> nat
    decreases i,
{
    if i <= 0 || i > s.len() || s[i - 1] != '\\' {
        0
    } else {
        1 + backslashes_before(s, i - 1)
    }
}

/// Position `i` holds `*`, `?` or `[` after an even run of backslashes, so
/// nothing escapes it.
pub open spec fn unescaped_glob_at(s: Seq<char>, i: int) -> bool {
    &&& 0 <= i < s.len()
    &&& (s[i] == '*' || s[i] == '?' || s[i] == '[')
    &&& backslashes_before(s, i) % 2 == 0
}

proof fn lemma_magic_prefix(s: Seq<char>, i: int)
    requires
        0 <= i <= s.len(),
    ensures
        magic_from(s, 0, false) == ((exists|j: int| 0 <= j < i && #[trigger] unescaped_glob_at(s, j))
            || magic_from(s, i, backslashes_before(s, i) % 2 == 1)),
    decreases i,
{
    if i > 0 {
        let k = i - 1;
        lemma_magic_prefix(s, k);
        let e = backslashes_before(s, k) % 2 == 1;
        assert(backslashes_before(s, i) == if s[k] == '\\' { 1 + backslashes_before(s, k) } else { 0 });
        if e {
            assert(backslashes_before(s, k) > 0);
            assert(!unescaped_glob_at(s, k));
        }
        if unescaped_glob_at(s, k) {
            assert(magic_from(s, k, e));
        }
        if (exists|j: int| 0 <= j < i && #[trigger] unescaped_glob_at(s, j)) && !unescaped_glob_at(s, k) {
            let j = choose|j: int| 0 <= j < i && #[trigger] unescaped_glob_at(s, j);
            assert(j < k);
        }
    }
}

/// An operand holds glob magic exactly where some `*`, `?` or `[` follows an
/// even run of backslashes; nothing else (`{` in particular) is magic.
pub proof fn lemma_glob_magic_closed_form(s: Seq<char>)
    ensures
        magic_from(s, 0, false) == exists|i: int| #[trigger] unescaped_glob_at(s, i),
{
    lemma_magic_prefix(s, s.len() as int);
    if exists|i: int| #[trigger] unescaped_glob_at(s, i) {
        let i = choose|i: int| #[trigger] unescaped_glob_at(s, i);
        assert(0 <= i < s.len());
    }
}

/// `PathBuf::pop`: drop the last normal component.
pub open spec fn popped(ps: Seq<PathPart>) -> Seq<PathPart> {
    if ps.len() > 0 && ps.last() is Normal { ps.drop_last() } else { ps }
}

/// Lexical normalization of the first `i` components: `.` skipped, `..`
/// pops, everything else kept.
pub open spec fn lexical_parts(ps: Seq<PathPart>, i: int) -> Seq<PathPart>
    decreases i,
{
    if i <= 0 || i > ps.len() {
        Seq::empty()
    } else {
        let acc = lexical_parts(ps, i - 1);
        match ps[i - 1] {
            PathPart::CurDir => acc,
            PathPart::ParentDir => popped(acc),
            p => acc.push(p),
        }
    }
}

pub open spec fn is_absolute_parts(ps: Seq<PathPart>) -> bool {
    ps.len() > 0 && (ps[0] is RootDir || ps[0] is Prefix)
}

/// `cwd` joined with `path` (or `path` alone when absolute), normalized.
pub open spec fn lexical_absolute_spec(cwd: Seq<PathPart>, path: Seq<PathPart>) -> Seq<PathPart> {
    let joined = if is_absolute_parts(path) { path } else { cwd + path };
    lexical_parts(joined, joined.len() as int)
}

/// Resolve `path` against `cwd` lexically (no file system access).
pub fn lexical_absolute(cwd: &Vec<PathPart>, path: &Vec<PathPart>) -> (r: Vec<PathPart>)
    ensures
        r@ == lexical_absolute_spec(cwd@, path@),
{
    let absolute = path.len() > 0 && match &path[0] {
        PathPart::RootDir | PathPart::Prefix(_) => true,
        _ => false,
    };
    let mut joined: Vec<PathPart> = Vec::new();
    if !absolute {
        let mut k: usize = 0;
        while k < cwd.len()
            invariant
                k <= cwd.len(),
                joined@ == cwd@.take(k as int),
            decreases cwd.len() - k,
        {
            joined.push(copy_part(&cwd[k]));
            assert(joined@ =~= cwd@.take(k + 1));
            k += 1;
        }
    }
    let ghost base = joined@;
    assert(base == (if is_absolute_parts(path@) { Seq::<PathPart>::empty() } else { cwd@ }));
    let mut k: usize = 0;
    assert(joined@ =~= base + path@.take(0));
    while k < path.len()
        invariant
            k <= path.len(),
            joined@ == base + path@.take(k as int),
        decreases path.len() - k,
    {
        joined.push(copy_part(&path[k]));
        assert(joined@ =~= base + path@.take(k + 1));
        k += 1;
    }
    let mut out: Vec<PathPart> = Vec::new();
    let mut i: usize = 0;
    while i < joined.len()
        invariant
            i <= joined.len(),
            out@ == lexical_parts(joined@, i as int),
            joined@ == (if is_absolute_parts(path@) { path@ } else { cwd@ + path@ }),
        decreases joined.len() - i,
    {
        match &joined[i] {
            PathPart::CurDir => {},
            PathPart::ParentDir => {
                if out.len() > 0 {
                    let last_normal = match &out[out.len() - 1] {
                        PathPart::Normal(_) => true,
                        _ => false,
                    };
                    if last_normal {
                        out.pop();
                    }
                }
            },
            p => {
                out.push(copy_part(p));
            },
        }
        assert(out@ =~= lexical_parts(joined@, i + 1));
        i += 1;
    }
    out
}


/// The text of a component.
pub open spec fn part_text(p: PathPart) -> Seq<char> {
    match p {
        PathPart::Prefix(s) => s@,
        PathPart::RootDir => seq!['/'],
        PathPart::CurDir => seq!['.'],
        PathPart::ParentDir => seq!['.', '.'],
        PathPart::Normal(s) => s@,
    }
}

/// The text of the first `i` components, `/`-separated (the root is its own separator).
pub open spec fn rendered(ps: Seq<PathPart>, i: int) -> Seq<char>
    decreases i,
{
    if i <= 0 || i > ps.len() {
        Seq::empty()
    } else {
        let acc = rendered(ps, i - 1);
        if ps[i - 1] is RootDir || i == 1 || ps[i - 2] is RootDir {
            acc + part_text(ps[i - 1])
        } else {
            acc + seq!['/'] + part_text(ps[i - 1])
        }
    }
}

pub open spec fn part_eq(a: PathPart, b: PathPart) -> bool {
    match (a, b) {
        (PathPart::Prefix(x), PathPart::Prefix(y)) => x@ == y@,
        (PathPart::RootDir, PathPart::RootDir) => true,
        (PathPart::CurDir, PathPart::CurDir) => true,
        (PathPart::ParentDir, PathPart::ParentDir) => true,
        (PathPart::Normal(x), PathPart::Normal(y)) => x@ == y@,
        _ => false,
    }
}

/// `base` is a component-wise prefix of `path` (`Path::strip_prefix` succeeds).
pub open spec fn parts_prefix(base: Seq<PathPart>, path: Seq<PathPart>) -> bool {
    base.len() <= path.len() && forall|k: int| 0 <= k < base.len() ==> part_eq(#[trigger] base[k], path[k])
}

/// The path relative to `cwd` when under it (else the whole path), with `/` separators.
pub open spec fn matching_path_spec(path: Seq<PathPart>, cwd: Seq<PathPart>) -> Seq<char> {
    let rel = if parts_prefix(cwd, path) { path.skip(cwd.len() as int) } else { path };
    slashes(rendered(rel, rel.len() as int))
}

fn part_text_exec(p: &PathPart) -> (r: Vec<char>)
    ensures
        r@ == part_text(*p),
{
    match p {
        PathPart::Prefix(s) => chars_of(s.as_str()),
        PathPart::RootDir => {
            let v: Vec<char> = vec!['/'];
            assert(v@ =~= seq!['/']);
            v
        },
        PathPart::CurDir => {
            let v: Vec<char> = vec!['.'];
            assert(v@ =~= seq!['.']);
            v
        },
        PathPart::ParentDir => {
            let v: Vec<char> = vec!['.', '.'];
            assert(v@ =~= seq!['.', '.']);
            v
        },
        PathPart::Normal(s) => chars_of(s.as_str()),
    }
}

fn is_root(p: &PathPart) -> (r: bool)
    ensures
        r == (*p is RootDir),
{
    match p {
        PathPart::RootDir => true,
        _ => false,
    }
}

/// The text of components `from..`, `/`-separated.
fn render_from(ps: &Vec<PathPart>, from: usize) -> (r: Vec<char>)
    requires
        from <= ps.len(),
    ensures
        r@ == rendered(ps@.skip(from as int), ps@.len() - from),
{
    let ghost q = ps@.skip(from as int);
    let mut out: Vec<char> = Vec::new();
    let mut i: usize = from;
    while i < ps.len()
        invariant
            from <= i <= ps.len(),
            q == ps@.skip(from as int),
            out@ == rendered(q, i - from),
        decreases ps.len() - i,
    {
        let t = part_text_exec(&ps[i]);
        assert(q[i - from] == ps@[i as int]);
        if i > from {
            assert(q[i - from - 1] == ps@[i - 1]);
        }
        if is_root(&ps[i]) || i == from || is_root(&ps[i - 1]) {
            push_all(&mut out, &t);
        } else {
            out.push('/');
            push_all(&mut out, &t);
        }
        assert(out@ =~= rendered(q, i + 1 - from));
        i += 1;
    }
    out
}

fn part_eq_exec(a: &PathPart, b: &PathPart) -> (r: bool)
    ensures
        r == part_eq(*a, *b),
{
    match (a, b) {
        (PathPart::Prefix(x), PathPart::Prefix(y)) => crate::html_formatter::seq_eq(&chars_of(x.as_str()), &chars_of(y.as_str())),
        (PathPart::RootDir, PathPart::RootDir) => true,
        (PathPart::CurDir, PathPart::CurDir) => true,
        (PathPart::ParentDir, PathPart::ParentDir) => true,
        (PathPart::Normal(x), PathPart::Normal(y)) => crate::html_formatter::seq_eq(&chars_of(x.as_str()), &chars_of(y.as_str())),
        _ => false,
    }
}

fn parts_prefix_exec(base: &Vec<PathPart>, path: &Vec<PathPart>) -> (r: bool)
    ensures
        r == parts_prefix(base@, path@),
{
    if base.len() > path.len() {
        return false;
    }
    let mut k: usize = 0;
    while k < base.len()
        invariant
            k <= base.len() <= path.len(),
            forall|j: int| 0 <= j < k ==> part_eq(#[trigger] base@[j], path@[j]),
        decreases base.len() - k,
    {
        if !part_eq_exec(&base[k], &path[k]) {
            return false;
        }
        k += 1;
    }
    true
}

/// The path used for matching: relative to `cwd` when under it, `/`-separated.
pub fn matching_path(path: &Vec<PathPart>, cwd: &Vec<PathPart>) -> (r: String)
    ensures
        r@ == matching_path_spec(path@, cwd@),
{
    let from = if parts_prefix_exec(cwd, path) { cwd.len() } else { 0 };
    assert(path@.skip(0) =~= path@);
    let t = render_from(path, from);
    let n = slashes_exec(&t);
    string_of(&n)
}

/// Is a glob pattern inside the working directory: an absolute pattern
/// equal to or under `cwd_text`, a relative one without `..` components?
pub open spec fn within_cwd(pattern: Seq<char>, parts: Seq<PathPart>, cwd_text: Seq<char>) -> bool {
    if is_absolute_parts(parts) {
        let c = slashes(cwd_text);
        pattern == c || starts_with(pattern, c + seq!['/'])
    } else {
        !(exists|k: int| 0 <= k < parts.len() && (#[trigger] parts[k]) is ParentDir)
    }
}

/// Whether a glob operand stays within the working directory (`parts` are
/// the operand's components, `cwd_text` the working directory's text).
pub fn pattern_is_within_cwd(pattern: &str, parts: &Vec<PathPart>, cwd_text: &str) -> (r: bool)
    ensures
        r == within_cwd(pattern@, parts@, cwd_text@),
{
    let absolute = parts.len() > 0 && match &parts[0] {
        PathPart::RootDir | PathPart::Prefix(_) => true,
        _ => false,
    };
    assert(absolute == is_absolute_parts(parts@));
    if absolute {
        let c = slashes_exec(&chars_of(cwd_text));
        let p = chars_of(pattern);
        let mut cs = slice_vec(&c, 0, c.len());
        assert(cs@ =~= c@);
        cs.push('/');
        assert(cs@ =~= c@ + seq!['/']);
        assert(is_absolute_parts(parts@));
        return crate::html_formatter::seq_eq(&p, &c) || starts_with_vec(&p, &cs);
    }
    let mut k: usize = 0;
    while k < parts.len()
        invariant
            k <= parts.len(),
            !is_absolute_parts(parts@),
            forall|j: int| 0 <= j < k ==> !((#[trigger] parts@[j]) is ParentDir),
        decreases parts.len() - k,
    {
        let parent = match &parts[k] {
            PathPart::ParentDir => true,
            _ => false,
        };
        if parent {
            assert(parts@[k as int] is ParentDir);
            return false;
        }
        k += 1;
    }
    true
}

// ---------------------------------------------------------------------------
// Ignore patterns
// ---------------------------------------------------------------------------

/// Whether the glob pattern `pattern`, compiled by `glob::Pattern::new`,
/// matches `path` by `Pattern::matches`; `false` where it does not compile.
pub uninterp spec fn glob_match_of(pattern: Seq<char>, path: Seq<char>) -> bool;

/// Compile `pattern` with `glob::Pattern::new` and match `path` with
/// `Pattern::matches` (default options); a pattern that does not compile
/// matches nothing. The result is named, not stated.
#[verifier::external_body]
fn glob_matches(pattern: &str, path: &str) -> (r: bool)
    ensures
        r == glob_match_of(pattern@, path@),
{
    match glob::Pattern::new(pattern) {
        Ok(compiled) => compiled.matches(path),
        Err(_) => false,
    }
}

/// Does some pattern match the path?
pub open spec fn ignored_by(path: Seq<char>, patterns: Seq<String>) -> bool {
    exists|i: int| 0 <= i < patterns.len() && glob_match_of(#[trigger] patterns[i]@, path)
}

/// Whether a normalized path matches any of the ignore patterns (patterns
/// that do not compile are skipped).
pub fn is_ignored(normalized_path: &str, patterns: &Vec<String>) -> (r: bool)
    ensures
        r == ignored_by(normalized_path@, patterns@),
{
    let mut i: usize = 0;
    while i < patterns.len()
        invariant
            i <= patterns.len(),
            forall|j: int| 0 <= j < i ==> !glob_match_of(#[trigger] patterns@[j]@, normalized_path@),
        decreases patterns.len() - i,
    {
        if glob_matches(patterns[i].as_str(), normalized_path) {
            return true;
        }
        i += 1;
    }
    false
}

/// The first pattern from `i` on that matches: an absolute pattern (flag set)
/// against `absolute`, a relative one against `relative`.
pub open spec fn first_match_from(patterns: Seq<(String, bool)>, relative: Seq<char>, absolute: Seq<char>, i: int) -> Option<int>
    decreases patterns.len() - i,
{
    if i < 0 || i >= patterns.len() {
        None
    } else if glob_match_of(patterns[i].0@, if patterns[i].1 { absolute } else { relative }) {
        Some(i)
    } else {
        first_match_from(patterns, relative, absolute, i + 1)
    }
}

/// The index of the first glob operand (with its absoluteness) that matches
/// a walked file.
pub fn matching_pattern(patterns: &Vec<(String, bool)>, relative: &str, absolute: &str) -> (r: Option<usize>)
    ensures
        match first_match_from(patterns@, relative@, absolute@, 0) {
            Some(i) => r == Some(i as usize),
            None => r is None,
        },
{
    let mut i: usize = 0;
    while i < patterns.len()
        invariant
            i <= patterns.len(),
            first_match_from(patterns@, relative@, absolute@, 0) == first_match_from(patterns@, relative@, absolute@, i as int),
        decreases patterns.len() - i,
    {
        let target = if patterns[i].1 { absolute } else { relative };
        if glob_matches(patterns[i].0.as_str(), target) {
            return Some(i);
        }
        i += 1;
    }
    None
}

/// Lexical normalization leaves no `.` or `..` component.
pub proof fn lemma_lexical_parts_clean(ps: Seq<PathPart>, i: int)
    ensures
        forall|k: int| 0 <= k < lexical_parts(ps, i).len() ==> !((#[trigger] lexical_parts(ps, i)[k]) is CurDir)
            && !(lexical_parts(ps, i)[k] is ParentDir),
    decreases i,
{
    if i > 0 && i <= ps.len() {
        lemma_lexical_parts_clean(ps, i - 1);
        let acc = lexical_parts(ps, i - 1);
        let r = lexical_parts(ps, i);
        match ps[i - 1] {
            PathPart::CurDir => {},
            PathPart::ParentDir => {
                assert forall|k: int| 0 <= k < r.len() implies !((#[trigger] r[k]) is CurDir) && !(r[k] is ParentDir) by {
                    assert(r[k] == acc[k]);
                }
            },
            p => {
                assert forall|k: int| 0 <= k < r.len() implies !((#[trigger] r[k]) is CurDir) && !(r[k] is ParentDir) by {
                    if k < acc.len() {
                        assert(r[k] == acc[k]);
                    }
                }
            },
        }
    }
}

/// A path resolved against the working directory holds no `.` or `..`
/// component.
pub proof fn lemma_lexical_absolute_clean(cwd: Seq<PathPart>, path: Seq<PathPart>)
    ensures
        forall|k: int| 0 <= k < lexical_absolute_spec(cwd, path).len() ==> !((#[trigger] lexical_absolute_spec(cwd, path)[k]) is CurDir)
            && !(lexical_absolute_spec(cwd, path)[k] is ParentDir),
{
    let joined = if is_absolute_parts(path) { path } else { cwd + path };
    lemma_lexical_parts_clean(joined, joined.len() as int);
}

} // verus!
