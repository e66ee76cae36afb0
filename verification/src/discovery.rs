//! Decisions of file discovery: what an operand is, whether ignore-file
//! matchers exclude a path, and what to say when nothing is left.
use vstd::prelude::*;
use crate::text::{chars_of, string_of, push_all, split_on, split_on_vec, trim, trim_vec, lv, sv};
use crate::paths::{normalize_operand, normalized_operand, has_glob_magic, magic_from, is_ignored, ignored_by};

verus! {

/// What the file system says about an operand's resolved path.
pub enum OperandStat {
    File,
    Dir,
    /// It exists but is neither a file nor a directory.
    Other,
    Missing,
    /// Another error, with its message.
    Failed(String),
}

/// What an operand turns out to be.
#[derive(Debug)]
pub enum Operand {
    /// An existing file, formatted as named.
    Explicit,
    /// A glob pattern (the normalized operand).
    Pattern(String),
    /// A diagnostic for the operand.
    Error(String),
}

/// The text without its trailing `/` and `\` characters.
pub open spec fn trim_trailing_separators(s: Seq<char>) -> Seq<char>
    decreases s.len(),
{
    if s.len() > 0 && (s.last() == '/' || s.last() == '\\') {
        trim_trailing_separators(s.drop_last())
    } else {
        s
    }
}

pub open spec fn no_such_file(original: Seq<char>) -> Seq<char> {
    original + ": no such file"@
}

pub open spec fn is_a_directory(original: Seq<char>) -> Seq<char> {
    original + ": is a directory (pass a glob such as '"@ + trim_trailing_separators(original)
        + "/**/*.md' to format its contents)"@
}

pub open spec fn failed_with(original: Seq<char>, msg: Seq<char>) -> Seq<char> {
    original + ": "@ + msg
}

fn trim_trailing_separators_exec(s: &[char]) -> (r: Vec<char>)
    ensures
        r@ == trim_trailing_separators(s@),
{
    let mut n = s.len();
    assert(s@.take(n as int) =~= s@);
    while n > 0 && (s[n - 1] == '/' || s[n - 1] == '\\')
        invariant
            n <= s.len(),
            trim_trailing_separators(s@) == trim_trailing_separators(s@.take(n as int)),
        decreases n,
    {
        assert(s@.take(n as int).drop_last() =~= s@.take(n - 1));
        n -= 1;
    }
    let r = crate::text::slice_vec(s, 0, n);
    assert(r@ =~= s@.take(n as int));
    r
}

/// What an operand is, given what the file system says about it: a file is
/// formatted as named; a directory or another kind of entry is an error; a
/// missing path is a glob pattern when it holds an unescaped glob character
/// (`*`, `?`, `[`), else an error; another failure is reported with its
/// message.
pub fn classify_operand(original: &str, stat: &OperandStat) -> (r: Operand)
    ensures
        match *stat {
            OperandStat::File => r is Explicit,
            OperandStat::Dir => r matches Operand::Error(m) && m@ == is_a_directory(original@),
            OperandStat::Other => r matches Operand::Error(m) && m@ == no_such_file(original@),
            OperandStat::Missing => if magic_from(normalized_operand(original@), 0, false) {
                r matches Operand::Pattern(p) && p@ == normalized_operand(original@)
            } else {
                r matches Operand::Error(m) && m@ == no_such_file(original@)
            },
            OperandStat::Failed(msg) => r matches Operand::Error(m) && m@ == failed_with(original@, msg@),
        },
{
    match stat {
        OperandStat::File => Operand::Explicit,
        OperandStat::Dir => {
            let o = chars_of(original);
            let mut v = crate::text::slice_vec(&o, 0, o.len());
            assert(v@ =~= o@);
            proof {
                reveal_strlit(": is a directory (pass a glob such as '");
                reveal_strlit("/**/*.md' to format its contents)");
            }
            let head = chars_of(": is a directory (pass a glob such as '");
            push_all(&mut v, &head);
            let t = trim_trailing_separators_exec(&o);
            push_all(&mut v, &t);
            let tail = chars_of("/**/*.md' to format its contents)");
            push_all(&mut v, &tail);
            assert(v@ =~= is_a_directory(original@));
            Operand::Error(string_of(&v))
        },
        OperandStat::Other => Operand::Error(no_such_file_exec(original)),
        OperandStat::Missing => {
            let normalized = normalize_operand(original);
            if has_glob_magic(normalized.as_str()) {
                Operand::Pattern(normalized)
            } else {
                Operand::Error(no_such_file_exec(original))
            }
        },
        OperandStat::Failed(msg) => {
            let mut v = chars_of(original);
            proof {
                reveal_strlit(": ");
            }
            let sep = chars_of(": ");
            push_all(&mut v, &sep);
            let m = chars_of(msg.as_str());
            push_all(&mut v, &m);
            assert(v@ =~= failed_with(original@, msg@));
            Operand::Error(string_of(&v))
        },
    }
}

fn no_such_file_exec(original: &str) -> (r: String)
    ensures
        r@ == no_such_file(original@),
{
    let mut v = chars_of(original);
    proof {
        reveal_strlit(": no such file");
    }
    let tail = chars_of(": no such file");
    push_all(&mut v, &tail);
    assert(v@ =~= no_such_file(original@));
    string_of(&v)
}

/// How one ignore-file matcher judged a path.
#[derive(Clone, Copy, PartialEq, Eq, Structural)]
pub enum IgnoreMatch {
    /// No rule of the matcher applies (or the path is outside its directory).
    Unmatched,
    Ignore,
    Whitelist,
}

/// The verdict of matchers applied in order: the last one that matched
/// decides; a path no matcher matched is kept.
pub open spec fn ignored_verdict(ms: Seq<IgnoreMatch>) -> bool
    decreases ms.len(),
{
    if ms.len() == 0 {
        false
    } else {
        match ms.last() {
            IgnoreMatch::Ignore => true,
            IgnoreMatch::Whitelist => false,
            IgnoreMatch::Unmatched => ignored_verdict(ms.drop_last()),
        }
    }
}

/// Whether matchers applied in order exclude a path.
pub fn ignored_by_matches(ms: &Vec<IgnoreMatch>) -> (r: bool)
    ensures
        r == ignored_verdict(ms@),
{
    let mut ignored = false;
    let mut i: usize = 0;
    while i < ms.len()
        invariant
            i <= ms.len(),
            ignored == ignored_verdict(ms@.take(i as int)),
        decreases ms.len() - i,
    {
        assert(ms@.take(i + 1).drop_last() =~= ms@.take(i as int));
        match ms[i] {
            IgnoreMatch::Ignore => ignored = true,
            IgnoreMatch::Whitelist => ignored = false,
            IgnoreMatch::Unmatched => {},
        }
        i += 1;
    }
    assert(ms@.take(ms.len() as int) =~= ms@);
    ignored
}

/// Whether a file named explicitly on the command line is filtered out: the
/// `--ignore` patterns and the ignore files apply to it (`file_matches` holds
/// each ignore file's verdict, in order); the configuration's `exclude` list
/// does not.
pub fn explicit_filtered(normalized: &str, cli_ignores: &Vec<String>, file_matches: &Vec<IgnoreMatch>) -> (r: bool)
    ensures
        r == (ignored_by(normalized@, cli_ignores@) || ignored_verdict(file_matches@)),
{
    let by_cli = is_ignored(normalized, cli_ignores);
    let by_files = ignored_by_matches(file_matches);
    by_cli || by_files
}

/// Whether a file found by a pattern is filtered out: the `--ignore`
/// patterns, the configuration's `exclude` list and the ignore files all
/// apply.
pub fn matched_filtered(
    normalized: &str,
    cli_ignores: &Vec<String>,
    config_excludes: &Vec<String>,
    file_matches: &Vec<IgnoreMatch>,
) -> (r: bool)
    ensures
        r == (ignored_by(normalized@, cli_ignores@) || ignored_by(normalized@, config_excludes@)
            || ignored_verdict(file_matches@)),
{
    let by_cli = is_ignored(normalized, cli_ignores);
    let by_config = is_ignored(normalized, config_excludes);
    let by_files = ignored_by_matches(file_matches);
    by_cli || by_config || by_files
}

/// The message when no file is left to process.
pub open spec fn nothing_to_do_message(had_matches: bool, had_filtered_matches: bool) -> Seq<char> {
    if had_matches && had_filtered_matches {
        "All matching files were excluded by ignore/exclude patterns — 0 files to process."@
    } else {
        "No files found matching the patterns."@
    }
}

/// The message when no file is left to process: everything matched was
/// filtered out, or nothing matched.
pub fn nothing_to_do(had_matches: bool, had_filtered_matches: bool) -> (r: &'static str)
    ensures
        r@ == nothing_to_do_message(had_matches, had_filtered_matches),
{
    proof {
        reveal_strlit("All matching files were excluded by ignore/exclude patterns — 0 files to process.");
        reveal_strlit("No files found matching the patterns.");
    }
    if had_matches && had_filtered_matches {
        "All matching files were excluded by ignore/exclude patterns — 0 files to process."
    } else {
        "No files found matching the patterns."
    }
}

/// The entries of a comma-separated list, each trimmed.
pub open spec fn comma_list(s: Seq<char>) -> Seq<Seq<char>> {
    split_on(s, ',').map_values(|p: Seq<char>| trim(p))
}

/// The patterns of a comma-separated `--ignore` value, each trimmed.
pub fn ignore_list(option: &str) -> (r: Vec<String>)
    ensures
        sv(r@) == comma_list(option@),
{
    let c = chars_of(option);
    let parts = split_on_vec(&c, ',');
    let mut out: Vec<String> = Vec::new();
    let mut i: usize = 0;
    while i < parts.len()
        invariant
            i <= parts.len(),
            lv(parts@) == split_on(option@, ','),
            sv(out@) == comma_list(option@).take(i as int),
        decreases parts.len() - i,
    {
        let t = trim_vec(&parts[i]);
        let ghost prev = out@;
        out.push(string_of(&t));
        assert(lv(parts@)[i as int] == parts@[i as int]@);
        assert(sv(out@) =~= sv(prev).push(t@));
        assert(comma_list(option@).take(i + 1) =~= comma_list(option@).take(i as int).push(t@));
        i += 1;
    }
    assert(comma_list(option@).take(parts.len() as int) =~= comma_list(option@));
    out
}

// ---------------------------------------------------------------------------
// The list of files to process
// ---------------------------------------------------------------------------

/// The files found so far (each under a key, its resolved path's text, with
/// the name shown for it), and whether anything matched or was filtered out.
pub struct Discovery {
    keys: Vec<Vec<char>>,
    displays: Vec<String>,
    had_matches: bool,
    had_filtered_matches: bool,
}

/// The keys of a list of files.
pub open spec fn no_duplicates(keys: Seq<Seq<char>>) -> bool {
    forall|a: int, b: int| 0 <= a < b < keys.len() ==> keys[a] != keys[b]
}

impl Discovery {
    /// The keys of the files listed, in order.
    pub closed spec fn key_list(&self) -> Seq<Seq<char>> {
        lv(self.keys@)
    }

    /// The names shown for the files listed, in order.
    pub closed spec fn display_list(&self) -> Seq<Seq<char>> {
        sv(self.displays@)
    }

    pub closed spec fn matched(&self) -> bool {
        self.had_matches
    }

    pub closed spec fn filtered(&self) -> bool {
        self.had_filtered_matches
    }

    /// One name per key, and no key twice.
    pub closed spec fn wf(&self) -> bool {
        &&& self.keys@.len() == self.displays@.len()
        &&& no_duplicates(lv(self.keys@))
    }

    /// Nothing found yet.
    pub fn new() -> (r: Discovery)
        ensures
            r.wf(),
            r.key_list().len() == 0,
            r.display_list().len() == 0,
            !r.matched(),
            !r.filtered(),
    {
        let r = Discovery { keys: Vec::new(), displays: Vec::new(), had_matches: false, had_filtered_matches: false };
        assert(lv(r.keys@) =~= Seq::<Seq<char>>::empty());
        assert(sv(r.displays@) =~= Seq::<Seq<char>>::empty());
        r
    }

    fn listed(&self, key: &[char]) -> (r: bool)
        requires
            self.wf(),
        ensures
            r == self.key_list().contains(key@),
    {
        let mut i: usize = 0;
        while i < self.keys.len()
            invariant
                i <= self.keys.len(),
                forall|j: int| 0 <= j < i ==> lv(self.keys@)[j] != key@,
            decreases self.keys.len() - i,
        {
            if crate::html_formatter::seq_eq(&self.keys[i], key) {
                assert(lv(self.keys@)[i as int] == key@);
                return true;
            }
            i += 1;
        }
        false
    }

    fn push_file(&mut self, key: Vec<char>, display: String)
        requires
            old(self).wf(),
            !old(self).key_list().contains(key@),
        ensures
            final(self).wf(),
            final(self).key_list() == old(self).key_list().push(key@),
            final(self).display_list() == old(self).display_list().push(display@),
            final(self).matched() == old(self).matched(),
            final(self).filtered() == old(self).filtered(),
    {
        let ghost k0 = lv(self.keys@);
        let ghost d0 = sv(self.displays@);
        let ghost kv = key@;
        self.keys.push(key);
        self.displays.push(display);
        assert(lv(self.keys@) =~= k0.push(kv));
        assert(sv(self.displays@) =~= d0.push(display@));
        assert forall|a: int, b: int| 0 <= a < b < lv(self.keys@).len() implies lv(self.keys@)[a] != lv(self.keys@)[b] by {
            if b == k0.len() {
                assert(lv(self.keys@)[a] == k0[a]);
                assert(k0.contains(k0[a]));
            }
        }
    }

    /// An operand naming an existing file: it counts as a match; it is
    /// listed unless filtered out or already listed.
    pub fn add_explicit(&mut self, key: &str, display: String, filtered: bool) -> (listed: bool)
        requires
            old(self).wf(),
        ensures
            final(self).wf(),
            final(self).matched(),
            final(self).filtered() == (old(self).filtered() || filtered),
            listed == (!filtered && !old(self).key_list().contains(key@)),
            listed ==> final(self).key_list() == old(self).key_list().push(key@)
                && final(self).display_list() == old(self).display_list().push(display@),
            !listed ==> final(self).key_list() == old(self).key_list()
                && final(self).display_list() == old(self).display_list(),
    {
        self.had_matches = true;
        if filtered {
            self.had_filtered_matches = true;
            return false;
        }
        let k = chars_of(key);
        if self.listed(&k) {
            return false;
        }
        self.push_file(k, display);
        true
    }

    /// A file a glob operand matched: it counts as a match; one already
    /// listed is skipped; otherwise it is listed unless filtered out.
    pub fn add_match(&mut self, key: &str, display: String, filtered: bool) -> (listed: bool)
        requires
            old(self).wf(),
        ensures
            final(self).wf(),
            final(self).matched(),
            final(self).filtered() == (old(self).filtered() || (filtered && !old(self).key_list().contains(key@))),
            listed == (!filtered && !old(self).key_list().contains(key@)),
            listed ==> final(self).key_list() == old(self).key_list().push(key@)
                && final(self).display_list() == old(self).display_list().push(display@),
            !listed ==> final(self).key_list() == old(self).key_list()
                && final(self).display_list() == old(self).display_list(),
    {
        self.had_matches = true;
        let k = chars_of(key);
        if self.listed(&k) {
            return false;
        }
        if filtered {
            self.had_filtered_matches = true;
            return false;
        }
        self.push_file(k, display);
        true
    }

    /// A file found only by the probe for files hidden by `.gitignore`: it
    /// counts as a match that was filtered out.
    pub fn note_hidden_match(&mut self)
        requires
            old(self).wf(),
        ensures
            final(self).wf(),
            final(self).matched(),
            final(self).filtered(),
            final(self).key_list() == old(self).key_list(),
            final(self).display_list() == old(self).display_list(),
    {
        self.had_matches = true;
        self.had_filtered_matches = true;
    }

    /// Did anything match?
    pub fn had_matches(&self) -> (r: bool)
        ensures
            r == self.matched(),
    {
        self.had_matches
    }

    /// Was a match filtered out?
    pub fn had_filtered_matches(&self) -> (r: bool)
        ensures
            r == self.filtered(),
    {
        self.had_filtered_matches
    }

    /// How many files are listed.
    pub fn len(&self) -> (r: usize)
        requires
            self.wf(),
        ensures
            r == self.key_list().len(),
    {
        self.keys.len()
    }

    /// The name shown for file `i`.
    pub fn display(&self, i: usize) -> (r: &String)
        requires
            self.wf(),
            i < self.key_list().len(),
        ensures
            r@ == self.display_list()[i as int],
    {
        &self.displays[i]
    }
}

/// The listed files never repeat a key.
pub proof fn lemma_discovery_lists_each_file_once(d: Discovery)
    requires
        d.wf(),
    ensures
        no_duplicates(d.key_list()),
{
}

} // verus!
