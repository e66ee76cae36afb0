//! Structured change descriptions that rules emit alongside their operations
//! (used for dry runs), and the sinks that receive them.
use vstd::prelude::*;
use crate::text::{sv, lv};

verus! {

/// One structured change description emitted by a formatter rule.
#[derive(Debug, Clone)]
pub struct ReportEntry {
    /// Stable kebab-case rule identifier.
    pub rule: &'static str,
    /// 0-indexed inclusive start line in the original source.
    pub start_line: usize,
    /// 0-indexed inclusive end line in the original source.
    pub end_line: usize,
    /// Verbatim source lines that would be replaced or indented.
    pub before: Vec<String>,
    /// Lines the rule would produce in place of `before`.
    pub after: Vec<String>,
}

/// An entry with its texts as character sequences.
pub struct EntryView {
    pub rule: Seq<char>,
    pub start_line: nat,
    pub end_line: nat,
    pub before: Seq<Seq<char>>,
    pub after: Seq<Seq<char>>,
}

pub open spec fn entry_view(e: ReportEntry) -> EntryView {
    EntryView {
        rule: e.rule@,
        start_line: e.start_line as nat,
        end_line: e.end_line as nat,
        before: sv(e.before@),
        after: sv(e.after@),
    }
}

pub open spec fn entry_views(es: Seq<ReportEntry>) -> Seq<EntryView> {
    es.map_values(|e: ReportEntry| entry_view(e))
}

pub fn push_entry(out: &mut Vec<ReportEntry>, e: ReportEntry)
    ensures
        entry_views(final(out)@) == entry_views(old(out)@).push(entry_view(e)),
{
    let ghost prev = out@;
    out.push(e);
    assert(entry_views(out@) =~= entry_views(prev).push(entry_view(e)));
}

/// Receiver of the entries the rules emit. `received` says how a sink's
/// state after taking one entry relates to its state before.
pub trait ReportSink: Sized {
    spec fn received(before: Self, entry: ReportEntry, after: Self) -> bool;

    fn emit(&mut self, entry: ReportEntry)
        ensures
            Self::received(*old(self), entry, *final(self)),
    ;
}

/// Sink that drops every entry; used for regular formatting runs.
pub struct NullSink;

impl ReportSink for NullSink {
    open spec fn received(before: Self, entry: ReportEntry, after: Self) -> bool {
        after == before
    }

    fn emit(&mut self, entry: ReportEntry) {
    }
}

/// The sink's state `after` follows from `before` by receiving `entries`
/// in order.
pub open spec fn received_all<S: ReportSink>(before: S, entries: Seq<ReportEntry>, after: S) -> bool
    decreases entries.len(),
{
    if entries.len() == 0 {
        after == before
    } else {
        exists|mid: S| received_all(before, entries.drop_last(), mid) && #[trigger] S::received(mid, entries.last(), after)
    }
}

/// Receiving one more entry extends a run of receptions.
pub proof fn lemma_received_step<S: ReportSink>(a: S, es: Seq<ReportEntry>, mid: S, e: ReportEntry, b: S)
    requires
        received_all(a, es, mid),
        S::received(mid, e, b),
    ensures
        received_all(a, es.push(e), b),
{
    let t = es.push(e);
    assert(t.drop_last() =~= es);
    assert(S::received(mid, t.last(), b));
}

/// Sink that collects every entry, in emission order.
#[derive(Debug)]
pub struct VecSink {
    pub entries: Vec<ReportEntry>,
}

impl VecSink {
    pub fn new() -> (r: VecSink)
        ensures
            r.entries@.len() == 0,
    {
        VecSink { entries: Vec::new() }
    }
}

impl Default for VecSink {
    fn default() -> (r: VecSink)
        ensures
            r.entries@.len() == 0,
    {
        VecSink { entries: Vec::new() }
    }
}

impl ReportSink for VecSink {
    open spec fn received(before: Self, entry: ReportEntry, after: Self) -> bool {
        after.entries@ == before.entries@.push(entry)
    }

    fn emit(&mut self, entry: ReportEntry)
        ensures
            final(self).entries@ == old(self).entries@.push(entry),
    {
        self.entries.push(entry);
    }
}

/// The lines `s..=e` of the source (clamped to the last line), as the
/// `before` part of a report entry.
pub open spec fn snippet(ls: Seq<Seq<char>>, s: nat, e: nat) -> Seq<Seq<char>> {
    let last = if ls.len() == 0 { 0 } else { ls.len() - 1 };
    let end = if e < last { e } else { last as nat };
    if s > end {
        Seq::empty()
    } else {
        Seq::new((end + 1 - s) as nat, |k: int| if s + k < ls.len() { ls[s + k] } else { Seq::empty() })
    }
}

/// Copy the lines `s..=e` (clamped) out of the source.
pub fn snippet_from_lines(ls: &Vec<Vec<char>>, s: usize, e: usize) -> (r: Vec<String>)
    ensures
        sv(r@) == snippet(lv(ls@), s as nat, e as nat),
{
    let last = if ls.len() == 0 { 0 } else { ls.len() - 1 };
    let end = if e < last { e } else { last };
    let mut out: Vec<String> = Vec::new();
    if s > end {
        assert(sv(out@) =~= snippet(lv(ls@), s as nat, e as nat));
        return out;
    }
    let mut i = s;
    while i <= end
        invariant
            s <= i <= end + 1,
            end <= last,
            last == if ls.len() == 0 { 0 } else { ls.len() - 1 },
            sv(out@) =~= Seq::new((i - s) as nat, |k: int| if s + k < ls.len() { lv(ls@)[s + k] } else { Seq::<char>::empty() }),
        decreases end + 1 - i,
    {
        let line = if i < ls.len() { crate::text::string_of(&ls[i]) } else { String::new() };
        let ghost prev = out@;
        out.push(line);
        assert(sv(out@) =~= sv(prev).push(line@));
        i += 1;
    }
    assert(sv(out@) =~= snippet(lv(ls@), s as nat, e as nat));
    out
}


// ---------------------------------------------------------------------------
// Dry-run text
// ---------------------------------------------------------------------------

pub open spec fn marked(prefix: char, l: Seq<char>) -> Seq<char> {
    seq![' ', ' ', prefix, ' '] + l
}

/// Up to three lines of a snippet, each as `  <prefix> <line>`, then
/// `  <prefix> …` when more were cut; `  <prefix> (deleted)` when empty.
pub open spec fn snippet_text(sn: Seq<Seq<char>>, prefix: char) -> Seq<Seq<char>> {
    if sn.len() == 0 {
        seq![marked(prefix, "(deleted)"@)]
    } else {
        let shown = if sn.len() < 3 { sn } else { sn.take(3) };
        shown.map_values(|l: Seq<char>| marked(prefix, l)) + if sn.len() > 3 {
            seq![marked(prefix, seq!['…'])]
        } else {
            Seq::empty()
        }
    }
}

/// `<path>:<start>-<end> [<rule>]` with 1-based lines, then the before
/// (`-`) and after (`+`) snippets.
pub open spec fn entry_text(path: Seq<char>, e: EntryView) -> Seq<Seq<char>> {
    seq![path + seq![':'] + crate::types::decimal(e.start_line + 1) + seq!['-'] + crate::types::decimal(e.end_line + 1) + seq![' ', '['] + e.rule + seq![']']]
        + snippet_text(e.before, '-') + snippet_text(e.after, '+')
}

fn marked_exec(prefix: char, l: &[char]) -> (r: String)
    ensures
        r@ == marked(prefix, l@),
{
    let mut v: Vec<char> = vec![' ', ' ', prefix, ' '];
    crate::text::push_all(&mut v, l);
    assert(v@ =~= marked(prefix, l@));
    crate::text::string_of(&v)
}

/// The lines of a snippet in the dry-run report.
pub fn snippet_lines(sn: &Vec<String>, prefix: char) -> (r: Vec<String>)
    ensures
        sv(r@) == snippet_text(sv(sn@), prefix),
{
    let mut out: Vec<String> = Vec::new();
    if sn.len() == 0 {
        let none = "(deleted)";
        proof {
            reveal_strlit("(deleted)");
        }
        let c = crate::text::chars_of(none);
        out.push(marked_exec(prefix, &c));
        assert(sv(out@) =~= snippet_text(sv(sn@), prefix));
        return out;
    }
    let shown = if sn.len() < 3 { sn.len() } else { 3 };
    let ghost sh = if sn.len() < 3 { sv(sn@) } else { sv(sn@).take(3) };
    assert(sh =~= sv(sn@).take(shown as int));
    let mut k: usize = 0;
    while k < shown
        invariant
            k <= shown <= sn.len(),
            shown as int == sh.len(),
            sh == sv(sn@).take(shown as int),
            sv(out@) == sh.take(k as int).map_values(|l: Seq<char>| marked(prefix, l)),
        decreases shown - k,
    {
        let c = crate::text::chars_of(sn[k].as_str());
        let line = marked_exec(prefix, &c);
        let ghost prev = out@;
        out.push(line);
        assert(sv(out@) =~= sv(prev).push(line@));
        assert(sh.take(k + 1) =~= sh.take(k as int).push(sv(sn@)[k as int]));
        assert(sv(out@) =~= sh.take(k + 1).map_values(|l: Seq<char>| marked(prefix, l)));
        k += 1;
    }
    assert(sh.take(shown as int) =~= sh);
    if sn.len() > 3 {
        let ell: Vec<char> = vec!['…'];
        assert(ell@ =~= seq!['…']);
        let line = marked_exec(prefix, &ell);
        let ghost prev = out@;
        out.push(line);
        assert(sv(out@) =~= sv(prev).push(line@));
    }
    assert(sv(out@) =~= snippet_text(sv(sn@), prefix));
    out
}

fn push_strings(out: &mut Vec<String>, v: Vec<String>)
    ensures
        sv(final(out)@) == sv(old(out)@) + sv(v@),
{
    let ghost o0 = sv(out@);
    let mut k: usize = 0;
    while k < v.len()
        invariant
            k <= v.len(),
            sv(out@) == o0 + sv(v@).take(k as int),
        decreases v.len() - k,
    {
        let s = crate::ops::clone_string(&v[k]);
        let ghost prev = out@;
        out.push(s);
        assert(sv(out@) =~= sv(prev).push(s@));
        assert(sv(v@).take(k + 1) =~= sv(v@).take(k as int).push(v@[k as int]@));
        k += 1;
    }
    assert(sv(v@).take(v.len() as int) =~= sv(v@));
}

/// The dry-run report lines of one entry for the file `path`.
pub fn report_entry_lines(path: &str, e: &ReportEntry) -> (r: Vec<String>)
    requires
        e.start_line < usize::MAX,
        e.end_line < usize::MAX,
    ensures
        sv(r@) == entry_text(path@, entry_view(*e)),
{
    let mut head = crate::text::chars_of(path);
    head.push(':');
    let a = crate::types::decimal_vec(e.start_line + 1);
    crate::text::push_all(&mut head, &a);
    head.push('-');
    let b = crate::types::decimal_vec(e.end_line + 1);
    crate::text::push_all(&mut head, &b);
    head.push(' ');
    head.push('[');
    let rule = crate::text::chars_of(e.rule);
    crate::text::push_all(&mut head, &rule);
    head.push(']');
    let mut out: Vec<String> = Vec::new();
    let hs = crate::text::string_of(&head);
    out.push(hs);
    assert(sv(out@) =~= seq![head@]);
    push_strings(&mut out, snippet_lines(&e.before, '-'));
    push_strings(&mut out, snippet_lines(&e.after, '+'));
    assert(head@ =~= path@ + seq![':'] + crate::types::decimal((e.start_line + 1) as nat) + seq!['-'] + crate::types::decimal((e.end_line + 1) as nat) + seq![' ', '['] + e.rule@ + seq![']']);
    out
}

/// A snippet prints between one and four lines: at most three of its lines,
/// then a truncation marker only when lines were cut.
pub proof fn lemma_snippet_text_len(sn: Seq<Seq<char>>, prefix: char)
    ensures
        1 <= snippet_text(sn, prefix).len() <= 4,
        sn.len() <= 3 ==> snippet_text(sn, prefix).len() == (if sn.len() == 0 { 1 } else { sn.len() }),
        sn.len() > 3 ==> snippet_text(sn, prefix).len() == 4,
{
}

/// The closing line of a dry run: `\n<n> entr(y|ies) across <m> file(s)
/// (dry-run; no files were modified).`
pub open spec fn dry_run_summary_text(entries: nat, files: nat) -> Seq<char> {
    seq!['\n'] + crate::types::decimal(entries) + " entr"@ + (if entries == 1 { "y"@ } else { "ies"@ })
        + " across "@ + crate::types::decimal(files) + " file"@ + (if files == 1 { Seq::<char>::empty() } else { "s"@ })
        + " (dry-run; no files were modified)."@
}

/// The closing line of a dry run that reported `entries` entries over
/// `files` files.
pub fn dry_run_summary(entries: usize, files: usize) -> (r: String)
    ensures
        r@ == dry_run_summary_text(entries as nat, files as nat),
{
    proof {
        reveal_strlit(" entr");
        reveal_strlit("y");
        reveal_strlit("ies");
        reveal_strlit(" across ");
        reveal_strlit(" file");
        reveal_strlit("s");
        reveal_strlit(" (dry-run; no files were modified).");
    }
    let mut v: Vec<char> = vec!['\n'];
    crate::text::push_all(&mut v, &crate::types::decimal_vec(entries));
    crate::text::push_all(&mut v, &crate::text::chars_of(" entr"));
    if entries == 1 {
        crate::text::push_all(&mut v, &crate::text::chars_of("y"));
    } else {
        crate::text::push_all(&mut v, &crate::text::chars_of("ies"));
    }
    crate::text::push_all(&mut v, &crate::text::chars_of(" across "));
    crate::text::push_all(&mut v, &crate::types::decimal_vec(files));
    crate::text::push_all(&mut v, &crate::text::chars_of(" file"));
    if files != 1 {
        crate::text::push_all(&mut v, &crate::text::chars_of("s"));
    }
    crate::text::push_all(&mut v, &crate::text::chars_of(" (dry-run; no files were modified)."));
    assert(v@ =~= dry_run_summary_text(entries as nat, files as nat));
    crate::text::string_of(&v)
}

} // verus!
