//! Regular-expression scanning, through the `regex` crate.
use vstd::prelude::*;
use crate::text::{char_at_byte, char_index_of_byte, lemma_char_at_byte_bound, lemma_char_at_byte_zero, lemma_char_at_byte_mono, chars_of, string_of, slice_vec};

verus! {

/// One match of a scan: the text between the previous match (or the start)
/// and this match, and the capture groups (group 0 is the whole match).
pub struct RegexMatch {
    pub before: String,
    pub groups: Vec<Option<String>>,
}

/// All successive non-overlapping matches of a pattern in a text, and the
/// text after the last match.
pub struct RegexScan {
    pub matches: Vec<RegexMatch>,
    pub tail: String,
}

/// Plain view of one match.
pub type MatchView = (Seq<char>, Seq<Option<Seq<char>>>);

pub open spec fn opt_view(o: Option<String>) -> Option<Seq<char>> {
    match o {
        Some(s) => Some(s@),
        None => None,
    }
}

impl View for RegexMatch {
    type V = MatchView;

    open spec fn view(&self) -> MatchView {
        (self.before@, Seq::new(self.groups@.len(), |j: int| opt_view(self.groups@[j])))
    }
}

impl View for RegexScan {
    type V = (Seq<MatchView>, Seq<char>);

    open spec fn view(&self) -> (Seq<MatchView>, Seq<char>) {
        (Seq::new(self.matches@.len(), |i: int| self.matches@[i]@), self.tail@)
    }
}

/// The text a match covers (group 0), empty if absent.
pub open spec fn whole(m: MatchView) -> Seq<char> {
    if m.1.len() > 0 {
        match m.1[0] {
            Some(s) => s,
            None => Seq::empty(),
        }
    } else {
        Seq::empty()
    }
}

/// Capture group `k` of a match, empty if it did not participate.
pub open spec fn group(m: MatchView, k: int) -> Seq<char> {
    if 0 <= k < m.1.len() {
        match m.1[k] {
            Some(s) => s,
            None => Seq::empty(),
        }
    } else {
        Seq::empty()
    }
}

/// The text rebuilt from the matches: gaps and whole matches, then the tail.
pub open spec fn matches_text(ms: Seq<MatchView>) -> Seq<char>
    decreases ms.len(),
{
    if ms.len() == 0 {
        Seq::empty()
    } else {
        matches_text(ms.drop_last()) + ms.last().0 + whole(ms.last())
    }
}

/// A match as the `regex` crate reports it: the byte offsets of the whole
/// match in the text, and the capture groups (group 0 is the whole match).
pub struct RawMatch {
    pub start: usize,
    pub end: usize,
    pub groups: Vec<Option<String>>,
}

/// Plain view of a raw match.
pub type RawView = (nat, nat, Seq<Option<Seq<char>>>);

impl View for RawMatch {
    type V = RawView;

    open spec fn view(&self) -> RawView {
        (self.start as nat, self.end as nat, Seq::new(self.groups@.len(), |j: int| opt_view(self.groups@[j])))
    }
}

pub open spec fn raw_views(ms: Seq<RawMatch>) -> Seq<RawView> {
    Seq::new(ms.len(), |i: int| ms[i]@)
}

/// What `regex::Regex::new(pattern)` and `Regex::captures_iter(text)` give:
/// `None` when the pattern does not compile, else the matches in order.
pub uninterp spec fn regex_captures_of(pattern: Seq<char>, text: Seq<char>) -> Option<Seq<RawView>>;

/// Every character of every participating group occurs in `text` (a group
/// is a piece of the text).
pub open spec fn chars_within(gs: Seq<Option<Seq<char>>>, text: Seq<char>) -> bool {
    forall|g: int, c: int| 0 <= g < gs.len() && gs[g] is Some && 0 <= c < gs[g]->0.len()
        ==> text.contains(#[trigger] gs[g]->0[c])
}

/// Successive, non-overlapping matches, each with its group 0: the text
/// between its start and end offsets; every group is a piece of the text.
pub open spec fn raw_wf(ms: Seq<RawView>, text: Seq<char>) -> bool {
    &&& forall|i: int| 0 <= i < ms.len() ==> (#[trigger] ms[i]).0 <= ms[i].1 && ms[i].2.len() >= 1
        && ms[i].2[0] == Some(text.subrange(char_at_byte(text, ms[i].0 as int) as int, char_at_byte(text, ms[i].1 as int) as int))
    &&& forall|i: int| 0 < i < ms.len() ==> (#[trigger] ms[i - 1]).1 <= ms[i].0
    &&& forall|i: int| 0 <= i < ms.len() ==> chars_within((#[trigger] ms[i]).2, text)
}

/// Compile `pattern` with `regex::Regex::new` and collect the captures of
/// `Regex::captures_iter` over `text`, each as its byte offsets and groups.
/// The result is named `regex_captures_of`; the contract also states that
/// the matches come in order without overlapping, that group 0 is the text
/// between the offsets, and that every group's text is a piece of `text`
/// (`Match::as_str` slices the haystack). The matching semantics of a
/// pattern are not stated.
#[verifier::external_body]
fn regex_captures(pattern: &str, text: &str) -> (r: Option<Vec<RawMatch>>)
    ensures
        match r {
            Some(ms) => regex_captures_of(pattern@, text@) == Some(raw_views(ms@)) && raw_wf(raw_views(ms@), text@),
            None => regex_captures_of(pattern@, text@) is None,
        },
{
    let re = regex::Regex::new(pattern).ok()?;
    Some(re.captures_iter(text).map(|caps| {
        let whole = caps.get(0).unwrap();
        RawMatch {
            start: whole.start(),
            end: whole.end(),
            groups: caps.iter().map(|g| g.map(|g| g.as_str().to_string())).collect(),
        }
    }).collect())
}

/// End offset of the match before match `i` (0 for the first).
pub open spec fn prev_end(raw: Seq<RawView>, i: int) -> nat {
    if i <= 0 || i > raw.len() { 0 } else { raw[i - 1].1 }
}

/// The scan of `text` from its raw matches: each match with the text since
/// the previous one, and the text after the last.
pub open spec fn scan_view(raw: Seq<RawView>, text: Seq<char>) -> (Seq<MatchView>, Seq<char>) {
    (
        Seq::new(raw.len(), |i: int| (
            text.subrange(char_at_byte(text, prev_end(raw, i) as int) as int, char_at_byte(text, raw[i].0 as int) as int),
            raw[i].2,
        )),
        text.skip(char_at_byte(text, prev_end(raw, raw.len() as int) as int) as int),
    )
}

/// What scanning `text` with `pattern` gives: `None` when the pattern does not
/// compile, else the matches and the tail.
pub open spec fn regex_scan_of(pattern: Seq<char>, text: Seq<char>) -> Option<(Seq<MatchView>, Seq<char>)> {
    match regex_captures_of(pattern, text) {
        Some(raw) => Some(scan_view(raw, text)),
        None => None,
    }
}

fn clone_groups(gs: &Vec<Option<String>>) -> (r: Vec<Option<String>>)
    ensures
        Seq::new(r@.len(), |j: int| opt_view(r@[j])) == Seq::new(gs@.len(), |j: int| opt_view(gs@[j])),
{
    let mut out: Vec<Option<String>> = Vec::new();
    let mut k: usize = 0;
    while k < gs.len()
        invariant
            k <= gs.len(),
            out@.len() == k,
            forall|j: int| 0 <= j < k ==> opt_view(#[trigger] out@[j]) == opt_view(gs@[j]),
        decreases gs.len() - k,
    {
        match &gs[k] {
            Some(g) => out.push(Some(crate::ops::clone_string(g))),
            None => out.push(None),
        }
        k += 1;
    }
    assert(Seq::new(out@.len(), |j: int| opt_view(out@[j])) =~= Seq::new(gs@.len(), |j: int| opt_view(gs@[j])));
    out
}

/// Scan `text` with the regular expression `pattern`: every successive
/// non-overlapping match with the text before it, then the tail. Every match
/// has its group 0, and the gaps and whole matches in order, followed by the
/// tail, spell out `text`.
pub fn regex_scan(pattern: &str, text: &str) -> (r: Option<RegexScan>)
    ensures
        r matches Some(sc) ==> regex_scan_of(pattern@, text@) == Some(sc@),
        r is None ==> regex_scan_of(pattern@, text@) is None,
        r matches Some(sc) ==> (forall|i: int|
            0 <= i < sc@.0.len() ==> (#[trigger] sc@.0[i]).1.len() >= 1 && sc@.0[i].1[0] is Some),
        r matches Some(sc) ==> matches_text(sc@.0) + sc@.1 == text@,
        r matches Some(sc) ==> forall|i: int| 0 <= i < sc@.0.len() ==> chars_within((#[trigger] sc@.0[i]).1, text@),
{
    let raw = match regex_captures(pattern, text) {
        Some(x) => x,
        None => return None,
    };
    let ghost rv = raw_views(raw@);
    let ghost want = scan_view(rv, text@);
    let t = chars_of(text);
    let mut matches: Vec<RegexMatch> = Vec::new();
    let mut last: usize = 0;
    let mut i: usize = 0;
    proof {
        lemma_char_at_byte_zero(t@);
    }
    while i < raw.len()
        invariant
            i <= raw.len(),
            t@ == text@,
            rv == raw_views(raw@),
            raw_wf(rv, text@),
            want == scan_view(rv, text@),
            last == char_at_byte(t@, prev_end(rv, i as int) as int),
            last <= t.len(),
            matches@.len() == i,
            forall|j: int| 0 <= j < i ==> (#[trigger] matches@[j])@ == want.0[j],
            matches_text(Seq::new(i as nat, |j: int| matches@[j]@)) == t@.take(last as int),
        decreases raw.len() - i,
    {
        let ghost prev_ms = Seq::new(i as nat, |j: int| matches@[j]@);
        let s = char_index_of_byte(&t, raw[i].start);
        assert(rv[i as int] == raw@[i as int]@);
        proof {
            if i > 0 {
                assert(rv[i as int - 1].1 <= rv[i as int].0);
            }
            lemma_char_at_byte_mono(t@, prev_end(rv, i as int) as int, rv[i as int].0 as int);
            lemma_char_at_byte_mono(t@, rv[i as int].0 as int, rv[i as int].1 as int);
            lemma_char_at_byte_bound(t@, rv[i as int].1 as int);
        }
        let before = slice_vec(&t, last, s);
        let groups = clone_groups(&raw[i].groups);
        let m = RegexMatch { before: string_of(&before), groups };
        assert(m@ == want.0[i as int]);
        matches.push(m);
        let e = char_index_of_byte(&t, raw[i].end);
        proof {
            let ms = Seq::new((i + 1) as nat, |j: int| matches@[j]@);
            assert(ms.drop_last() =~= prev_ms);
            assert(ms.last() == want.0[i as int]);
            assert(whole(ms.last()) == t@.subrange(s as int, e as int));
            assert(t@.take(e as int) =~= t@.take(last as int) + t@.subrange(last as int, s as int) + t@.subrange(s as int, e as int));
        }
        last = e;
        i += 1;
    }
    let tail = slice_vec(&t, last, t.len());
    let sc = RegexScan { matches, tail: string_of(&tail) };
    proof {
        assert(sc@.0 =~= Seq::new(i as nat, |j: int| matches@[j]@));
        assert(sc@.0 =~= want.0);
        assert(tail@ =~= t@.skip(last as int));
        assert(sc@ == want);
        assert(t@ =~= t@.take(last as int) + t@.skip(last as int));
        assert forall|k: int| 0 <= k < sc@.0.len() implies (#[trigger] sc@.0[k]).1.len() >= 1 && sc@.0[k].1[0] is Some by {
            assert(sc@.0[k].1 == rv[k].2);
        }
        assert forall|k: int| 0 <= k < sc@.0.len() implies chars_within((#[trigger] sc@.0[k]).1, text@) by {
            assert(sc@.0[k].1 == rv[k].2);
        }
    }
    Some(sc)
}

/// The first match of `pattern` in `text`, if the pattern compiles and matches.
pub open spec fn first_match(pattern: Seq<char>, text: Seq<char>) -> Option<MatchView> {
    match regex_scan_of(pattern, text) {
        Some((ms, _)) => if ms.len() > 0 {
            Some(ms[0])
        } else {
            None
        },
        None => None,
    }
}

/// Does `pattern` match somewhere in `text`?
pub open spec fn is_match(pattern: Seq<char>, text: Seq<char>) -> bool {
    first_match(pattern, text) is Some
}

pub proof fn lemma_matches_text_first(ms: Seq<MatchView>)
    requires
        ms.len() >= 1,
    ensures
        matches_text(ms) == ms[0].0 + whole(ms[0]) + matches_text(ms.drop_first()),
    decreases ms.len(),
{
    if ms.len() == 1 {
        assert(ms.drop_last() =~= Seq::<MatchView>::empty());
        assert(ms.drop_first() =~= Seq::<MatchView>::empty());
        assert(matches_text(ms) =~= ms[0].0 + whole(ms[0]) + matches_text(ms.drop_first()));
    } else {
        lemma_matches_text_first(ms.drop_last());
        assert(ms.drop_last().drop_first() =~= ms.drop_first().drop_last());
        assert(ms.drop_first().last() == ms.last());
        assert(matches_text(ms) =~= ms[0].0 + whole(ms[0]) + matches_text(ms.drop_first()));
    }
}

/// Result of the first match: gap before it and its groups (as owned values).
pub struct FirstMatch {
    pub before: Vec<char>,
    pub groups: Vec<Option<Vec<char>>>,
}

pub open spec fn first_view(f: FirstMatch) -> MatchView {
    (f.before@, Seq::new(f.groups@.len(), |j: int| match f.groups@[j] {
        Some(v) => Some(v@),
        None => None,
    }))
}

/// The first match of `pattern` in `text`.
pub fn find_first(pattern: &str, text: &[char]) -> (r: Option<FirstMatch>)
    ensures
        r matches Some(f) ==> first_match(pattern@, text@) == Some(first_view(f)),
        r is None ==> first_match(pattern@, text@) is None,
        r matches Some(f) ==> first_view(f).0.len() + whole(first_view(f)).len() <= text@.len(),
        r matches Some(f) ==> chars_within(first_view(f).1, text@),
{
    let s = crate::text::string_of(text);
    let sc = regex_scan(pattern, s.as_str());
    match sc {
        None => None,
        Some(sc) => {
            if sc.matches.len() == 0 {
                return None;
            }
            let m = &sc.matches[0];
            let before = crate::text::chars_of(m.before.as_str());
            let mut groups: Vec<Option<Vec<char>>> = Vec::new();
            let mut k: usize = 0;
            while k < m.groups.len()
                invariant
                    k <= m.groups.len(),
                    groups@.len() == k,
                    forall|j: int| 0 <= j < k ==> (match #[trigger] groups@[j] {
                        Some(v) => Some(v@),
                        None => None,
                    }) == opt_view(m.groups@[j]),
                decreases m.groups.len() - k,
            {
                match &m.groups[k] {
                    Some(g) => groups.push(Some(crate::text::chars_of(g.as_str()))),
                    None => groups.push(None),
                }
                k += 1;
            }
            let f = FirstMatch { before, groups };
            proof {
                assert(sc@.0[0] == m@);
                assert(first_view(f) =~= m@);
                lemma_matches_text_first(sc@.0);
                assert(text@ == matches_text(sc@.0) + sc@.1);
                assert(chars_within(sc@.0[0].1, s@));
            }
            Some(f)
        },
    }
}

} // verus!
