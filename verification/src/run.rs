//! The closing decisions of a command-line run: what each file's status line
//! says, the summary after all files, and the exit status.
use vstd::prelude::*;
use crate::text::{chars_of, push_all, string_of};
use crate::types::{decimal, decimal_vec};

verus! {

/// What a run does with the files it formats.
#[derive(Clone, Copy, Debug)]
pub enum RunMode {
    /// `--write`: formatted files are written back.
    Write,
    /// `--check`: files that need formatting fail the run.
    Check,
    /// Neither: the files that would change are listed.
    List,
}

/// `--write` wins over `--check`; with neither the run only lists.
pub fn run_mode(write: bool, check: bool) -> (r: RunMode)
    ensures
        r == (if write { RunMode::Write } else if check { RunMode::Check } else { RunMode::List }),
{
    if write {
        RunMode::Write
    } else if check {
        RunMode::Check
    } else {
        RunMode::List
    }
}

/// How a line is shown: its colour, and `Error` lines go to standard error.
#[derive(Clone, Copy, Debug)]
pub enum Tone {
    Success,
    Warning,
    Info,
    Muted,
    Error,
}

/// A line of the run's output, with its tone.
#[derive(Debug)]
pub struct ToneLine {
    pub tone: Tone,
    pub text: String,
}

pub open spec fn tone_lines(ls: Seq<ToneLine>) -> Seq<(Tone, Seq<char>)> {
    ls.map_values(|l: ToneLine| (l.tone, l.text@))
}

/// The mark and word printed around a file's path, by mode and by whether
/// formatting changes the file.
pub open spec fn file_status_spec(mode: RunMode, changed: bool) -> (Tone, char, Seq<char>) {
    match mode {
        RunMode::Write => if changed { (Tone::Success, '✓', "formatted"@) } else { (Tone::Muted, '○', "unchanged"@) },
        RunMode::Check => if changed { (Tone::Warning, '⚠', "needs formatting"@) } else { (Tone::Success, '✓', "formatted correctly"@) },
        RunMode::List => if changed { (Tone::Info, '→', "would be formatted"@) } else { (Tone::Muted, '○', "already formatted"@) },
    }
}

/// The tone, mark and word of a file's status line.
pub fn file_status(mode: RunMode, changed: bool) -> (r: (Tone, char, String))
    ensures
        (r.0, r.1, r.2@) == file_status_spec(mode, changed),
{
    proof {
        reveal_strlit("formatted");
        reveal_strlit("unchanged");
        reveal_strlit("needs formatting");
        reveal_strlit("formatted correctly");
        reveal_strlit("would be formatted");
        reveal_strlit("already formatted");
    }
    let (tone, mark, word) = match mode {
        RunMode::Write => if changed { (Tone::Success, '✓', "formatted") } else { (Tone::Muted, '○', "unchanged") },
        RunMode::Check => if changed { (Tone::Warning, '⚠', "needs formatting") } else { (Tone::Success, '✓', "formatted correctly") },
        RunMode::List => if changed { (Tone::Info, '→', "would be formatted") } else { (Tone::Muted, '○', "already formatted") },
    };
    (tone, mark, string_of(&chars_of(word)))
}

/// The summary after all files: the outcome for the mode, then, when any
/// file failed, the error count.
pub open spec fn summary_spec(mode: RunMode, changed: nat, errors: nat) -> Seq<(Tone, Seq<char>)> {
    let main: Seq<(Tone, Seq<char>)> = match mode {
        RunMode::Write => if changed > 0 {
            seq![(Tone::Success, "✓ Formatted "@ + decimal(changed) + " file(s)"@)]
        } else {
            seq![(Tone::Muted, "All files are already formatted"@)]
        },
        RunMode::Check => if changed > 0 {
            seq![(Tone::Warning, "⚠ "@ + decimal(changed) + " file(s) need formatting"@)]
        } else {
            seq![(Tone::Success, "✓ All files are formatted correctly"@)]
        },
        RunMode::List => if changed > 0 {
            seq![(Tone::Info, "→ "@ + decimal(changed) + " file(s) would be formatted"@), (Tone::Muted, "Use --write to apply changes"@)]
        } else {
            seq![(Tone::Muted, "All files are already formatted"@)]
        },
    };
    if errors > 0 {
        main.push((Tone::Error, "✗ "@ + decimal(errors) + " error(s) occurred"@))
    } else {
        main
    }
}

fn line_of(tone: Tone, parts: Vec<char>) -> (r: ToneLine)
    ensures
        r.tone == tone,
        r.text@ == parts@,
{
    ToneLine { tone, text: string_of(&parts) }
}

fn counted(before: &str, n: usize, after: &str) -> (r: Vec<char>)
    ensures
        r@ == before@ + decimal(n as nat) + after@,
{
    let mut v = chars_of(before);
    push_all(&mut v, &decimal_vec(n));
    push_all(&mut v, &chars_of(after));
    v
}

/// The summary lines after `changed` files changed (or would change) and
/// `errors` files failed.
pub fn run_summary(mode: RunMode, changed: usize, errors: usize) -> (r: Vec<ToneLine>)
    ensures
        tone_lines(r@) == summary_spec(mode, changed as nat, errors as nat),
{
    proof {
        reveal_strlit("✓ Formatted ");
        reveal_strlit(" file(s)");
        reveal_strlit("All files are already formatted");
        reveal_strlit("⚠ ");
        reveal_strlit(" file(s) need formatting");
        reveal_strlit("✓ All files are formatted correctly");
        reveal_strlit("→ ");
        reveal_strlit(" file(s) would be formatted");
        reveal_strlit("Use --write to apply changes");
        reveal_strlit("✗ ");
        reveal_strlit(" error(s) occurred");
    }
    let mut out: Vec<ToneLine> = Vec::new();
    match mode {
        RunMode::Write => if changed > 0 {
            out.push(line_of(Tone::Success, counted("✓ Formatted ", changed, " file(s)")));
        } else {
            out.push(line_of(Tone::Muted, chars_of("All files are already formatted")));
        },
        RunMode::Check => if changed > 0 {
            out.push(line_of(Tone::Warning, counted("⚠ ", changed, " file(s) need formatting")));
        } else {
            out.push(line_of(Tone::Success, chars_of("✓ All files are formatted correctly")));
        },
        RunMode::List => if changed > 0 {
            out.push(line_of(Tone::Info, counted("→ ", changed, " file(s) would be formatted")));
            out.push(line_of(Tone::Muted, chars_of("Use --write to apply changes")));
        } else {
            out.push(line_of(Tone::Muted, chars_of("All files are already formatted")));
        },
    }
    let ghost main = tone_lines(out@);
    if errors > 0 {
        out.push(line_of(Tone::Error, counted("✗ ", errors, " error(s) occurred")));
        assert(tone_lines(out@) =~= main.push(tone_lines(out@).last()));
    }
    assert(tone_lines(out@) =~= summary_spec(mode, changed as nat, errors as nat));
    out
}

/// The exit status: 1 when any file failed, or in check mode when a file
/// needs formatting; 0 otherwise.
pub open spec fn exit_status_spec(mode: RunMode, changed: nat, errors: nat) -> int {
    if errors > 0 {
        1
    } else if mode is Check && changed > 0 {
        1
    } else {
        0
    }
}

/// The run's exit status.
pub fn exit_status(mode: RunMode, changed: usize, errors: usize) -> (r: i32)
    ensures
        r == exit_status_spec(mode, changed as nat, errors as nat),
{
    if errors > 0 {
        1
    } else {
        match mode {
            RunMode::Check => if changed > 0 { 1 } else { 0 },
            _ => 0,
        }
    }
}

} // verus!
