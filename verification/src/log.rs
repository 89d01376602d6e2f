//! The lines RoFlux reports on: a tag right-aligned to seven columns, in
//! color where the terminal takes it, and nothing at all when quiet.
use vstd::prelude::*;
use crate::text::{chars_of, push_char, push_str};

verus! {

/// How reports are written.
#[derive(Debug, Clone, Copy)]
pub struct Log {
    pub quiet: bool,
    pub color: bool,
}

impl Log {
    /// Reports written plainly, in color when `color` is set.
    pub fn new(color: bool) -> (r: Log)
        ensures
            !r.quiet,
            r.color == color,
    {
        Log { quiet: false, color }
    }
}

/// Turns reporting off or back on.
pub fn set_quiet(log: &mut Log, value: bool)
    ensures
        final(log).quiet == value,
        final(log).color == old(log).color,
{
    log.quiet = value;
}

/// Whether reporting is off.
pub fn quiet(log: &Log) -> (r: bool)
    ensures
        r == log.quiet,
{
    log.quiet
}

/// `tag` right-aligned to seven columns.
pub open spec fn padded(tag: Seq<char>) -> Seq<char> {
    if tag.len() < 7 {
        Seq::new((7 - tag.len()) as nat, |i: int| ' ') + tag
    } else {
        tag
    }
}

/// The line reporting `message` under `tag`: colored with the ANSI code
/// `color` around the tag where color is on.
pub open spec fn line(tag: Seq<char>, color: Seq<char>, message: Seq<char>, colored: bool) -> Seq<char> {
    if colored {
        seq!['\u{1b}', '['] + color + seq!['m'] + padded(tag) + seq!['\u{1b}', '[', '0', 'm', ' '] + message
    } else {
        padded(tag) + seq![' '] + message
    }
}

/// What a report under `tag` writes: nothing when quiet.
pub open spec fn report(log: Log, tag: Seq<char>, color: Seq<char>, message: Seq<char>) -> Option<Seq<char>> {
    if log.quiet {
        None
    } else {
        Some(line(tag, color, message, log.color))
    }
}

fn emit(log: &Log, tag: &str, color: &str, message: &str) -> (r: Option<String>)
    ensures
        match r {
            Some(s) => report(*log, tag@, color@, message@) == Some(s@),
            None => report(*log, tag@, color@, message@) is None,
        },
{
    if log.quiet {
        return None;
    }
    let mut out = String::new();
    if log.color {
        push_char(&mut out, '\u{1b}');
        push_char(&mut out, '[');
        push_str(&mut out, color);
        push_char(&mut out, 'm');
    }
    let ghost head = out@;
    let width = chars_of(tag).len();
    let mut k: usize = width;
    while k < 7
        invariant
            width == tag@.len(),
            width <= k <= 7 || (width > 7 && k == width),
            out@ == head + Seq::new((k - width) as nat, |i: int| ' '),
        decreases 7 - k,
    {
        let ghost prev = out@;
        push_char(&mut out, ' ');
        assert(out@ =~= head + Seq::new((k + 1 - width) as nat, |i: int| ' '));
        k = k + 1;
    }
    push_str(&mut out, tag);
    assert(out@ =~= head + padded(tag@));
    if log.color {
        push_char(&mut out, '\u{1b}');
        push_char(&mut out, '[');
        push_char(&mut out, '0');
        push_char(&mut out, 'm');
    }
    push_char(&mut out, ' ');
    push_str(&mut out, message);
    proof {
        if log.color {
            assert(out@ =~= line(tag@, color@, message@, true));
        } else {
            assert(out@ =~= line(tag@, color@, message@, false));
        }
    }
    Some(out)
}

/// An informational report.
pub fn info(log: &Log, message: &str) -> (r: Option<String>)
    ensures
        match r {
            Some(s) => report(*log, "info"@, "36"@, message@) == Some(s@),
            None => report(*log, "info"@, "36"@, message@) is None,
        },
{
    emit(log, "info", "36", message)
}

/// A report that something went well.
pub fn good(log: &Log, message: &str) -> (r: Option<String>)
    ensures
        match r {
            Some(s) => report(*log, "ok"@, "32"@, message@) == Some(s@),
            None => report(*log, "ok"@, "32"@, message@) is None,
        },
{
    emit(log, "ok", "32", message)
}

/// A warning.
pub fn warn(log: &Log, message: &str) -> (r: Option<String>)
    ensures
        match r {
            Some(s) => report(*log, "warn"@, "33"@, message@) == Some(s@),
            None => report(*log, "warn"@, "33"@, message@) is None,
        },
{
    emit(log, "warn", "33", message)
}

/// An error report.
pub fn fail(log: &Log, message: &str) -> (r: Option<String>)
    ensures
        match r {
            Some(s) => report(*log, "error"@, "31"@, message@) == Some(s@),
            None => report(*log, "error"@, "31"@, message@) is None,
        },
{
    emit(log, "error", "31", message)
}

/// What a hook script printed.
pub fn hook(log: &Log, message: &str) -> (r: Option<String>)
    ensures
        match r {
            Some(s) => report(*log, "hook"@, "35"@, message@) == Some(s@),
            None => report(*log, "hook"@, "35"@, message@) is None,
        },
{
    emit(log, "hook", "35", message)
}

/// A line of detail under the report before it, with an empty tag.
pub fn detail(log: &Log, message: &str) -> (r: Option<String>)
    ensures
        match r {
            Some(s) => report(*log, ""@, "90"@, message@) == Some(s@),
            None => report(*log, ""@, "90"@, message@) is None,
        },
{
    emit(log, "", "90", message)
}

/// A report of what was sent to Studio.
pub fn sync(log: &Log, message: &str) -> (r: Option<String>)
    ensures
        match r {
            Some(s) => report(*log, "sync"@, "34"@, message@) == Some(s@),
            None => report(*log, "sync"@, "34"@, message@) is None,
        },
{
    emit(log, "sync", "34", message)
}

} // verus!
