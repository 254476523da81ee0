//! The external toolchain (nargo, bb, GNU `/usr/bin/time`): the versions
//! read from what `--version` prints, and the check that GNU time is there.
use vstd::prelude::*;
use vstd::string::StrSliceExecFns;
use vstd::string::StringExecFns;
use crate::text::{chars_of, find_char, first_index_of, trim, trim_range};

verus! {

/// Versions of the underlying tools, recorded for reproducibility.
pub struct Versions {
    pub nargo: String,
    pub bb: String,
}

/// Why the toolchain check failed.
#[derive(Debug, Clone, Copy, PartialEq, Eq)]
pub enum PreflightError {
    /// GNU `/usr/bin/time` is not installed; the `%e %M` measurement format
    /// needs it (the shell's built-in `time` does not support it).
    TimeNotFound,
}

/// The first line of `s` as `str::lines` yields it (without its `\n`, and
/// without a `\r` just before that `\n`); `None` for empty text.
pub open spec fn first_line(s: Seq<char>) -> Option<Seq<char>> {
    if s.len() == 0 {
        None
    } else {
        let k = first_index_of(s, |c: char| c == '\n');
        let line = s.take(k);
        Some(
            if k < s.len() && k > 0 && line.last() == '\r' {
                line.drop_last()
            } else {
                line
            },
        )
    }
}

/// The second `=`-separated field of `line`, as `split('=').nth(1)` gives
/// it: the text between the first `=` and the next one (or the end);
/// `None` when there is no `=`.
pub open spec fn second_field(line: Seq<char>) -> Option<Seq<char>> {
    let i = first_index_of(line, |c: char| c == '=');
    if i == line.len() {
        None
    } else {
        let rest = line.skip(i + 1);
        Some(rest.take(first_index_of(rest, |c: char| c == '=')))
    }
}

/// The version in what `nargo --version` prints, e.g. "1.0.0-beta.3" from
/// "nargo version = 1.0.0-beta.3": the second `=` field of the first line,
/// trimmed; the whole text trimmed when there is no such field.
pub open spec fn nargo_version_text(raw: Seq<char>) -> Seq<char> {
    match first_line(raw) {
        Some(line) => match second_field(line) {
            Some(field) => trim(field),
            None => trim(raw),
        },
        None => trim(raw),
    }
}

/// The version in what `bb --version` prints: the bare version, trimmed.
pub open spec fn bb_version_text(raw: Seq<char>) -> Seq<char> {
    trim(raw)
}

/// The characters `[lo, hi)` of `raw`, as a `String`.
fn substring(raw: &str, lo: usize, hi: usize) -> (r: String)
    requires
        lo <= hi <= raw@.len(),
    ensures
        r@ == raw@.subrange(lo as int, hi as int),
{
    String::from_str(raw.substring_char(lo, hi))
}

/// The nargo version in what `nargo --version` printed.
pub fn nargo_version(raw: &str) -> (v: String)
    ensures
        v@ == nargo_version_text(raw@),
{
    let chars = chars_of(raw);
    let n = chars.len();
    if n > 0 {
        let k = find_char(&chars, 0, n, '\n');
        let end = if k < n && k > 0 && chars[k - 1] == '\r' {
            k - 1
        } else {
            k
        };
        proof {
            assert(chars@.subrange(0, n as int) == raw@);
            let line = raw@.take(k as int);
            assert(line == chars@.subrange(0, k as int));
            if k < n && k > 0 && chars@[k - 1] == '\r' {
                assert(line.drop_last() == chars@.subrange(0, end as int));
            }
            assert(first_line(raw@) == Some(chars@.subrange(0, end as int)));
        }
        let i = find_char(&chars, 0, end, '=');
        if i < end {
            let j = find_char(&chars, i + 1, end, '=');
            proof {
                let line = chars@.subrange(0, end as int);
                assert(line.subrange(0, end as int) == line);
                let rest = line.skip(i + 1);
                assert(rest == chars@.subrange(i + 1, end as int));
                assert(rest.take(j - (i + 1)) == chars@.subrange(i + 1, j as int));
            }
            let (a, b) = trim_range(&chars, i + 1, j);
            return substring(raw, a, b);
        }
        proof {
            let line = chars@.subrange(0, end as int);
            assert(line.subrange(0, end as int) == line);
        }
    }
    let (a, b) = trim_range(&chars, 0, n);
    proof {
        assert(chars@.subrange(0, n as int) == raw@);
    }
    substring(raw, a, b)
}

/// The bb version in what `bb --version` printed.
pub fn bb_version(raw: &str) -> (v: String)
    ensures
        v@ == bb_version_text(raw@),
{
    let chars = chars_of(raw);
    let (a, b) = trim_range(&chars, 0, chars.len());
    proof {
        assert(chars@.subrange(0, chars@.len() as int) == raw@);
    }
    substring(raw, a, b)
}

/// The versions in what the two `--version` probes printed.
pub fn versions_from_probes(nargo_raw: &str, bb_raw: &str) -> (v: Versions)
    ensures
        v.nargo@ == nargo_version_text(nargo_raw@),
        v.bb@ == bb_version_text(bb_raw@),
{
    Versions { nargo: nargo_version(nargo_raw), bb: bb_version(bb_raw) }
}

/// GNU `/usr/bin/time` is required for the `%e %M` measurement format;
/// `time_present` tells whether it is installed.
pub fn ensure_time(time_present: bool) -> (r: Result<(), PreflightError>)
    ensures
        r is Ok <==> time_present,
        r matches Err(e) ==> e == PreflightError::TimeNotFound,
{
    if time_present {
        Ok(())
    } else {
        Err(PreflightError::TimeNotFound)
    }
}

} // verus!
