//! Linting a whole file, and whether a run fails.

use vstd::prelude::*;
use crate::linter::{lint, lint_line, views, Finding, FindingView, Severity};
use crate::text::{chars_of, is_white_space, white_space};

verus! {

/// The index of the first character at or after `i` that is not whitespace
/// (`s.len()` where there is none).
pub open spec fn first_non_space(s: Seq<char>, i: int) -> int
    decreases s.len() - i,
{
    if 0 <= i < s.len() && is_white_space(s[i]) {
        first_non_space(s, i + 1)
    } else {
        i
    }
}

/// A line that is blank, or whose first non-whitespace character is `#`
/// (a comment), is not linted.
pub open spec fn is_skipped(s: Seq<char>) -> bool {
    let k = first_non_space(s, 0);
    k >= s.len() || s[k] == '#'
}

/// The findings of a file given as its lines: line `k` (counting from 1) is
/// linted under its number unless it is skipped.
pub open spec fn lint_all(lines: Seq<Seq<char>>) -> Seq<FindingView>
    decreases lines.len(),
{
    if lines.len() == 0 {
        seq![]
    } else {
        lint_all(lines.drop_last()) + if is_skipped(lines.last()) {
            Seq::<FindingView>::empty()
        } else {
            lint(lines.len() as usize, lines.last())
        }
    }
}

/// The views of a list of lines.
pub open spec fn line_views(lines: Seq<String>) -> Seq<Seq<char>> {
    lines.map_values(|l: String| l@)
}

/// Some finding has this severity.
pub open spec fn has_severity(fs: Seq<FindingView>, s: Severity) -> bool {
    exists|k: int| 0 <= k < fs.len() && #[trigger] fs[k].severity == s
}

/// Strict by default: any finding fails the run. Lenient: only errors do.
pub open spec fn fails(fs: Seq<FindingView>, lenient: bool) -> bool {
    has_severity(fs, Severity::Error) || (!lenient && has_severity(fs, Severity::Warning))
}

/// Whether `raw` is blank or a comment line.
pub fn is_skipped_line(raw: &str) -> (b: bool)
    ensures
        b == is_skipped(raw@),
{
    let chars = chars_of(raw);
    let n = chars.len();
    let mut i: usize = 0;
    while i < n && white_space(chars[i])
        invariant
            n == chars@.len(),
            chars@ == raw@,
            i <= n,
            first_non_space(raw@, 0) == first_non_space(raw@, i as int),
        decreases n - i,
    {
        i += 1;
    }
    i >= n || chars[i] == '#'
}

/// Lints every line that is neither blank nor a comment.
pub fn lint_lines(lines: &[String]) -> (r: Vec<Finding>)
    ensures
        views(r@) == lint_all(line_views(lines@)),
{
    let mut findings: Vec<Finding> = Vec::new();
    let n = lines.len();
    let mut k: usize = 0;
    proof {
        assert(line_views(lines@).take(0) =~= Seq::<Seq<char>>::empty());
        assert(views(findings@) =~= Seq::<FindingView>::empty());
    }
    while k < n
        invariant
            n == lines@.len(),
            k <= n,
            views(findings@) == lint_all(line_views(lines@).take(k as int)),
        decreases n - k,
    {
        let ghost lv = line_views(lines@);
        let line = lines[k].as_str();
        let ghost before = views(findings@);
        proof {
            assert(lv.take(k + 1).drop_last() =~= lv.take(k as int));
            assert(lv.take(k + 1).last() == lines@[k as int]@);
            assert(lv.take(k + 1).len() == k + 1);
        }
        if !is_skipped_line(line) {
            let mut more = lint_line(k + 1, line);
            proof {
                assert(views(findings@ + more@) =~= views(findings@) + views(more@));
            }
            findings.append(&mut more);
        } else {
            proof {
                assert(before + Seq::<FindingView>::empty() =~= before);
            }
        }
        k += 1;
    }
    proof {
        assert(line_views(lines@).take(n as int) =~= line_views(lines@));
    }
    findings
}

/// Whether a run with these findings fails: any error does; a warning does
/// unless `lenient`.
pub fn is_failure(findings: &[Finding], lenient: bool) -> (b: bool)
    ensures
        b == fails(views(findings@), lenient),
{
    let mut has_error = false;
    let mut has_warning = false;
    let n = findings.len();
    let mut k: usize = 0;
    let ghost fs = views(findings@);
    while k < n
        invariant
            n == findings@.len(),
            fs == views(findings@),
            fs.len() == n,
            k <= n,
            has_error == exists|j: int| 0 <= j < k && #[trigger] fs[j].severity == Severity::Error,
            has_warning == exists|j: int| 0 <= j < k && #[trigger] fs[j].severity == Severity::Warning,
        decreases n - k,
    {
        assert(fs[k as int] == findings@[k as int]@);
        let ghost seen = k as int;
        match findings[k].severity {
            Severity::Error => has_error = true,
            Severity::Warning => has_warning = true,
        }
        k += 1;
        proof {
            assert(fs[seen].severity == findings@[seen].severity);
        }
    }
    has_error || (has_warning && !lenient)
}

} // verus!
