//! Properties of the library as a whole, proved over the specifications that
//! the executable functions meet.

use vstd::prelude::*;
use crate::lexer::{digit_run_end, lemma_digit_run_end, lex, lex_from, saturate, symbol_kind, symbol_width, Token, TokenKind};
use crate::linter::{
    check, count_findings, end_col, keep_findings, lint, number_at, operand_at, parse, parse_from,
    sides_findings, term_findings, describe_text, FindingView, Severity, Term,
};
use crate::run::{fails, has_severity, is_skipped, lint_all};
use crate::text::{decimal, decimal_value, digit_char, digit_value, is_digit, is_white_space};

verus! {

/// The severity that the documented rule table gives a code, if the code is one of its rows.
pub open spec fn code_severity(code: Seq<char>) -> Option<Severity> {
    if code == "E000"@ || code == "E001"@ || code == "E002"@ || code == "E003"@ || code == "E004"@ {
        Some(Severity::Error)
    } else if code == "W001"@ || code == "W002"@ || code == "W003"@ {
        Some(Severity::Warning)
    } else {
        None
    }
}

/// A finding as the documentation describes them: on `line`, at a column of
/// a line `n` characters long, with a documented code and its severity.
pub open spec fn well_formed(f: FindingView, line: usize, n: int) -> bool {
    &&& f.line == line
    &&& 1 <= f.col <= n
    &&& code_severity(f.code) == Some(f.severity)
}

/// The columns of a token stream lie in `1..=n`.
pub open spec fn cols_within(t: Seq<Token>, n: int) -> bool {
    forall|k: int| 0 <= k < t.len() ==> 1 <= #[trigger] t[k].col <= n
}

/// A term's column, where it has one, lies in `1..=n`.
pub open spec fn term_col_within(term: Term, n: int) -> bool {
    match term {
        Term::Flat => true,
        Term::Dice(d) => 1 <= d.col <= n,
        Term::Multiplier { col, .. } => 1 <= col <= n,
    }
}

proof fn lemma_lex_from_cols(s: Seq<char>, i: int)
    requires
        0 <= i <= s.len(),
        s.len() <= usize::MAX,
    ensures
        forall|k: int|
            0 <= k < lex_from(s, i).len() ==> i + 1 <= #[trigger] lex_from(s, i)[k].col <= s.len()
                && !is_white_space(s[lex_from(s, i)[k].col - 1]),
        forall|a: int, b: int|
            0 <= a < b < lex_from(s, i).len() ==> #[trigger] lex_from(s, i)[a].col
                < #[trigger] lex_from(s, i)[b].col,
    decreases s.len() - i,
{
    if i < s.len() {
        if is_white_space(s[i]) {
            lemma_lex_from_cols(s, i + 1);
        } else {
            let j = if is_digit(s[i]) {
                lemma_digit_run_end(s, i);
                digit_run_end(s, i)
            } else {
                i + symbol_width(s, i)
            };
            lemma_lex_from_cols(s, j);
            let rest = lex_from(s, j);
            let all = lex_from(s, i);
            assert(all == seq![all[0]] + rest);
            assert(all[0].col == i + 1);
            assert forall|k: int| 0 < k < all.len() implies #[trigger] all[k] == rest[k - 1] by {}
        }
    }
}

/// Tokens come in column order; each column lies within the line and points
/// at a character that is not whitespace (the token's first character).
pub proof fn law_token_columns(line: Seq<char>)
    requires
        line.len() <= usize::MAX,
    ensures
        forall|k: int|
            0 <= k < lex(line).len() ==> 1 <= #[trigger] lex(line)[k].col <= line.len()
                && !is_white_space(line[lex(line)[k].col - 1]),
        forall|a: int, b: int|
            0 <= a < b < lex(line).len() ==> #[trigger] lex(line)[a].col < #[trigger] lex(
                line,
            )[b].col,
{
    lemma_lex_from_cols(line, 0);
}

proof fn lemma_blank_from(s: Seq<char>, i: int)
    requires
        0 <= i <= s.len(),
        forall|k: int| i <= k < s.len() ==> is_white_space(#[trigger] s[k]),
    ensures
        lex_from(s, i) == Seq::<Token>::empty(),
    decreases s.len() - i,
{
    if i < s.len() {
        lemma_blank_from(s, i + 1);
    }
}

/// A line made only of whitespace (or empty) has no findings.
pub proof fn law_blank_line_has_no_findings(line: usize, text: Seq<char>)
    requires
        forall|k: int| 0 <= k < text.len() ==> is_white_space(#[trigger] text[k]),
    ensures
        lint(line, text) == Seq::<FindingView>::empty(),
{
    lemma_blank_from(text, 0);
}

proof fn lemma_number_at_col(t: Seq<Token>, k: int, n: int)
    requires
        t.len() > 0,
        cols_within(t, n),
    ensures
        number_at(t, k) matches Err(e) ==> 1 <= e.col <= n,
{
    assert(end_col(t) == t[t.len() - 1].col);
}

proof fn lemma_operand_cols(t: Seq<Token>, i: int, n: int)
    requires
        t.len() > 0,
        0 <= i < t.len(),
        cols_within(t, n),
    ensures
        match operand_at(t, i) {
            Ok((term, _)) => term_col_within(term, n),
            Err(e) => 1 <= e.col <= n,
        },
{
    lemma_number_at_col(t, i, n);
    lemma_number_at_col(t, i + 2, n);
    lemma_number_at_col(t, i + 4, n);
    assert(1 <= t[i].col <= n);
}

proof fn lemma_parse_from_cols(t: Seq<Token>, i: int, depth: nat, operand: bool, n: int)
    requires
        t.len() > 0,
        0 <= i,
        cols_within(t, n),
    ensures
        match parse_from(t, i, depth, operand) {
            Ok(terms) => forall|k: int| 0 <= k < terms.len() ==> term_col_within(#[trigger] terms[k], n),
            Err(e) => 1 <= e.col <= n,
        },
    decreases t.len() - i,
{
    assert(end_col(t) == t[t.len() - 1].col);
    if i < t.len() {
        assert(1 <= t[i].col <= n);
        if operand {
            if t[i].kind == crate::lexer::TokenKind::LParen {
                lemma_parse_from_cols(t, i + 1, depth + 1, true, n);
            } else {
                lemma_operand_cols(t, i, n);
                crate::linter::lemma_operand_advances(t, i);
                if let Ok((term, j)) = operand_at(t, i) {
                    lemma_parse_from_cols(t, j, depth, false, n);
                    if let Ok(rest) = parse_from(t, j, depth, false) {
                        let all = seq![term] + rest;
                        assert forall|k: int| 0 <= k < all.len() implies term_col_within(
                            #[trigger] all[k],
                            n,
                        ) by {
                            if k > 0 {
                                assert(all[k] == rest[k - 1]);
                            }
                        }
                    }
                }
            }
        } else {
            match t[i].kind {
                crate::lexer::TokenKind::Plus => lemma_parse_from_cols(t, i + 1, depth, true, n),
                crate::lexer::TokenKind::Minus => lemma_parse_from_cols(t, i + 1, depth, true, n),
                crate::lexer::TokenKind::Star => {
                    lemma_number_at_col(t, i + 1, n);
                    if let Ok(v) = number_at(t, i + 1) {
                        assert(1 <= t[i + 1].col <= n);
                        lemma_parse_from_cols(t, i + 2, depth, false, n);
                        if let Ok(rest) = parse_from(t, i + 2, depth, false) {
                            let all = seq![Term::Multiplier { value: v, col: t[i + 1].col }] + rest;
                            assert forall|k: int| 0 <= k < all.len() implies term_col_within(
                                #[trigger] all[k],
                                n,
                            ) by {
                                if k > 0 {
                                    assert(all[k] == rest[k - 1]);
                                }
                            }
                        }
                    }
                },
                crate::lexer::TokenKind::RParen => {
                    if depth > 0 {
                        lemma_parse_from_cols(t, i + 1, (depth - 1) as nat, false, n);
                    }
                },
                _ => {},
            }
        }
    }
}

/// Each finding of `fs` is well formed and none is a parse error.
pub open spec fn rule_findings_ok(fs: Seq<FindingView>, line: usize, n: int) -> bool {
    forall|k: int| 0 <= k < fs.len() ==> well_formed(#[trigger] fs[k], line, n) && fs[k].code != "E000"@
}

proof fn lemma_concat_ok(a: Seq<FindingView>, b: Seq<FindingView>, line: usize, n: int)
    requires
        rule_findings_ok(a, line, n),
        rule_findings_ok(b, line, n),
    ensures
        rule_findings_ok(a + b, line, n),
{
    assert forall|k: int| 0 <= k < (a + b).len() implies well_formed(#[trigger] (a + b)[k], line, n)
        && (a + b)[k].code != "E000"@ by {
        if k >= a.len() {
            assert((a + b)[k] == b[k - a.len()]);
        } else {
            assert((a + b)[k] == a[k]);
        }
    }
}

/// The rule codes are distinct from `E000` and have the documented severities.
proof fn lemma_code_table()
    ensures
        code_severity("E000"@) == Some(Severity::Error),
        code_severity("E001"@) == Some(Severity::Error),
        code_severity("E002"@) == Some(Severity::Error),
        code_severity("E003"@) == Some(Severity::Error),
        code_severity("E004"@) == Some(Severity::Error),
        code_severity("W001"@) == Some(Severity::Warning),
        code_severity("W002"@) == Some(Severity::Warning),
        code_severity("W003"@) == Some(Severity::Warning),
        "E001"@ != "E000"@,
        "E002"@ != "E000"@,
        "E003"@ != "E000"@,
        "E004"@ != "E000"@,
        "W001"@ != "E000"@,
        "W002"@ != "E000"@,
        "W003"@ != "E000"@,
{
    reveal_strlit("E000");
    reveal_strlit("E001");
    reveal_strlit("E002");
    reveal_strlit("E003");
    reveal_strlit("E004");
    reveal_strlit("W001");
    reveal_strlit("W002");
    reveal_strlit("W003");
    let e = seq!["E000"@, "E001"@, "E002"@, "E003"@, "E004"@];
    let w = seq!["W001"@, "W002"@, "W003"@];
    assert forall|a: int, b: int| 0 <= a < 5 && 0 <= b < 3 implies #[trigger] e[a] != #[trigger] w[b] by {
        assert(e[a][0] != w[b][0]);
    }
    assert forall|a: int| 1 <= a < 5 implies #[trigger] e[a] != "E000"@ by {
        assert(e[a][3] != "E000"@[3]);
    }
    assert(e[1] == "E001"@);
}

proof fn lemma_term_findings(line: usize, term: Term, n: int)
    requires
        term_col_within(term, n),
    ensures
        rule_findings_ok(term_findings(line, term), line, n),
{
    lemma_code_table();
    match term {
        Term::Dice(d) => {
            let a = count_findings(line, d);
            let b = sides_findings(line, d);
            let c = keep_findings(line, d);
            assert(rule_findings_ok(a, line, n));
            assert(rule_findings_ok(b, line, n));
            assert(rule_findings_ok(c, line, n));
            lemma_concat_ok(a, b, line, n);
            lemma_concat_ok(a + b, c, line, n);
        },
        _ => {},
    }
}

proof fn lemma_check(line: usize, terms: Seq<Term>, n: int)
    requires
        forall|k: int| 0 <= k < terms.len() ==> term_col_within(#[trigger] terms[k], n),
    ensures
        forall|k: int|
            0 <= k < check(line, terms).len() ==> well_formed(#[trigger] check(line, terms)[k], line, n)
                && check(line, terms)[k].code != "E000"@,
    decreases terms.len(),
{
    if terms.len() > 0 {
        let init = terms.drop_last();
        assert forall|k: int| 0 <= k < init.len() implies term_col_within(#[trigger] init[k], n) by {
            assert(init[k] == terms[k]);
        }
        lemma_check(line, init, n);
        assert(term_col_within(terms[terms.len() - 1], n));
        lemma_term_findings(line, terms.last(), n);
        lemma_concat_ok(check(line, init), term_findings(line, terms.last()), line, n);
    }
}

proof fn lemma_lint(line: usize, text: Seq<char>)
    requires
        text.len() <= usize::MAX,
    ensures
        forall|k: int| 0 <= k < lint(line, text).len() ==> well_formed(#[trigger] lint(line, text)[k], line, text.len() as int),
        lint(line, text).len() > 0 && lint(line, text)[0].code == "E000"@ ==> lint(line, text).len() == 1,
        forall|k: int| 0 < k < lint(line, text).len() ==> #[trigger] lint(line, text)[k].code != "E000"@,
{
    reveal_strlit("E000");
    let t = lex(text);
    let n = text.len() as int;
    if t.len() > 0 {
        lemma_lex_from_cols(text, 0);
        assert(cols_within(t, n));
        lemma_parse_from_cols(t, 0, 0, true, n);
        match parse(t) {
            Ok(terms) => {
                lemma_check(line, terms, n);
            },
            Err(e) => {},
        }
    }
}

/// Every finding of a line carries that line's number.
pub proof fn law_findings_carry_line_number(line: usize, text: Seq<char>)
    requires
        text.len() <= usize::MAX,
    ensures
        forall|k: int| 0 <= k < lint(line, text).len() ==> #[trigger] lint(line, text)[k].line == line,
{
    lemma_lint(line, text);
    assert forall|k: int| 0 <= k < lint(line, text).len() implies #[trigger] lint(line, text)[k].line == line by {
        assert(well_formed(lint(line, text)[k], line, text.len() as int));
    }
}

/// Every finding has one of the documented codes (`E000`..`E004`,
/// `W001`..`W003`), with the severity that the documentation gives it.
pub proof fn law_severity_follows_code(line: usize, text: Seq<char>)
    requires
        text.len() <= usize::MAX,
    ensures
        forall|k: int|
            0 <= k < lint(line, text).len() ==> code_severity(#[trigger] lint(line, text)[k].code)
                == Some(lint(line, text)[k].severity),
{
    lemma_lint(line, text);
    assert forall|k: int| 0 <= k < lint(line, text).len() implies code_severity(
        #[trigger] lint(line, text)[k].code,
    ) == Some(lint(line, text)[k].severity) by {
        assert(well_formed(lint(line, text)[k], line, text.len() as int));
    }
}

/// Every finding's column points into the line (1-based, counted in characters).
pub proof fn law_columns_point_into_line(line: usize, text: Seq<char>)
    requires
        text.len() <= usize::MAX,
    ensures
        forall|k: int| 0 <= k < lint(line, text).len() ==> 1 <= #[trigger] lint(line, text)[k].col <= text.len(),
{
    lemma_lint(line, text);
    assert forall|k: int| 0 <= k < lint(line, text).len() implies 1 <= #[trigger] lint(line, text)[k].col <= text.len() by {
        assert(well_formed(lint(line, text)[k], line, text.len() as int));
    }
}

/// A line that does not parse gets exactly one finding, `E000`, and no rule
/// findings beside it.
pub proof fn law_parse_error_stands_alone(line: usize, text: Seq<char>)
    requires
        text.len() <= usize::MAX,
    ensures
        forall|k: int|
            0 <= k < lint(line, text).len() && #[trigger] lint(line, text)[k].code == "E000"@
                ==> lint(line, text).len() == 1,
{
    lemma_lint(line, text);
}

/// `--lenient` only changes how warnings are treated: a run that fails
/// leniently fails strictly too, and a run with an error fails either way.
pub proof fn law_lenient_only_relaxes_warnings(findings: Seq<FindingView>)
    ensures
        fails(findings, true) ==> fails(findings, false),
        has_severity(findings, Severity::Error) ==> fails(findings, true) && fails(findings, false),
        !has_severity(findings, Severity::Warning) ==> (fails(findings, true) == fails(findings, false)),
{
}

/// Across a file, each finding names a line that exists and is neither blank
/// nor a comment, its column points into that line, and findings come in
/// line order.
pub proof fn law_file_findings_in_line_order(lines: Seq<Seq<char>>)
    requires
        lines.len() <= usize::MAX,
        forall|k: int| 0 <= k < lines.len() ==> #[trigger] lines[k].len() <= usize::MAX,
    ensures
        forall|k: int|
            0 <= k < lint_all(lines).len() ==> {
                let f = #[trigger] lint_all(lines)[k];
                &&& 1 <= f.line <= lines.len()
                &&& !is_skipped(lines[f.line - 1])
                &&& 1 <= f.col <= lines[f.line - 1].len()
            },
        forall|a: int, b: int|
            0 <= a < b < lint_all(lines).len() ==> #[trigger] lint_all(lines)[a].line
                <= #[trigger] lint_all(lines)[b].line,
    decreases lines.len(),
{
    if lines.len() > 0 {
        let init = lines.drop_last();
        assert forall|k: int| 0 <= k < init.len() implies #[trigger] init[k].len() <= usize::MAX by {
            assert(init[k] == lines[k]);
        }
        law_file_findings_in_line_order(init);
        let a = lint_all(init);
        let n = lines.len();
        let last = lines.last();
        assert(lines[n - 1].len() <= usize::MAX);
        let b = if is_skipped(last) {
            Seq::<FindingView>::empty()
        } else {
            lint(n as usize, last)
        };
        assert(lint_all(lines) == a + b);
        if !is_skipped(last) {
            lemma_lint(n as usize, last);
        }
        assert forall|k: int| 0 <= k < (a + b).len() implies {
            let f = #[trigger] (a + b)[k];
            &&& 1 <= f.line <= lines.len()
            &&& !is_skipped(lines[f.line - 1])
            &&& 1 <= f.col <= lines[f.line - 1].len()
        } by {
            if k < a.len() {
                assert((a + b)[k] == a[k]);
                assert(lines[a[k].line - 1] == init[a[k].line - 1]);
            } else {
                assert((a + b)[k] == b[k - a.len()]);
                assert(well_formed(b[k - a.len()], n as usize, last.len() as int));
            }
        }
        assert forall|x: int, y: int| 0 <= x < y < (a + b).len() implies #[trigger] (a + b)[x].line
            <= #[trigger] (a + b)[y].line by {
            if y < a.len() {
                assert((a + b)[x] == a[x]);
                assert((a + b)[y] == a[y]);
            } else if x < a.len() {
                assert((a + b)[x] == a[x]);
                assert((a + b)[y] == b[y - a.len()]);
                assert(well_formed(b[y - a.len()], n as usize, last.len() as int));
            } else {
                assert((a + b)[x] == b[x - a.len()]);
                assert((a + b)[y] == b[y - a.len()]);
                assert(well_formed(b[y - a.len()], n as usize, last.len() as int));
                assert(well_formed(b[x - a.len()], n as usize, last.len() as int));
            }
        }
    }
}

/// The column a term is reported at, if a rule can report it.
pub open spec fn term_col(term: Term) -> Option<usize> {
    match term {
        Term::Flat => None,
        Term::Dice(d) => Some(d.col),
        Term::Multiplier { col, .. } => Some(col),
    }
}

pub open spec fn col_at_least(term: Term, c: int) -> bool {
    term_col(term) matches Some(x) ==> c <= x
}

pub open spec fn col_at_most(term: Term, c: int) -> bool {
    term_col(term) matches Some(x) ==> x <= c
}

/// The terms that have columns come in column order.
pub open spec fn terms_in_col_order(terms: Seq<Term>) -> bool {
    forall|a: int, b: int|
        0 <= a < b < terms.len() ==> (term_col(#[trigger] terms[a]) matches Some(x) ==> col_at_least(
            #[trigger] terms[b],
            x as int,
        ))
}

/// Token columns strictly increase.
pub open spec fn cols_increasing(t: Seq<Token>) -> bool {
    forall|a: int, b: int| 0 <= a < b < t.len() ==> #[trigger] t[a].col < #[trigger] t[b].col
}

proof fn lemma_prepend_ordered(head: Term, rest: Seq<Term>, c: int)
    requires
        term_col(head) matches Some(x) ==> x == c,
        terms_in_col_order(rest),
        forall|k: int| 0 <= k < rest.len() ==> col_at_least(#[trigger] rest[k], c),
    ensures
        terms_in_col_order(seq![head] + rest),
        forall|k: int| 0 <= k < (seq![head] + rest).len() ==> col_at_least(#[trigger] (seq![head] + rest)[k], c),
{
    let all = seq![head] + rest;
    assert forall|k: int| 0 < k < all.len() implies #[trigger] all[k] == rest[k - 1] by {}
    assert forall|a: int, b: int| 0 <= a < b < all.len() implies (term_col(#[trigger] all[a]) matches Some(x)
        ==> col_at_least(#[trigger] all[b], x as int)) by {
        assert(all[b] == rest[b - 1]);
        if a > 0 {
            assert(all[a] == rest[a - 1]);
        }
    }
    assert forall|k: int| 0 <= k < all.len() implies col_at_least(#[trigger] all[k], c) by {
        if k > 0 {
            assert(all[k] == rest[k - 1]);
        }
    }
}

proof fn lemma_parse_from_ordered(t: Seq<Token>, i: int, depth: nat, operand: bool)
    requires
        0 <= i,
        cols_increasing(t),
    ensures
        parse_from(t, i, depth, operand) matches Ok(terms) ==> {
            &&& terms_in_col_order(terms)
            &&& i < t.len() ==> forall|k: int| 0 <= k < terms.len() ==> col_at_least(#[trigger] terms[k], t[i].col as int)
            &&& i >= t.len() ==> terms.len() == 0
        },
    decreases t.len() - i,
{
    if i < t.len() {
        if operand {
            if t[i].kind == crate::lexer::TokenKind::LParen {
                lemma_parse_from_ordered(t, i + 1, depth + 1, true);
                if i + 1 < t.len() {
                    assert(t[i].col < t[i + 1].col);
                }
            } else {
                crate::linter::lemma_operand_advances(t, i);
                if let Ok((term, j)) = operand_at(t, i) {
                    lemma_parse_from_ordered(t, j, depth, false);
                    if let Ok(rest) = parse_from(t, j, depth, false) {
                        if j < t.len() {
                            assert(t[i].col < t[j].col);
                        }
                        lemma_prepend_ordered(term, rest, t[i].col as int);
                    }
                }
            }
        } else {
            match t[i].kind {
                crate::lexer::TokenKind::Plus | crate::lexer::TokenKind::Minus => {
                    lemma_parse_from_ordered(t, i + 1, depth, true);
                    if i + 1 < t.len() {
                        assert(t[i].col < t[i + 1].col);
                    }
                },
                crate::lexer::TokenKind::Star => {
                    if let Ok(v) = number_at(t, i + 1) {
                        lemma_parse_from_ordered(t, i + 2, depth, false);
                        if let Ok(rest) = parse_from(t, i + 2, depth, false) {
                            assert(t[i].col < t[i + 1].col);
                            if i + 2 < t.len() {
                                assert(t[i + 1].col < t[i + 2].col);
                            }
                            lemma_prepend_ordered(
                                Term::Multiplier { value: v, col: t[i + 1].col },
                                rest,
                                t[i + 1].col as int,
                            );
                            let all = seq![Term::Multiplier { value: v, col: t[i + 1].col }] + rest;
                            assert forall|k: int| 0 <= k < all.len() implies col_at_least(
                                #[trigger] all[k],
                                t[i].col as int,
                            ) by {
                                assert(col_at_least(all[k], t[i + 1].col as int));
                            }
                        }
                    }
                },
                crate::lexer::TokenKind::RParen => {
                    if depth > 0 {
                        lemma_parse_from_ordered(t, i + 1, (depth - 1) as nat, false);
                        if i + 1 < t.len() {
                            assert(t[i].col < t[i + 1].col);
                        }
                    }
                },
                _ => {},
            }
        }
    }
}

/// Every finding of `term_findings` is at the term's column.
proof fn lemma_term_findings_col(line: usize, term: Term)
    ensures
        forall|k: int|
            0 <= k < term_findings(line, term).len() ==> term_col(term) == Some(
                #[trigger] term_findings(line, term)[k].col,
            ),
{
    match term {
        Term::Dice(d) => {
            let a = count_findings(line, d);
            let b = sides_findings(line, d);
            let c = keep_findings(line, d);
            assert forall|k: int| 0 <= k < (a + b + c).len() implies #[trigger] (a + b + c)[k].col == d.col by {
                if k < a.len() {
                    assert((a + b + c)[k] == a[k]);
                } else if k < a.len() + b.len() {
                    assert((a + b + c)[k] == b[k - a.len()]);
                } else {
                    assert((a + b + c)[k] == c[k - a.len() - b.len()]);
                }
            }
        },
        _ => {},
    }
}

proof fn lemma_check_col_order(line: usize, terms: Seq<Term>)
    requires
        terms_in_col_order(terms),
    ensures
        forall|a: int, b: int|
            0 <= a < b < check(line, terms).len() ==> #[trigger] check(line, terms)[a].col
                <= #[trigger] check(line, terms)[b].col,
        forall|k: int|
            0 <= k < check(line, terms).len() ==> exists|m: int|
                0 <= m < terms.len() && term_col(#[trigger] terms[m]) == Some(
                    #[trigger] check(line, terms)[k].col,
                ),
    decreases terms.len(),
{
    if terms.len() > 0 {
        let init = terms.drop_last();
        let last = terms.last();
        assert forall|a: int, b: int| 0 <= a < b < init.len() implies (term_col(#[trigger] init[a]) matches Some(x)
            ==> col_at_least(#[trigger] init[b], x as int)) by {
            assert(init[a] == terms[a]);
            assert(init[b] == terms[b]);
        }
        lemma_check_col_order(line, init);
        lemma_term_findings_col(line, last);
        let p = check(line, init);
        let q = term_findings(line, last);
        assert(check(line, terms) == p + q);
        assert forall|k: int| 0 <= k < (p + q).len() implies exists|m: int|
            0 <= m < terms.len() && term_col(#[trigger] terms[m]) == Some(#[trigger] (p + q)[k].col) by {
            if k < p.len() {
                assert((p + q)[k] == p[k]);
                let m = choose|m: int| 0 <= m < init.len() && term_col(#[trigger] init[m]) == Some(#[trigger] p[k].col);
                assert(init[m] == terms[m]);
            } else {
                assert((p + q)[k] == q[k - p.len()]);
                assert(terms[terms.len() - 1] == last);
                assert(term_col(terms[terms.len() - 1]) == Some(q[k - p.len()].col));
            }
        }
        assert forall|a: int, b: int| 0 <= a < b < (p + q).len() implies #[trigger] (p + q)[a].col
            <= #[trigger] (p + q)[b].col by {
            if b < p.len() {
                assert((p + q)[a] == p[a]);
                assert((p + q)[b] == p[b]);
            } else if a < p.len() {
                assert((p + q)[a] == p[a]);
                assert((p + q)[b] == q[b - p.len()]);
                let m = choose|m: int| 0 <= m < init.len() && term_col(#[trigger] init[m]) == Some(#[trigger] p[a].col);
                assert(init[m] == terms[m]);
                assert(terms[terms.len() - 1] == last);
                assert(term_col(terms[m]) matches Some(x) ==> col_at_least(terms[terms.len() - 1], x as int));
            } else {
                assert((p + q)[a] == q[a - p.len()]);
                assert((p + q)[b] == q[b - p.len()]);
            }
        }
    }
}

/// Within one line, findings come in column order.
pub proof fn law_findings_in_column_order(line: usize, text: Seq<char>)
    requires
        text.len() <= usize::MAX,
    ensures
        forall|a: int, b: int|
            0 <= a < b < lint(line, text).len() ==> #[trigger] lint(line, text)[a].col
                <= #[trigger] lint(line, text)[b].col,
{
    let t = lex(text);
    if t.len() > 0 {
        lemma_lex_from_cols(text, 0);
        assert(cols_increasing(t));
        lemma_parse_from_ordered(t, 0, 0, true);
        if let Ok(terms) = parse(t) {
            lemma_check_col_order(line, terms);
        }
    }
}

proof fn lemma_digit_char(d: nat)
    requires
        d < 10,
    ensures
        is_digit(digit_char(d)),
        digit_value(digit_char(d)) == d,
        !is_white_space(digit_char(d)),
{
}

pub proof fn lemma_decimal(n: nat)
    ensures
        decimal(n).len() >= 1,
        forall|k: int| 0 <= k < decimal(n).len() ==> is_digit(#[trigger] decimal(n)[k]),
        decimal_value(decimal(n)) == n,
    decreases n,
{
    lemma_digit_char(n % 10);
    if n >= 10 {
        lemma_decimal(n / 10);
        let p = decimal(n / 10);
        let s = p.push(digit_char(n % 10));
        assert(s.drop_last() =~= p);
        assert(forall|k: int| 0 <= k < p.len() ==> s[k] == p[k]);
        assert(s.last() == digit_char(n % 10));
        assert(decimal_value(s) == decimal_value(p) * 10 + digit_value(digit_char(n % 10)));
        assert((n / 10) * 10 + n % 10 == n);
    } else {
        let s = seq![digit_char(n)];
        assert(s.drop_last() =~= Seq::<char>::empty());
        assert(s.last() == digit_char(n));
        assert(decimal_value(Seq::<char>::empty()) == 0);
        assert(decimal_value(s) == decimal_value(s.drop_last()) * 10 + digit_value(s.last()));
    }
}

proof fn lemma_digit_run_to_end(s: Seq<char>, i: int)
    requires
        0 <= i <= s.len(),
        forall|k: int| i <= k < s.len() ==> is_digit(#[trigger] s[k]),
    ensures
        digit_run_end(s, i) == s.len(),
    decreases s.len() - i,
{
    if i < s.len() {
        lemma_digit_run_to_end(s, i + 1);
    }
}

/// The tokens whose description in a parse error reads back as themselves:
/// all but an unknown character that is whitespace, a digit or a character
/// the lexer gives a meaning.
pub open spec fn describable(k: TokenKind) -> bool {
    match k {
        TokenKind::Unknown(c) => !is_white_space(c) && !is_digit(c) && c != 'd' && c != 'D' && c
            != 'k' && c != 'K' && c != '!' && c != '+' && c != '-' && c != '*' && c != '(' && c
            != ')',
        _ => true,
    }
}

/// How a parse error names a token lexes back to that token alone, at column 1.
pub proof fn law_describe_lexes_back(k: TokenKind)
    requires
        describable(k),
    ensures
        lex(describe_text(k)) == seq![Token { kind: k, col: 1 }],
{
    let s = describe_text(k);
    reveal_strlit("d");
    reveal_strlit("kh");
    reveal_strlit("kl");
    reveal_strlit("!");
    reveal_strlit("+");
    reveal_strlit("-");
    reveal_strlit("*");
    reveal_strlit("(");
    reveal_strlit(")");
    match k {
        TokenKind::Number(n) => {
            lemma_decimal(n as nat);
            lemma_digit_run_to_end(s, 0);
            assert(s.subrange(0, s.len() as int) =~= s);
            assert(!is_white_space(s[0]));
            assert(lex_from(s, s.len() as int) == Seq::<Token>::empty());
            assert(lex(s) =~= seq![Token { kind: k, col: 1 }]);
        },
        TokenKind::KeepHigh => {
            assert(s.len() == 2 && s[0] == 'k' && s[1] == 'h');
            assert(lex_from(s, 2) == Seq::<Token>::empty());
            assert(lex(s) =~= seq![Token { kind: k, col: 1 }]);
        },
        TokenKind::KeepLow => {
            assert(s.len() == 2 && s[0] == 'k' && s[1] == 'l');
            assert(lex_from(s, 2) == Seq::<Token>::empty());
            assert(lex(s) =~= seq![Token { kind: k, col: 1 }]);
        },
        _ => {
            assert(s.len() == 1);
            assert(lex_from(s, 1) == Seq::<Token>::empty());
            assert(lex(s) =~= seq![Token { kind: k, col: 1 }]);
        },
    }
}

/// Tokens with their columns moved `d` to the right.
pub open spec fn shift_cols(ts: Seq<Token>, d: int) -> Seq<Token> {
    ts.map_values(|tok: Token| Token { kind: tok.kind, col: (tok.col + d) as usize })
}

proof fn lemma_run_end_prefix(a: Seq<char>, s: Seq<char>, i: int)
    requires
        a.len() < s.len(),
        forall|k: int| 0 <= k < a.len() ==> s[k] == a[k],
        !is_digit(s[a.len() as int]),
        0 <= i <= a.len(),
    ensures
        digit_run_end(s, i) == digit_run_end(a, i),
    decreases a.len() - i,
{
    if i < a.len() && is_digit(a[i]) {
        lemma_run_end_prefix(a, s, i + 1);
    }
}

proof fn lemma_lex_prefix(a: Seq<char>, s: Seq<char>, i: int)
    requires
        a.len() < s.len(),
        forall|k: int| 0 <= k < a.len() ==> s[k] == a[k],
        is_white_space(s[a.len() as int]),
        0 <= i <= a.len(),
    ensures
        lex_from(s, i) == lex_from(a, i) + lex_from(s, a.len() as int),
    decreases a.len() - i,
{
    let n = a.len() as int;
    if i == n {
        assert(lex_from(a, i) + lex_from(s, n) =~= lex_from(s, n));
    } else {
        assert(s[i] == a[i]);
        if is_white_space(a[i]) {
            lemma_lex_prefix(a, s, i + 1);
        } else if is_digit(a[i]) {
            lemma_run_end_prefix(a, s, i);
            lemma_digit_run_end(a, i);
            let j = digit_run_end(a, i);
            assert(s.subrange(i, j) =~= a.subrange(i, j));
            lemma_lex_prefix(a, s, j);
            assert(lex_from(s, i) =~= lex_from(a, i) + lex_from(s, n));
        } else {
            if i + 1 < n {
                assert(s[i + 1] == a[i + 1]);
            }
            assert(symbol_kind(s, i) == symbol_kind(a, i));
            assert(symbol_width(s, i) == symbol_width(a, i));
            lemma_lex_prefix(a, s, i + symbol_width(a, i));
            assert(lex_from(s, i) =~= lex_from(a, i) + lex_from(s, n));
        }
    }
}

proof fn lemma_lex_skip_blank(s: Seq<char>, i: int, e: int)
    requires
        0 <= i <= e <= s.len(),
        forall|k: int| i <= k < e ==> is_white_space(#[trigger] s[k]),
    ensures
        lex_from(s, i) == lex_from(s, e),
    decreases e - i,
{
    if i < e {
        lemma_lex_skip_blank(s, i + 1, e);
    }
}

proof fn lemma_run_end_suffix(s: Seq<char>, b: Seq<char>, p: int, m: int)
    requires
        0 <= p,
        s.len() == p + b.len(),
        forall|k: int| 0 <= k < b.len() ==> s[p + k] == b[k],
        0 <= m <= b.len(),
    ensures
        digit_run_end(s, p + m) == p + digit_run_end(b, m),
    decreases b.len() - m,
{
    if m < b.len() {
        assert(s[p + m] == b[m]);
        if is_digit(b[m]) {
            lemma_run_end_suffix(s, b, p, m + 1);
        }
    }
}

proof fn lemma_lex_suffix(s: Seq<char>, b: Seq<char>, p: int, m: int)
    requires
        0 <= p,
        s.len() == p + b.len(),
        s.len() <= usize::MAX,
        forall|k: int| 0 <= k < b.len() ==> s[p + k] == b[k],
        0 <= m <= b.len(),
    ensures
        lex_from(s, p + m) == shift_cols(lex_from(b, m), p),
    decreases b.len() - m,
{
    if m == b.len() {
        assert(shift_cols(lex_from(b, m), p) =~= Seq::<Token>::empty());
    } else {
        assert(s[p + m] == b[m]);
        if is_white_space(b[m]) {
            lemma_lex_suffix(s, b, p, m + 1);
        } else if is_digit(b[m]) {
            lemma_run_end_suffix(s, b, p, m);
            lemma_digit_run_end(b, m);
            let j = digit_run_end(b, m);
            assert(s.subrange(p + m, p + j) =~= b.subrange(m, j));
            lemma_lex_suffix(s, b, p, j);
            let head = Token { kind: TokenKind::Number(saturate(decimal_value(b.subrange(m, j)))), col: (m + 1) as usize };
            assert(lex_from(b, m) == seq![head] + lex_from(b, j));
            assert(shift_cols(seq![head] + lex_from(b, j), p) =~= seq![Token { kind: head.kind, col: (p + m + 1) as usize }] + shift_cols(lex_from(b, j), p));
        } else {
            if m + 1 < b.len() {
                assert(s[p + m + 1] == b[m + 1]);
            }
            assert(symbol_kind(s, p + m) == symbol_kind(b, m));
            assert(symbol_width(s, p + m) == symbol_width(b, m));
            let j = m + symbol_width(b, m);
            lemma_lex_suffix(s, b, p, j);
            let head = Token { kind: symbol_kind(b, m), col: (m + 1) as usize };
            assert(lex_from(b, m) == seq![head] + lex_from(b, j));
            assert(shift_cols(seq![head] + lex_from(b, j), p) =~= seq![Token { kind: head.kind, col: (p + m + 1) as usize }] + shift_cols(lex_from(b, j), p));
        }
    }
}

/// Whitespace between two pieces of text separates their tokens: the tokens
/// of `a + w + b` are those of `a`, then those of `b` with their columns
/// moved right by the length of `a + w`.
pub proof fn law_whitespace_separates(a: Seq<char>, w: Seq<char>, b: Seq<char>)
    requires
        w.len() > 0,
        forall|k: int| 0 <= k < w.len() ==> is_white_space(#[trigger] w[k]),
        a.len() + w.len() + b.len() <= usize::MAX,
    ensures
        lex(a + w + b) == lex(a) + shift_cols(lex(b), (a.len() + w.len()) as int),
{
    let s = a + w + b;
    let p = (a.len() + w.len()) as int;
    assert(forall|k: int| 0 <= k < a.len() ==> s[k] == a[k]);
    assert(s[a.len() as int] == w[0]);
    lemma_lex_prefix(a, s, 0);
    assert forall|k: int| a.len() <= k < p implies is_white_space(#[trigger] s[k]) by {
        assert(s[k] == w[k - a.len()]);
    }
    lemma_lex_skip_blank(s, a.len() as int, p);
    assert forall|k: int| 0 <= k < b.len() implies s[p + k] == b[k] by {}
    lemma_lex_suffix(s, b, p, 0);
}

} // verus!
