//! What each operation does, stated over all inputs with literal token kinds,
//! codes and conditions (the README's notation and rule table), and proved
//! from the specifications that the executable functions meet.

use vstd::prelude::*;
use crate::laws::lemma_decimal;
use crate::lexer::{digit_run_end, lex, lex_from, Token, TokenKind};
use crate::linter::{
    check, count_findings, keep_at, keep_findings, lint, number_at, operand_at, prepend, skip_bang, parse, parse_from, sides_findings,
    term_findings, level_text, describe_text, DiceTerm, FindingView, Keep, ParseFailure, Severity, Term,
};
use crate::run::{fails, first_non_space, is_skipped, lint_all};
use crate::text::{decimal, decimal_value, is_digit, is_white_space};

verus! {

/// One step of the lexer at character `i`, for every kind of character.
pub proof fn law_lex_step(s: Seq<char>, i: int)
    requires
        0 <= i < s.len(),
    ensures
        is_white_space(s[i]) ==> lex_from(s, i) == lex_from(s, i + 1),
        s[i] == 'd' || s[i] == 'D' ==> lex_from(s, i) == seq![Token { kind: TokenKind::Die, col: (i + 1) as usize }] + lex_from(s, i + 1),
        s[i] == '!' ==> lex_from(s, i) == seq![Token { kind: TokenKind::Bang, col: (i + 1) as usize }] + lex_from(s, i + 1),
        s[i] == '+' ==> lex_from(s, i) == seq![Token { kind: TokenKind::Plus, col: (i + 1) as usize }] + lex_from(s, i + 1),
        s[i] == '-' ==> lex_from(s, i) == seq![Token { kind: TokenKind::Minus, col: (i + 1) as usize }] + lex_from(s, i + 1),
        s[i] == '*' ==> lex_from(s, i) == seq![Token { kind: TokenKind::Star, col: (i + 1) as usize }] + lex_from(s, i + 1),
        s[i] == '(' ==> lex_from(s, i) == seq![Token { kind: TokenKind::LParen, col: (i + 1) as usize }] + lex_from(s, i + 1),
        s[i] == ')' ==> lex_from(s, i) == seq![Token { kind: TokenKind::RParen, col: (i + 1) as usize }] + lex_from(s, i + 1),
        (s[i] == 'k' || s[i] == 'K') && i + 1 < s.len() && (s[i + 1] == 'h' || s[i + 1] == 'H')
            ==> lex_from(s, i) == seq![Token { kind: TokenKind::KeepHigh, col: (i + 1) as usize }] + lex_from(s, i + 2),
        (s[i] == 'k' || s[i] == 'K') && i + 1 < s.len() && (s[i + 1] == 'l' || s[i + 1] == 'L')
            ==> lex_from(s, i) == seq![Token { kind: TokenKind::KeepLow, col: (i + 1) as usize }] + lex_from(s, i + 2),
        (s[i] == 'k' || s[i] == 'K') && !(i + 1 < s.len() && (s[i + 1] == 'h' || s[i + 1] == 'H'
            || s[i + 1] == 'l' || s[i + 1] == 'L'))
            ==> lex_from(s, i) == seq![Token { kind: TokenKind::KeepHigh, col: (i + 1) as usize }] + lex_from(s, i + 1),
        !is_white_space(s[i]) && !is_digit(s[i]) && s[i] != 'd' && s[i] != 'D' && s[i] != 'k' && s[i] != 'K'
            && s[i] != '!' && s[i] != '+' && s[i] != '-' && s[i] != '*' && s[i] != '(' && s[i] != ')'
            ==> lex_from(s, i) == seq![Token { kind: TokenKind::Unknown(s[i]), col: (i + 1) as usize }] + lex_from(s, i + 1),
{
}

proof fn lemma_run_end_at(s: Seq<char>, i: int, j: int)
    requires
        0 <= i <= j <= s.len(),
        forall|k: int| i <= k < j ==> is_digit(#[trigger] s[k]),
        j == s.len() || !is_digit(s[j]),
    ensures
        digit_run_end(s, i) == j,
    decreases j - i,
{
    if i < j {
        lemma_run_end_at(s, i + 1, j);
    }
}

/// A maximal run of digits `s[i..j]` is one number token at column `i + 1`,
/// whose value is the run's decimal value, or `u64::MAX` where that does not
/// fit; lexing goes on at `j`.
pub proof fn law_lex_number(s: Seq<char>, i: int, j: int)
    requires
        0 <= i < j <= s.len(),
        forall|k: int| i <= k < j ==> is_digit(#[trigger] s[k]),
        j == s.len() || !is_digit(s[j]),
    ensures
        lex_from(s, i) == seq![Token {
            kind: TokenKind::Number(
                if decimal_value(s.subrange(i, j)) <= u64::MAX {
                    decimal_value(s.subrange(i, j)) as u64
                } else {
                    u64::MAX
                },
            ),
            col: (i + 1) as usize,
        }] + lex_from(s, j),
{
    lemma_run_end_at(s, i, j);
    assert(is_digit(s[i]));
}

/// The documented codes are pairwise distinct.
pub proof fn lemma_codes_distinct()
    ensures
        "E001"@ != "E002"@,
        "E001"@ != "E003"@,
        "E001"@ != "E004"@,
        "E001"@ != "W001"@,
        "E001"@ != "W002"@,
        "E001"@ != "W003"@,
        "E001"@ != "E000"@,
        "E002"@ != "E003"@,
        "E002"@ != "E004"@,
        "E002"@ != "W001"@,
        "E002"@ != "W002"@,
        "E002"@ != "W003"@,
        "E002"@ != "E000"@,
        "E003"@ != "E004"@,
        "E003"@ != "W001"@,
        "E003"@ != "W002"@,
        "E003"@ != "W003"@,
        "E003"@ != "E000"@,
        "E004"@ != "W001"@,
        "E004"@ != "W002"@,
        "E004"@ != "W003"@,
        "E004"@ != "E000"@,
        "W001"@ != "W002"@,
        "W001"@ != "W003"@,
        "W001"@ != "E000"@,
        "W002"@ != "W003"@,
        "W002"@ != "E000"@,
        "W003"@ != "E000"@,
{
    reveal_strlit("E001");
    reveal_strlit("E002");
    reveal_strlit("E003");
    reveal_strlit("E004");
    reveal_strlit("W001");
    reveal_strlit("W002");
    reveal_strlit("W003");
    reveal_strlit("E000");
    assert("E001"@[3] != "E002"@[3]);
    assert("E001"@[3] != "E003"@[3]);
    assert("E001"@[3] != "E004"@[3]);
    assert("E001"@[0] != "W001"@[0]);
    assert("E001"@[0] != "W002"@[0]);
    assert("E001"@[0] != "W003"@[0]);
    assert("E001"@[3] != "E000"@[3]);
    assert("E002"@[3] != "E003"@[3]);
    assert("E002"@[3] != "E004"@[3]);
    assert("E002"@[0] != "W001"@[0]);
    assert("E002"@[0] != "W002"@[0]);
    assert("E002"@[0] != "W003"@[0]);
    assert("E002"@[3] != "E000"@[3]);
    assert("E003"@[3] != "E004"@[3]);
    assert("E003"@[0] != "W001"@[0]);
    assert("E003"@[0] != "W002"@[0]);
    assert("E003"@[0] != "W003"@[0]);
    assert("E003"@[3] != "E000"@[3]);
    assert("E004"@[0] != "W001"@[0]);
    assert("E004"@[0] != "W002"@[0]);
    assert("E004"@[0] != "W003"@[0]);
    assert("E004"@[3] != "E000"@[3]);
    assert("W001"@[3] != "W002"@[3]);
    assert("W001"@[3] != "W003"@[3]);
    assert("W001"@[0] != "E000"@[0]);
    assert("W002"@[3] != "W003"@[3]);
    assert("W002"@[0] != "E000"@[0]);
    assert("W003"@[0] != "E000"@[0]);
}

/// The rule table for a dice term: which codes its findings carry, exactly
/// when, and that they are reported on its line at its column.
pub proof fn law_dice_rules(line: usize, d: DiceTerm)
    ensures
        ({
            let fs = term_findings(line, Term::Dice(d));
            &&& (exists|k: int| 0 <= k < fs.len() && #[trigger] fs[k].code == "E001"@) <==> d.count == 0
            &&& (exists|k: int| 0 <= k < fs.len() && #[trigger] fs[k].code == "W002"@) <==> d.count > 1000
            &&& (exists|k: int| 0 <= k < fs.len() && #[trigger] fs[k].code == "E002"@) <==> d.sides == 0
            &&& (exists|k: int| 0 <= k < fs.len() && #[trigger] fs[k].code == "W001"@) <==> d.sides == 1
            &&& (exists|k: int| 0 <= k < fs.len() && #[trigger] fs[k].code == "E003"@) <==> (d.keep matches Some((_, a)) && a == 0)
            &&& (exists|k: int| 0 <= k < fs.len() && #[trigger] fs[k].code == "W003"@) <==> (d.keep matches Some((_, a)) && 0 < a && 0 < d.count && d.count <= a)
            &&& forall|k: int| 0 <= k < fs.len() ==> {
                &&& (#[trigger] fs[k]).line == line
                &&& fs[k].col == d.col
                &&& (fs[k].code == "E001"@ || fs[k].code == "W002"@ || fs[k].code == "E002"@
                    || fs[k].code == "W001"@ || fs[k].code == "E003"@ || fs[k].code == "W003"@)
            }
        }),
{
    lemma_codes_distinct();
    let a = count_findings(line, d);
    let b = sides_findings(line, d);
    let c = keep_findings(line, d);
    let fs = term_findings(line, Term::Dice(d));
    assert(fs == (a + b) + c);
    let codes = seq!["E001"@, "W002"@, "E002"@, "W001"@, "E003"@, "W003"@];
    assert forall|i: int| 0 <= i < 6 implies #[trigger] has_code(fs, codes[i]) == (has_code(a, codes[i])
        || has_code(b, codes[i]) || has_code(c, codes[i])) by {
        lemma_has_code_concat(a, b, codes[i]);
        lemma_has_code_concat(a + b, c, codes[i]);
    }
    if a.len() > 0 {
        assert(has_code(a, a[0].code));
    }
    if b.len() > 0 {
        assert(has_code(b, b[0].code));
    }
    if c.len() > 0 {
        assert(has_code(c, c[0].code));
    }
    assert(has_code(fs, codes[0]) == has_code(fs, "E001"@));
    assert(has_code(fs, codes[1]) == has_code(fs, "W002"@));
    assert(has_code(fs, codes[2]) == has_code(fs, "E002"@));
    assert(has_code(fs, codes[3]) == has_code(fs, "W001"@));
    assert(has_code(fs, codes[4]) == has_code(fs, "E003"@));
    assert(has_code(fs, codes[5]) == has_code(fs, "W003"@));
    assert forall|k: int| 0 <= k < fs.len() implies {
        &&& (#[trigger] fs[k]).line == line
        &&& fs[k].col == d.col
        &&& (fs[k].code == "E001"@ || fs[k].code == "W002"@ || fs[k].code == "E002"@
            || fs[k].code == "W001"@ || fs[k].code == "E003"@ || fs[k].code == "W003"@)
    } by {
        if k < a.len() {
            assert(fs[k] == a[k]);
        } else if k < a.len() + b.len() {
            assert(fs[k] == b[k - a.len()]);
        } else {
            assert(fs[k] == c[k - a.len() - b.len()]);
        }
    }
}

/// Some finding of `fs` carries `code`.
pub open spec fn has_code(fs: Seq<FindingView>, code: Seq<char>) -> bool {
    exists|k: int| 0 <= k < fs.len() && #[trigger] fs[k].code == code
}

proof fn lemma_has_code_concat(a: Seq<FindingView>, b: Seq<FindingView>, code: Seq<char>)
    ensures
        has_code(a + b, code) == (has_code(a, code) || has_code(b, code)),
{
    if has_code(a + b, code) {
        let k = choose|k: int| 0 <= k < (a + b).len() && #[trigger] (a + b)[k].code == code;
        if k < a.len() {
            assert(a[k] == (a + b)[k]);
        } else {
            assert(b[k - a.len()] == (a + b)[k]);
        }
    }
    if has_code(a, code) {
        let k = choose|k: int| 0 <= k < a.len() && #[trigger] a[k].code == code;
        assert((a + b)[k] == a[k]);
    }
    if has_code(b, code) {
        let k = choose|k: int| 0 <= k < b.len() && #[trigger] b[k].code == code;
        assert((a + b)[a.len() + k] == b[k]);
    }
}

/// The rule for a multiplier: a finding exactly when it is zero, and then one
/// `E004` error at its column. A plain number gets no finding.
pub proof fn law_multiplier_and_flat_rules(line: usize, value: u64, col: usize)
    ensures
        ({
            let fs = term_findings(line, Term::Multiplier { value, col });
            &&& (fs.len() > 0 <==> value == 0)
            &&& fs.len() <= 1
            &&& forall|k: int| 0 <= k < fs.len() ==> (#[trigger] fs[k]).code == "E004"@ && fs[k].col == col
                && fs[k].line == line && fs[k].severity == Severity::Error
        }),
        term_findings(line, Term::Flat).len() == 0,
{
}

/// The findings of a line that parses to a single term are that term's.
proof fn lemma_check_single(line: usize, term: Term)
    ensures
        check(line, seq![term]) == term_findings(line, term),
{
    let ts = seq![term];
    assert(ts.drop_last() =~= Seq::<Term>::empty());
    assert(ts.last() == term);
    assert(check(line, Seq::<Term>::empty()) == Seq::<FindingView>::empty());
    assert(check(line, ts) == check(line, ts.drop_last()) + term_findings(line, term));
    assert(Seq::<FindingView>::empty() + term_findings(line, term) =~= term_findings(line, term));
}

/// A run of digits written at `p..p + |decimal(n)|` of `s`, followed by a
/// non-digit or the end, is the number token `n` at column `p + 1`.
proof fn lemma_lex_decimal_at(s: Seq<char>, p: int, n: u64)
    requires
        0 <= p,
        p + decimal(n as nat).len() <= s.len(),
        s.subrange(p, p + decimal(n as nat).len()) == decimal(n as nat),
        p + decimal(n as nat).len() == s.len() || !is_digit(s[p + decimal(n as nat).len()]),
    ensures
        lex_from(s, p) == seq![Token { kind: TokenKind::Number(n), col: (p + 1) as usize }] + lex_from(
            s,
            p + decimal(n as nat).len(),
        ),
{
    let e = p + decimal(n as nat).len();
    lemma_decimal(n as nat);
    assert forall|k: int| p <= k < e implies is_digit(#[trigger] s[k]) by {
        assert(s[k] == s.subrange(p, e)[k - p]);
    }
    law_lex_number(s, p, e);
}

/// `k` directly before a number is a one-character keep-highest token; the
/// digits after it are the number.
pub proof fn law_k_then_number(n: u64)
    ensures
        lex("k"@ + decimal(n as nat)) == seq![
            Token { kind: TokenKind::KeepHigh, col: 1 },
            Token { kind: TokenKind::Number(n), col: 2 },
        ],
{
    reveal_strlit("k");
    let s = "k"@ + decimal(n as nat);
    lemma_decimal(n as nat);
    assert(s[1] == decimal(n as nat)[0]);
    law_lex_step(s, 0);
    assert(s.subrange(1, s.len() as int) =~= decimal(n as nat));
    lemma_lex_decimal_at(s, 1, n);
    assert(lex_from(s, s.len() as int) == Seq::<Token>::empty());
}

/// The text `NdMkX` (a bare `k` keeps the highest `X`) is the one dice term
/// count `N`, sides `M`, keep-highest `X`, at column 1; with `N` in `1..=1000`,
/// `M >= 2` and `0 < X < N` it has no findings.
pub proof fn law_bare_k_keeps_highest(line: usize, n: u64, m: u64, x: u64)
    ensures
        ({
            let s = decimal(n as nat) + "d"@ + decimal(m as nat) + "k"@ + decimal(x as nat);
            &&& parse(lex(s)) == Ok::<Seq<Term>, ParseFailure>(
                seq![Term::Dice(DiceTerm { count: n, sides: m, keep: Some((Keep::High, x)), col: 1 })],
            )
            &&& (1 <= n <= 1000 && 2 <= m && 0 < x < n) ==> lint(line, s).len() == 0
        }),
{
    reveal_strlit("d");
    reveal_strlit("k");
    let a = decimal(n as nat);
    let b = decimal(m as nat);
    let c = decimal(x as nat);
    lemma_decimal(n as nat);
    lemma_decimal(m as nat);
    lemma_decimal(x as nat);
    let s = a + "d"@ + b + "k"@ + c;
    let p = a.len() as int;
    let q = p + 1 + b.len();
    assert(s.len() == q + 1 + c.len());
    assert(s[p] == 'd');
    assert(s[q] == 'k');
    assert(s[q + 1] == c[0]);
    assert(s.subrange(0, p) =~= a);
    assert(s.subrange(p + 1, q) =~= b);
    assert(s.subrange(q + 1, s.len() as int) =~= c);
    lemma_lex_decimal_at(s, 0, n);
    law_lex_step(s, p);
    lemma_lex_decimal_at(s, p + 1, m);
    law_lex_step(s, q);
    lemma_lex_decimal_at(s, q + 1, x);
    assert(lex_from(s, s.len() as int) == Seq::<Token>::empty());
    let t = lex(s);
    assert(t =~= seq![
        Token { kind: TokenKind::Number(n), col: 1 },
        Token { kind: TokenKind::Die, col: (p + 1) as usize },
        Token { kind: TokenKind::Number(m), col: (p + 2) as usize },
        Token { kind: TokenKind::KeepHigh, col: (q + 1) as usize },
        Token { kind: TokenKind::Number(x), col: (q + 2) as usize },
    ]);
    let d = DiceTerm { count: n, sides: m, keep: Some((Keep::High, x)), col: 1 };
    assert(parse_from(t, 5, 0, false) == Ok::<Seq<Term>, ParseFailure>(seq![]));
    assert(operand_at(t, 0) == Ok::<(Term, int), ParseFailure>((Term::Dice(d), 5)));
    assert(parse(t) =~= Ok::<Seq<Term>, ParseFailure>(seq![Term::Dice(d)]));
    lemma_check_single(line, Term::Dice(d));
}

/// The text `NdM` is the one dice term count `N`, sides `M`, at column 1;
/// with `N` in `1..=1000` and `M >= 2` it has no findings, and it has a
/// `W001` exactly when `M == 1`.
pub proof fn law_plain_dice_text(line: usize, n: u64, m: u64)
    ensures
        ({
            let s = decimal(n as nat) + "d"@ + decimal(m as nat);
            &&& parse(lex(s)) == Ok::<Seq<Term>, ParseFailure>(
                seq![Term::Dice(DiceTerm { count: n, sides: m, keep: None, col: 1 })],
            )
            &&& (1 <= n <= 1000 && 2 <= m) ==> lint(line, s).len() == 0
            &&& (exists|k: int| 0 <= k < lint(line, s).len() && #[trigger] lint(line, s)[k].code == "W001"@) <==> m == 1
        }),
{
    reveal_strlit("d");
    let a = decimal(n as nat);
    let b = decimal(m as nat);
    lemma_decimal(n as nat);
    lemma_decimal(m as nat);
    let s = a + "d"@ + b;
    let p = a.len() as int;
    assert(s[p] == 'd');
    assert(s.subrange(0, p) =~= a);
    assert(s.subrange(p + 1, s.len() as int) =~= b);
    lemma_lex_decimal_at(s, 0, n);
    law_lex_step(s, p);
    lemma_lex_decimal_at(s, p + 1, m);
    assert(lex_from(s, s.len() as int) == Seq::<Token>::empty());
    let t = lex(s);
    assert(t =~= seq![
        Token { kind: TokenKind::Number(n), col: 1 },
        Token { kind: TokenKind::Die, col: (p + 1) as usize },
        Token { kind: TokenKind::Number(m), col: (p + 2) as usize },
    ]);
    let d = DiceTerm { count: n, sides: m, keep: None, col: 1 };
    assert(parse_from(t, 3, 0, false) == Ok::<Seq<Term>, ParseFailure>(seq![]));
    assert(operand_at(t, 0) == Ok::<(Term, int), ParseFailure>((Term::Dice(d), 3)));
    assert(parse(t) =~= Ok::<Seq<Term>, ParseFailure>(seq![Term::Dice(d)]));
    lemma_check_single(line, Term::Dice(d));
    law_dice_rules(line, d);
}

proof fn lemma_first_non_space_at(s: Seq<char>, i: int, k: int)
    requires
        0 <= i <= k <= s.len(),
        forall|j: int| i <= j < k ==> is_white_space(#[trigger] s[j]),
        k == s.len() || !is_white_space(s[k]),
    ensures
        first_non_space(s, i) == k,
    decreases k - i,
{
    if i < k {
        lemma_first_non_space_at(s, i + 1, k);
    }
}

/// A line is skipped exactly when it is blank or its first non-whitespace
/// character is `#`, whatever follows the `#`.
pub proof fn law_comment_lines(s: Seq<char>)
    ensures
        (exists|k: int| 0 <= k < s.len() && #[trigger] s[k] == '#' && forall|j: int| 0 <= j < k ==> is_white_space(s[j]))
            ==> is_skipped(s),
        (forall|j: int| 0 <= j < s.len() ==> is_white_space(#[trigger] s[j])) ==> is_skipped(s),
        (exists|k: int| 0 <= k < s.len() && !is_white_space(#[trigger] s[k]) && s[k] != '#' && forall|j: int| 0 <= j < k ==> is_white_space(s[j]))
            ==> !is_skipped(s),
{
    if exists|k: int| 0 <= k < s.len() && #[trigger] s[k] == '#' && forall|j: int| 0 <= j < k ==> is_white_space(s[j]) {
        let k = choose|k: int| 0 <= k < s.len() && #[trigger] s[k] == '#' && forall|j: int| 0 <= j < k ==> is_white_space(s[j]);
        lemma_first_non_space_at(s, 0, k);
    }
    if forall|j: int| 0 <= j < s.len() ==> is_white_space(#[trigger] s[j]) {
        lemma_first_non_space_at(s, 0, s.len() as int);
    }
    if exists|k: int| 0 <= k < s.len() && !is_white_space(#[trigger] s[k]) && s[k] != '#' && forall|j: int| 0 <= j < k ==> is_white_space(s[j]) {
        let k = choose|k: int| 0 <= k < s.len() && !is_white_space(#[trigger] s[k]) && s[k] != '#' && forall|j: int| 0 <= j < k ==> is_white_space(s[j]);
        lemma_first_non_space_at(s, 0, k);
    }
}

/// In a file, a comment line (first non-whitespace character `#`) or a blank
/// line gets no finding.
pub proof fn law_comment_lines_have_no_findings(lines: Seq<Seq<char>>, i: int)
    requires
        lines.len() <= usize::MAX,
        forall|k: int| 0 <= k < lines.len() ==> #[trigger] lines[k].len() <= usize::MAX,
        0 <= i < lines.len(),
        (forall|j: int| 0 <= j < lines[i].len() ==> is_white_space(#[trigger] lines[i][j]))
            || (exists|k: int| 0 <= k < lines[i].len() && #[trigger] lines[i][k] == '#' && forall|j: int| 0 <= j < k ==> is_white_space(lines[i][j])),
    ensures
        forall|k: int| 0 <= k < lint_all(lines).len() ==> (#[trigger] lint_all(lines)[k]).line != i + 1,
{
    law_comment_lines(lines[i]);
    crate::laws::law_file_findings_in_line_order(lines);
}

/// Whether a run fails: leniently, exactly when some finding is an error;
/// strictly, exactly when there is any finding at all.
pub proof fn law_failure(fs: Seq<FindingView>)
    ensures
        fails(fs, true) <==> (exists|k: int| 0 <= k < fs.len() && #[trigger] fs[k].severity == Severity::Error),
        fails(fs, false) <==> fs.len() > 0,
        (exists|k: int| 0 <= k < fs.len() && #[trigger] fs[k].severity == Severity::Error) ==> fails(fs, true) && fails(fs, false),
{
    if fs.len() > 0 {
        let s = fs[0].severity;
        assert(s == Severity::Error || s == Severity::Warning);
    }
}

/// `render` writes `error` for an error and `warning` for a warning.
pub proof fn law_level_words()
    ensures
        level_text(Severity::Error) == "error"@,
        level_text(Severity::Warning) == "warning"@,
{
}

/// A dice term written without its count (`dM`) rolls one die: the text
/// `dM` is the one dice term count 1, sides `M`, at column 1.
pub proof fn law_count_defaults_to_one(m: u64)
    ensures
        parse(lex("d"@ + decimal(m as nat))) == Ok::<Seq<Term>, ParseFailure>(
            seq![Term::Dice(DiceTerm { count: 1, sides: m, keep: None, col: 1 })],
        ),
{
    reveal_strlit("d");
    let b = decimal(m as nat);
    lemma_decimal(m as nat);
    let s = "d"@ + b;
    assert(s[0] == 'd');
    assert(s.subrange(1, s.len() as int) =~= b);
    law_lex_step(s, 0);
    lemma_lex_decimal_at(s, 1, m);
    assert(lex_from(s, s.len() as int) == Seq::<Token>::empty());
    let t = lex(s);
    assert(t =~= seq![
        Token { kind: TokenKind::Die, col: 1 },
        Token { kind: TokenKind::Number(m), col: 2 },
    ]);
    let d = DiceTerm { count: 1, sides: m, keep: None, col: 1 };
    assert(parse_from(t, 2, 0, false) == Ok::<Seq<Term>, ParseFailure>(seq![]));
    assert(operand_at(t, 0) == Ok::<(Term, int), ParseFailure>((Term::Dice(d), 2)));
    assert(parse(t) =~= Ok::<Seq<Term>, ParseFailure>(seq![Term::Dice(d)]));
}

/// The severity of each rule finding of a dice term follows its code (`E`
/// errors, `W` warnings), and the messages are those the documentation shows.
pub proof fn law_dice_messages(line: usize, d: DiceTerm)
    ensures
        forall|k: int| 0 <= k < term_findings(line, Term::Dice(d)).len() ==> {
            let f = #[trigger] term_findings(line, Term::Dice(d))[k];
            &&& (f.severity == Severity::Error <==> (f.code == "E001"@ || f.code == "E002"@ || f.code == "E003"@))
            &&& (f.code == "E001"@ ==> f.message == "dice count is zero, this term always contributes nothing"@)
            &&& (f.code == "E002"@ ==> f.message == "a die cannot have zero sides"@)
            &&& (f.code == "W002"@ ==> f.message == "dice count "@ + decimal(d.count as nat) + " is unusually large, check for a typo"@)
            &&& (f.code == "W003"@ ==> f.message == "keep modifier keeps all dice, it has no effect here"@)
        },
{
    lemma_codes_distinct();
    let a = count_findings(line, d);
    let b = sides_findings(line, d);
    let c = keep_findings(line, d);
    let fs = term_findings(line, Term::Dice(d));
    assert(fs == (a + b) + c);
    assert forall|k: int| 0 <= k < fs.len() implies {
        let f = #[trigger] fs[k];
        &&& (f.severity == Severity::Error <==> (f.code == "E001"@ || f.code == "E002"@ || f.code == "E003"@))
        &&& (f.code == "E001"@ ==> f.message == "dice count is zero, this term always contributes nothing"@)
        &&& (f.code == "E002"@ ==> f.message == "a die cannot have zero sides"@)
        &&& (f.code == "W002"@ ==> f.message == "dice count "@ + decimal(d.count as nat) + " is unusually large, check for a typo"@)
        &&& (f.code == "W003"@ ==> f.message == "keep modifier keeps all dice, it has no effect here"@)
    } by {
        if k < a.len() {
            assert(fs[k] == a[k]);
        } else if k < a.len() + b.len() {
            assert(fs[k] == b[k - a.len()]);
        } else {
            assert(fs[k] == c[k - a.len() - b.len()]);
        }
    }
}

/// Token kinds that can continue an operand (`N` `d` `kh` `kl` `!`).
pub open spec fn continues_operand(k: TokenKind) -> bool {
    match k {
        TokenKind::Number(_) => true,
        TokenKind::Die => true,
        TokenKind::KeepHigh => true,
        TokenKind::KeepLow => true,
        TokenKind::Bang => true,
        _ => false,
    }
}

/// `t` stands in `s` at offset `p`, and what follows it (if anything) cannot
/// continue an operand.
pub open spec fn embedded(s: Seq<Token>, p: int, t: Seq<Token>) -> bool {
    &&& 0 <= p
    &&& p + t.len() <= s.len()
    &&& forall|k: int| 0 <= k < t.len() ==> s[p + k] == #[trigger] t[k]
    &&& (p + t.len() < s.len() ==> !continues_operand(s[p + t.len()].kind))
}

proof fn lemma_operand_embed(s: Seq<Token>, p: int, t: Seq<Token>, i: int)
    requires
        embedded(s, p, t),
        0 <= i < t.len(),
    ensures
        operand_at(t, i) matches Ok((term, j)) ==> operand_at(s, p + i) == Ok::<(Term, int), ParseFailure>((term, p + j)),
{
    let n = t.len() as int;
    assert forall|k: int| 0 <= k <= n implies #[trigger] keep_at(s, p + k) == keep_at(t, k) && skip_bang(s, p + k) == p + skip_bang(t, k) by {
        if k < n {
            assert(s[p + k] == t[k]);
        }
    }
    assert forall|k: int| 0 <= k && #[trigger] number_at(t, k) is Ok implies number_at(s, p + k) == number_at(t, k) by {
        assert(s[p + k] == t[k]);
    }
    assert(s[p + i] == t[i]);
    if i + 1 < n {
        assert(s[p + i + 1] == t[i + 1]);
    }
}

proof fn lemma_parse_embed(s: Seq<Token>, p: int, t: Seq<Token>, i: int, d: nat, extra: nat, operand: bool)
    requires
        embedded(s, p, t),
        0 <= i <= t.len(),
    ensures
        parse_from(t, i, d, operand) matches Ok(ts) ==> parse_from(s, p + i, d + extra, operand) == prepend(
            ts,
            parse_from(s, p + t.len(), extra, false),
        ),
    decreases t.len() - i,
{
    let n = t.len() as int;
    if i == n {
        if let Ok(ts) = parse_from(t, i, d, operand) {
            assert(ts =~= Seq::<Term>::empty());
            assert(d == 0 && !operand);
            if let Ok(rest) = parse_from(s, p + n, extra, false) {
                assert(ts + rest =~= rest);
            }
        }
    } else {
        assert(s[p + i] == t[i]);
        if operand {
            if t[i].kind == TokenKind::LParen {
                lemma_parse_embed(s, p, t, i + 1, d + 1, extra, true);
                assert(d + 1 + extra == d + extra + 1);
            } else {
                lemma_operand_embed(s, p, t, i);
                crate::linter::lemma_operand_advances(t, i);
                if let Ok((term, j)) = operand_at(t, i) {
                    lemma_parse_embed(s, p, t, j, d, extra, false);
                    if let Ok(rest) = parse_from(t, j, d, false) {
                        crate::grammar::lemma_prepend_assoc(seq![term], rest, parse_from(s, p + n, extra, false));
                    }
                }
            }
        } else {
            match t[i].kind {
                TokenKind::Plus => lemma_parse_embed(s, p, t, i + 1, d, extra, true),
                TokenKind::Minus => lemma_parse_embed(s, p, t, i + 1, d, extra, true),
                TokenKind::Star => {
                    if let Ok(v) = number_at(t, i + 1) {
                        assert(s[p + i + 1] == t[i + 1]);
                        lemma_parse_embed(s, p, t, i + 2, d, extra, false);
                        if let Ok(rest) = parse_from(t, i + 2, d, false) {
                            crate::grammar::lemma_prepend_assoc(
                                seq![Term::Multiplier { value: v, col: t[i + 1].col }],
                                rest,
                                parse_from(s, p + n, extra, false),
                            );
                        }
                    }
                },
                TokenKind::RParen => {
                    if d > 0 {
                        lemma_parse_embed(s, p, t, i + 1, (d - 1) as nat, extra, false);
                        assert((d - 1) as nat + extra == (d + extra - 1) as nat);
                    }
                },
                _ => {},
            }
        }
    }
}

/// `A + B` and `A - B` parse to the terms of `A` followed by those of `B`.
pub proof fn law_parse_sum(a: Seq<Token>, sign: Token, b: Seq<Token>)
    requires
        a.len() > 0,
        b.len() > 0,
        sign.kind == TokenKind::Plus || sign.kind == TokenKind::Minus,
        parse(a) is Ok,
        parse(b) is Ok,
    ensures
        parse(a + seq![sign] + b) == Ok::<Seq<Term>, ParseFailure>(parse(a)->Ok_0 + parse(b)->Ok_0),
{
    let s = a + seq![sign] + b;
    let n = a.len() as int;
    assert(embedded(s, 0, a)) by {
        assert forall|k: int| 0 <= k < a.len() implies s[0 + k] == #[trigger] a[k] by {}
        assert(s[n] == sign);
    }
    assert(embedded(s, n + 1, b)) by {
        assert forall|k: int| 0 <= k < b.len() implies s[n + 1 + k] == #[trigger] b[k] by {}
    }
    lemma_parse_embed(s, 0, a, 0, 0, 0, true);
    assert(s[n] == sign);
    assert(parse_from(s, n, 0, false) == parse_from(s, n + 1, 0, true));
    lemma_parse_embed(s, n + 1, b, 0, 0, 0, true);
    assert(parse_from(s, s.len() as int, 0, false) == Ok::<Seq<Term>, ParseFailure>(seq![]));
    let tb = parse(b)->Ok_0;
    assert(tb + Seq::<Term>::empty() =~= tb);
}

/// `A * V` parses to the terms of `A` followed by the multiplier `V`, at the
/// column of `V`.
pub proof fn law_parse_scaled(a: Seq<Token>, star: Token, num: Token, v: u64)
    requires
        a.len() > 0,
        star.kind == TokenKind::Star,
        num.kind == TokenKind::Number(v),
        parse(a) is Ok,
    ensures
        parse(a + seq![star, num]) == Ok::<Seq<Term>, ParseFailure>(
            parse(a)->Ok_0.push(Term::Multiplier { value: v, col: num.col }),
        ),
{
    let s = a + seq![star, num];
    let n = a.len() as int;
    assert(embedded(s, 0, a)) by {
        assert forall|k: int| 0 <= k < a.len() implies s[0 + k] == #[trigger] a[k] by {}
        assert(s[n] == star);
    }
    lemma_parse_embed(s, 0, a, 0, 0, 0, true);
    assert(s[n] == star && s[n + 1] == num);
    assert(parse_from(s, n + 2, 0, false) == Ok::<Seq<Term>, ParseFailure>(seq![]));
    let m = Term::Multiplier { value: v, col: num.col };
    assert(seq![m] + Seq::<Term>::empty() =~= seq![m]);
    assert(parse(a)->Ok_0 + seq![m] =~= parse(a)->Ok_0.push(m));
}

/// `( A )` parses to the terms of `A`.
pub proof fn law_parse_group(lp: Token, a: Seq<Token>, rp: Token)
    requires
        a.len() > 0,
        lp.kind == TokenKind::LParen,
        rp.kind == TokenKind::RParen,
        parse(a) is Ok,
    ensures
        parse(seq![lp] + a + seq![rp]) == parse(a),
{
    let s = seq![lp] + a + seq![rp];
    let n = a.len() as int;
    assert(embedded(s, 1, a)) by {
        assert forall|k: int| 0 <= k < a.len() implies s[1 + k] == #[trigger] a[k] by {}
        assert(s[n + 1] == rp);
    }
    assert(s[0] == lp);
    assert(parse_from(s, 0, 0, true) == parse_from(s, 1, 1, true));
    lemma_parse_embed(s, 1, a, 0, 0, 1, true);
    assert(s[n + 1] == rp);
    assert(parse_from(s, n + 1, 1, false) == parse_from(s, n + 2, 0, false));
    assert(parse_from(s, n + 2, 0, false) == Ok::<Seq<Term>, ParseFailure>(seq![]));
    let ta = parse(a)->Ok_0;
    assert(ta + Seq::<Term>::empty() =~= ta);
}

/// `NdMklX` is the one dice term count `N`, sides `M`, keep-lowest `X`.
pub proof fn law_kl_keeps_lowest(n: u64, m: u64, x: u64)
    ensures
        parse(lex(decimal(n as nat) + "d"@ + decimal(m as nat) + "kl"@ + decimal(x as nat))) == Ok::<Seq<Term>, ParseFailure>(
            seq![Term::Dice(DiceTerm { count: n, sides: m, keep: Some((Keep::Low, x)), col: 1 })],
        ),
{
    reveal_strlit("d");
    reveal_strlit("kl");
    let a = decimal(n as nat);
    let b = decimal(m as nat);
    let c = decimal(x as nat);
    lemma_decimal(n as nat);
    lemma_decimal(m as nat);
    lemma_decimal(x as nat);
    let s = a + "d"@ + b + "kl"@ + c;
    let p = a.len() as int;
    let q = p + 1 + b.len();
    assert(s.len() == q + 2 + c.len());
    assert(s[p] == 'd');
    assert(s[q] == 'k' && s[q + 1] == 'l');
    assert(s.subrange(0, p) =~= a);
    assert(s.subrange(p + 1, q) =~= b);
    assert(s.subrange(q + 2, s.len() as int) =~= c);
    lemma_lex_decimal_at(s, 0, n);
    law_lex_step(s, p);
    lemma_lex_decimal_at(s, p + 1, m);
    law_lex_step(s, q);
    lemma_lex_decimal_at(s, q + 2, x);
    assert(lex_from(s, s.len() as int) == Seq::<Token>::empty());
    let t = lex(s);
    assert(t =~= seq![
        Token { kind: TokenKind::Number(n), col: 1 },
        Token { kind: TokenKind::Die, col: (p + 1) as usize },
        Token { kind: TokenKind::Number(m), col: (p + 2) as usize },
        Token { kind: TokenKind::KeepLow, col: (q + 1) as usize },
        Token { kind: TokenKind::Number(x), col: (q + 3) as usize },
    ]);
    let d = DiceTerm { count: n, sides: m, keep: Some((Keep::Low, x)), col: 1 };
    assert(parse_from(t, 5, 0, false) == Ok::<Seq<Term>, ParseFailure>(seq![]));
    assert(operand_at(t, 0) == Ok::<(Term, int), ParseFailure>((Term::Dice(d), 5)));
    assert(parse(t) =~= Ok::<Seq<Term>, ParseFailure>(seq![Term::Dice(d)]));
}

/// `NdM!` (exploding dice) is the same dice term as `NdM`.
pub proof fn law_exploding_dice_text(n: u64, m: u64)
    ensures
        parse(lex(decimal(n as nat) + "d"@ + decimal(m as nat) + "!"@)) == Ok::<Seq<Term>, ParseFailure>(
            seq![Term::Dice(DiceTerm { count: n, sides: m, keep: None, col: 1 })],
        ),
{
    reveal_strlit("d");
    reveal_strlit("!");
    let a = decimal(n as nat);
    let b = decimal(m as nat);
    lemma_decimal(n as nat);
    lemma_decimal(m as nat);
    let s = a + "d"@ + b + "!"@;
    let p = a.len() as int;
    let q = p + 1 + b.len();
    assert(s.len() == q + 1);
    assert(s[p] == 'd');
    assert(s[q] == '!');
    assert(s.subrange(0, p) =~= a);
    assert(s.subrange(p + 1, q) =~= b);
    lemma_lex_decimal_at(s, 0, n);
    law_lex_step(s, p);
    lemma_lex_decimal_at(s, p + 1, m);
    law_lex_step(s, q);
    assert(lex_from(s, s.len() as int) == Seq::<Token>::empty());
    let t = lex(s);
    assert(t =~= seq![
        Token { kind: TokenKind::Number(n), col: 1 },
        Token { kind: TokenKind::Die, col: (p + 1) as usize },
        Token { kind: TokenKind::Number(m), col: (p + 2) as usize },
        Token { kind: TokenKind::Bang, col: (q + 1) as usize },
    ]);
    let d = DiceTerm { count: n, sides: m, keep: None, col: 1 };
    assert(parse_from(t, 4, 0, false) == Ok::<Seq<Term>, ParseFailure>(seq![]));
    assert(operand_at(t, 0) == Ok::<(Term, int), ParseFailure>((Term::Dice(d), 4)));
    assert(parse(t) =~= Ok::<Seq<Term>, ParseFailure>(seq![Term::Dice(d)]));
}

/// Among ASCII characters, whitespace is exactly space, tab, line feed,
/// vertical tab, form feed and carriage return; digits and the letters and
/// signs of the notation are not whitespace.
pub proof fn law_ascii_white_space(c: char)
    ensures
        (c as int) < 128 ==> (is_white_space(c) <==> (c == ' ' || c == '\t' || c == '\n' || c == '\u{b}'
            || c == '\u{c}' || c == '\r')),
        '0' <= c <= '9' ==> !is_white_space(c),
{
}

/// The parse messages that report the end of the expression differ from the
/// others.
proof fn lemma_end_messages_distinct(x: Seq<char>)
    ensures
        "expected a number, found '"@ + x + "'"@ != "expected a number, found end of expression"@,
        "expected a number, found '"@ + x + "'"@ != "expected ')', found end of expression"@,
        "expected a number, found end of expression"@ != "expected ')', found end of expression"@,
        "found ')' without a matching '('"@ != "expected a number, found end of expression"@,
        "found ')' without a matching '('"@ != "expected ')', found end of expression"@,
        "expected '+' or '-' between terms"@ != "expected a number, found end of expression"@,
        "expected '+' or '-' between terms"@ != "expected ')', found end of expression"@,
{
    reveal_strlit("expected a number, found '");
    reveal_strlit("'");
    reveal_strlit("expected a number, found end of expression");
    reveal_strlit("expected ')', found end of expression");
    reveal_strlit("found ')' without a matching '('");
    reveal_strlit("expected '+' or '-' between terms");
    let m2 = "expected a number, found '"@ + x + "'"@;
    assert(m2[25] == '\'');
    assert("expected a number, found end of expression"@[25] == 'e');
    assert(m2[9] == 'a');
    assert("expected ')', found end of expression"@[9] == '\'');
    assert("expected a number, found end of expression"@[9] == 'a');
    assert("found ')' without a matching '('"@[0] == 'f');
    assert("expected a number, found end of expression"@[0] == 'e');
    assert("expected ')', found end of expression"@[0] == 'e');
    assert("expected '+' or '-' between terms"@[9] == '\'');
    assert("expected '+' or '-' between terms"@[10] == '+');
    assert("expected ')', found end of expression"@[10] == ')');
}

/// An error that reports the end of the expression, at this token stream.
pub open spec fn reports_end(t: Seq<Token>, e: ParseFailure) -> bool {
    e.message == "expected a number, found end of expression"@ || e.message
        == "expected ')', found end of expression"@
}

proof fn lemma_number_end(t: Seq<Token>, k: int)
    requires
        t.len() > 0,
    ensures
        number_at(t, k) matches Err(e) ==> (reports_end(t, e) ==> e.col == t[t.len() - 1].col),
{
    if 0 <= k < t.len() {
        if let TokenKind::Number(_) = t[k].kind {
        } else {
            lemma_end_messages_distinct(describe_text(t[k].kind));
        }
    }
}

proof fn lemma_parse_from_end(t: Seq<Token>, i: int, d: nat, operand: bool)
    requires
        t.len() > 0,
        0 <= i,
    ensures
        parse_from(t, i, d, operand) matches Err(e) ==> (reports_end(t, e) ==> e.col == t[t.len() - 1].col),
    decreases t.len() - i,
{
    lemma_end_messages_distinct(seq![]);
    if i < t.len() {
        if operand {
            if t[i].kind == TokenKind::LParen {
                lemma_parse_from_end(t, i + 1, d + 1, true);
            } else {
                lemma_number_end(t, i);
                lemma_number_end(t, i + 1);
                lemma_number_end(t, i + 2);
                lemma_number_end(t, i + 3);
                lemma_number_end(t, i + 4);
                crate::linter::lemma_operand_advances(t, i);
                if let Ok((term, j)) = operand_at(t, i) {
                    lemma_parse_from_end(t, j, d, false);
                }
            }
        } else {
            match t[i].kind {
                TokenKind::Plus => lemma_parse_from_end(t, i + 1, d, true),
                TokenKind::Minus => lemma_parse_from_end(t, i + 1, d, true),
                TokenKind::Star => {
                    lemma_number_end(t, i + 1);
                    if let Ok(v) = number_at(t, i + 1) {
                        lemma_parse_from_end(t, i + 2, d, false);
                    }
                },
                TokenKind::RParen => {
                    if d > 0 {
                        lemma_parse_from_end(t, i + 1, (d - 1) as nat, false);
                    }
                },
                _ => {},
            }
        }
    }
}

/// A line that ends before its expression does ("expected a number, found
/// end of expression", "expected ')', found end of expression") gets its
/// error at the column of its last token.
pub proof fn law_end_errors_at_last_token(t: Seq<Token>)
    requires
        t.len() > 0,
    ensures
        parse(t) matches Err(e) ==> (reports_end(t, e) ==> e.col == t[t.len() - 1].col),
{
    lemma_parse_from_end(t, 0, 0, true);
}

} // verus!
