//! Parses a line of dice notation and checks it against a small set of
//! rules.
//!
//! Grammar (over the tokens of `lexer`):
//!
//! ```text
//! expr   := term (('+' | '-') term)*
//! term   := atom ('*' NUMBER)*
//! atom   := NUMBER [dice] | dice | '(' expr ')'
//! dice   := 'd' NUMBER [('kh' | 'kl') NUMBER] ['!']
//! ```
//!
//! e.g. `3d6 + 2d4kh1! - 1`, `d20 + 5` or `(2d4kh1! - 1) * 2 + 3d6`. A dice
//! term without a count (`d6`) rolls `DEFAULT_DICE_COUNT` dice.
//!
//! `parse` below is the parser's specification in the form the parser runs;
//! `grammar::parse_grammar` states the grammar above by recursive descent,
//! and `grammar::law_parser_follows_grammar` proves the two equal. The parser reads
//! the tokens left to right with a count of open groups; what the rules look
//! at (dice terms and multipliers) comes out as a flat list in source order.

use vstd::prelude::*;
use crate::grammar::{law_parser_follows_grammar, parse_grammar};
use crate::lexer::{lex, tokenize, Token, TokenKind};
use crate::text::{decimal, push_char, push_decimal};

verus! {

#[derive(Debug, Clone, Copy, PartialEq, Eq, Structural)]
pub enum Severity {
    Error,
    Warning,
}

/// One problem found on one line.
pub struct Finding {
    pub line: usize,
    pub col: usize,
    pub severity: Severity,
    pub code: &'static str,
    pub message: String,
}

/// A finding as plain values.
pub struct FindingView {
    pub line: usize,
    pub col: usize,
    pub severity: Severity,
    pub code: Seq<char>,
    pub message: Seq<char>,
}

impl View for Finding {
    type V = FindingView;

    open spec fn view(&self) -> FindingView {
        FindingView {
            line: self.line,
            col: self.col,
            severity: self.severity,
            code: self.code@,
            message: self.message@,
        }
    }
}

/// The views of a list of findings.
pub open spec fn views(fs: Seq<Finding>) -> Seq<FindingView> {
    fs.map_values(|f: Finding| f@)
}

/// The word that `render` writes for a severity.
pub open spec fn level_text(s: Severity) -> Seq<char> {
    match s {
        Severity::Error => "error"@,
        Severity::Warning => "warning"@,
    }
}

impl Finding {
    /// `<severity>[<code>]: <message>`, e.g. `error[E001]: dice count is zero, ...`.
    pub fn render(&self) -> (r: String)
        ensures
            r@ == level_text(self.severity) + "["@ + self.code@ + "]: "@ + self.message@,
    {
        let level = match self.severity {
            Severity::Error => "error",
            Severity::Warning => "warning",
        };
        let mut r = String::from_str(level);
        r.append("[");
        r.append(self.code);
        r.append("]: ");
        r.append(self.message.as_str());
        r
    }
}

#[derive(Debug, Clone, Copy, PartialEq, Eq, Structural)]
pub enum Keep {
    High,
    Low,
}

#[derive(Debug, Clone, Copy)]
pub struct DiceTerm {
    pub count: u64,
    pub sides: u64,
    pub keep: Option<(Keep, u64)>,
    /// Column of the term's first token (its dice count).
    pub col: usize,
}

/// What the rules look at, in source order.
#[derive(Debug, Clone, Copy)]
pub enum Term {
    /// A plain number (`+ 3`); no rule applies to it.
    Flat,
    Dice(DiceTerm),
    /// The number after a `*`, at its column.
    Multiplier { value: u64, col: usize },
}

pub struct ParseError {
    pub col: usize,
    pub message: String,
}

pub struct ParseFailure {
    pub col: usize,
    pub message: Seq<char>,
}

impl View for ParseError {
    type V = ParseFailure;

    open spec fn view(&self) -> ParseFailure {
        ParseFailure { col: self.col, message: self.message@ }
    }
}

/// Every dice count above this is treated as a probable typo rather than
/// an intentionally huge roll (nobody rolls 50,000 d6 by hand).
pub const MAX_SANE_DICE_COUNT: u64 = 1000;

/// How a token is named in a parse error.
pub open spec fn describe_text(k: TokenKind) -> Seq<char> {
    match k {
        TokenKind::Number(n) => decimal(n as nat),
        TokenKind::Die => "d"@,
        TokenKind::KeepHigh => "kh"@,
        TokenKind::KeepLow => "kl"@,
        TokenKind::Bang => "!"@,
        TokenKind::Plus => "+"@,
        TokenKind::Minus => "-"@,
        TokenKind::Star => "*"@,
        TokenKind::LParen => "("@,
        TokenKind::RParen => ")"@,
        TokenKind::Unknown(c) => seq![c],
    }
}

/// The column that an error at the end of the expression points at.
pub open spec fn end_col(t: Seq<Token>) -> usize {
    if t.len() > 0 {
        t.last().col
    } else {
        1
    }
}

/// A number expected at index `k`.
pub open spec fn number_at(t: Seq<Token>, k: int) -> Result<u64, ParseFailure> {
    if k < 0 || k >= t.len() {
        Err(ParseFailure { col: end_col(t), message: "expected a number, found end of expression"@ })
    } else {
        match t[k].kind {
            TokenKind::Number(n) => Ok(n),
            other => Err(
                ParseFailure {
                    col: t[k].col,
                    message: "expected a number, found '"@ + describe_text(other) + "'"@,
                },
            ),
        }
    }
}

/// The optional `!` at `k`: the index past it.
pub open spec fn skip_bang(t: Seq<Token>, k: int) -> int {
    if 0 <= k < t.len() && t[k].kind == TokenKind::Bang {
        k + 1
    } else {
        k
    }
}

/// The keep modifier that the token at `k` starts, if any.
pub open spec fn keep_at(t: Seq<Token>, k: int) -> Option<Keep> {
    if 0 <= k < t.len() {
        match t[k].kind {
            TokenKind::KeepHigh => Some(Keep::High),
            TokenKind::KeepLow => Some(Keep::Low),
            _ => None,
        }
    } else {
        None
    }
}

/// The dice term whose `d` is at `k`: `M`, then an optional `kh#`/`kl#`,
/// then an optional `!`. The term and the index just past it.
pub open spec fn dice_at(t: Seq<Token>, count: u64, col: usize, k: int) -> Result<(Term, int), ParseFailure> {
    match number_at(t, k + 1) {
        Err(e) => Err(e),
        Ok(sides) => match keep_at(t, k + 2) {
            Some(kind) => match number_at(t, k + 3) {
                Err(e) => Err(e),
                Ok(amount) => Ok(
                    (
                        Term::Dice(DiceTerm { count, sides, keep: Some((kind, amount)), col }),
                        skip_bang(t, k + 4),
                    ),
                ),
            },
            None => Ok((Term::Dice(DiceTerm { count, sides, keep: None, col }), skip_bang(t, k + 2))),
        },
    }
}

/// The dice count used where a term starts at its `d` (`d6` rolls one die).
pub const DEFAULT_DICE_COUNT: u64 = 1;

/// The operand at `i`: `NdM...` or a plain number `N`, or `dM...` with the
/// count left out (then `DEFAULT_DICE_COUNT`). The term, reported at the
/// column of its first token, and the index just past it.
pub open spec fn operand_at(t: Seq<Token>, i: int) -> Result<(Term, int), ParseFailure> {
    if 0 <= i < t.len() && t[i].kind == TokenKind::Die {
        dice_at(t, DEFAULT_DICE_COUNT, t[i].col, i)
    } else {
        match number_at(t, i) {
            Err(e) => Err(e),
            Ok(count) => if i + 1 < t.len() && t[i + 1].kind == TokenKind::Die {
                dice_at(t, count, t[i].col, i + 1)
            } else {
                Ok((Term::Flat, i + 1))
            },
        }
    }
}

/// `terms` in front of what a successful parse gives; a failure stays as it is.
pub open spec fn prepend(
    terms: Seq<Term>,
    r: Result<Seq<Term>, ParseFailure>,
) -> Result<Seq<Term>, ParseFailure> {
    match r {
        Ok(rest) => Ok(terms + rest),
        Err(e) => Err(e),
    }
}

/// Parses `t` from index `i`, with `depth` groups open, expecting the start
/// of a term (`operand`) or what may follow one.
pub open spec fn parse_from(t: Seq<Token>, i: int, depth: nat, operand: bool) -> Result<
    Seq<Term>,
    ParseFailure,
>
    decreases t.len() - i,
{
    if i < 0 || i >= t.len() {
        if operand {
            Err(ParseFailure { col: end_col(t), message: "expected a number, found end of expression"@ })
        } else if depth > 0 {
            Err(ParseFailure { col: end_col(t), message: "expected ')', found end of expression"@ })
        } else {
            Ok(seq![])
        }
    } else if operand {
        if t[i].kind == TokenKind::LParen {
            parse_from(t, i + 1, depth + 1, true)
        } else {
            match operand_at(t, i) {
                Err(e) => Err(e),
                Ok((term, j)) => {
                    proof {
                        lemma_operand_advances(t, i);
                    }
                    prepend(seq![term], parse_from(t, j, depth, false))
                },
            }
        }
    } else {
        match t[i].kind {
            TokenKind::Plus => parse_from(t, i + 1, depth, true),
            TokenKind::Minus => parse_from(t, i + 1, depth, true),
            TokenKind::Star => match number_at(t, i + 1) {
                Err(e) => Err(e),
                Ok(v) => prepend(
                    seq![Term::Multiplier { value: v, col: t[i + 1].col }],
                    parse_from(t, i + 2, depth, false),
                ),
            },
            TokenKind::RParen => if depth > 0 {
                parse_from(t, i + 1, (depth - 1) as nat, false)
            } else {
                Err(ParseFailure { col: t[i].col, message: "found ')' without a matching '('"@ })
            },
            _ => Err(ParseFailure { col: t[i].col, message: "expected '+' or '-' between terms"@ }),
        }
    }
}

/// The terms of a token stream; an empty stream has none.
pub open spec fn parse(t: Seq<Token>) -> Result<Seq<Term>, ParseFailure> {
    if t.len() == 0 {
        Ok(seq![])
    } else {
        parse_from(t, 0, 0, true)
    }
}

pub proof fn lemma_operand_advances(t: Seq<Token>, i: int)
    ensures
        operand_at(t, i) matches Ok((_, j)) ==> i < j <= t.len(),
{
}

pub open spec fn parse_result_view(r: Result<Vec<Term>, ParseError>) -> Result<Seq<Term>, ParseFailure> {
    match r {
        Ok(v) => Ok(v@),
        Err(e) => Err(e@),
    }
}

pub proof fn lemma_prepend_push(terms: Seq<Term>, x: Term, r: Result<Seq<Term>, ParseFailure>)
    ensures
        prepend(terms, prepend(seq![x], r)) == prepend(terms.push(x), r),
{
    if let Ok(rest) = r {
        assert(terms + (seq![x] + rest) =~= terms.push(x) + rest);
    }
}

/// How a token is named in a parse error.
fn describe(kind: &TokenKind) -> (s: String)
    ensures
        s@ == describe_text(*kind),
{
    match kind {
        TokenKind::Number(n) => {
            let mut s = String::new();
            push_decimal(&mut s, *n);
            proof {
                assert(s@ =~= decimal(*n as nat));
            }
            s
        },
        TokenKind::Die => String::from_str("d"),
        TokenKind::KeepHigh => String::from_str("kh"),
        TokenKind::KeepLow => String::from_str("kl"),
        TokenKind::Bang => String::from_str("!"),
        TokenKind::Plus => String::from_str("+"),
        TokenKind::Minus => String::from_str("-"),
        TokenKind::Star => String::from_str("*"),
        TokenKind::LParen => String::from_str("("),
        TokenKind::RParen => String::from_str(")"),
        TokenKind::Unknown(c) => {
            let mut s = String::new();
            push_char(&mut s, *c);
            proof {
                assert(s@ =~= seq![*c]);
            }
            s
        },
    }
}

/// The column of the last token, or 1 for none.
fn last_col(tokens: &[Token]) -> (col: usize)
    ensures
        col == end_col(tokens@),
{
    match tokens.last() {
        Some(t) => t.col,
        None => 1,
    }
}

/// Reads the number at `*i` and moves past it.
fn expect_number(tokens: &[Token], i: &mut usize) -> (r: Result<u64, ParseError>)
    ensures
        match r {
            Ok(n) => number_at(tokens@, *old(i) as int) == Ok::<u64, ParseFailure>(n) && *final(i)
                == *old(i) + 1,
            Err(e) => number_at(tokens@, *old(i) as int) == Err::<u64, ParseFailure>(e@) && *final(i)
                == *old(i),
        },
{
    if *i >= tokens.len() {
        return Err(
            ParseError {
                col: last_col(tokens),
                message: String::from_str("expected a number, found end of expression"),
            },
        );
    }
    match tokens[*i].kind {
        TokenKind::Number(n) => {
            *i += 1;
            Ok(n)
        },
        other => {
            let mut message = String::from_str("expected a number, found '");
            let d = describe(&other);
            message.append(d.as_str());
            message.append("'");
            Err(ParseError { col: tokens[*i].col, message })
        },
    }
}

/// Reads the dice term whose `d` is at `*i`.
fn parse_dice(tokens: &[Token], i: &mut usize, count: u64, col: usize) -> (r: Result<Term, ParseError>)
    requires
        *old(i) < tokens.len(),
    ensures
        match r {
            Ok(term) => dice_at(tokens@, count, col, *old(i) as int) == Ok::<(Term, int), ParseFailure>(
                (term, *final(i) as int),
            ),
            Err(e) => dice_at(tokens@, count, col, *old(i) as int) == Err::<(Term, int), ParseFailure>(e@),
        },
{
    let ghost t = tokens@;
    let ghost start = *i as int;
    *i += 1;
    let sides = match expect_number(tokens, i) {
        Ok(n) => n,
        Err(e) => return Err(e),
    };
    let mut keep: Option<(Keep, u64)> = None;
    if *i < tokens.len() {
        let kind = match tokens[*i].kind {
            TokenKind::KeepHigh => Some(Keep::High),
            TokenKind::KeepLow => Some(Keep::Low),
            _ => None,
        };
        if let Some(kind) = kind {
            *i += 1;
            let amount = match expect_number(tokens, i) {
                Ok(n) => n,
                Err(e) => return Err(e),
            };
            keep = Some((kind, amount));
        }
    }
    proof {
        assert(keep_at(t, start + 2) == match keep {
            Some((k, _)) => Some(k),
            None => None::<Keep>,
        });
    }
    if *i < tokens.len() && tokens[*i].kind == TokenKind::Bang {
        *i += 1;
    }
    Ok(Term::Dice(DiceTerm { count, sides, keep, col }))
}

/// Reads an operand: a number with the dice suffix that may follow it, or a
/// dice term that starts at its `d`.
fn parse_operand(tokens: &[Token], i: &mut usize) -> (r: Result<Term, ParseError>)
    ensures
        match r {
            Ok(term) => operand_at(tokens@, *old(i) as int) == Ok::<(Term, int), ParseFailure>(
                (term, *final(i) as int),
            ),
            Err(e) => operand_at(tokens@, *old(i) as int) == Err::<(Term, int), ParseFailure>(e@),
        },
{
    if *i < tokens.len() && tokens[*i].kind == TokenKind::Die {
        let col = tokens[*i].col;
        return parse_dice(tokens, i, DEFAULT_DICE_COUNT, col);
    }
    let count = match expect_number(tokens, i) {
        Ok(n) => n,
        Err(e) => return Err(e),
    };
    let col = tokens[*i - 1].col;
    if *i < tokens.len() && tokens[*i].kind == TokenKind::Die {
        parse_dice(tokens, i, count, col)
    } else {
        Ok(Term::Flat)
    }
}

/// Parses a whole token stream into the terms that the rules look at.
pub fn parse_terms(tokens: &[Token]) -> (r: Result<Vec<Term>, ParseError>)
    ensures
        parse_result_view(r) == parse(tokens@),
        parse_result_view(r) == parse_grammar(tokens@),
{
    let ghost t = tokens@;
    proof {
        law_parser_follows_grammar(t);
    }
    let mut terms: Vec<Term> = Vec::new();
    if tokens.len() == 0 {
        return Ok(terms);
    }
    let n = tokens.len();
    let mut i: usize = 0;
    let mut depth: usize = 0;
    let mut operand = true;
    proof {
        assert(terms@ + Seq::<Term>::empty() =~= Seq::<Term>::empty());
        assert(terms@ =~= Seq::<Term>::empty());
        if let Ok(rest) = parse_from(t, 0, 0, true) {
            assert(terms@ + rest =~= rest);
        }
    }
    loop
        invariant
            n == t.len(),
            t == tokens@,
            n > 0,
            i <= n,
            depth <= i,
            parse(t) == prepend(terms@, parse_from(t, i as int, depth as nat, operand)),
            parse(t) == parse_grammar(t),
        decreases n - i,
    {
        let ghost before = terms@;
        if i >= n {
            if operand {
                return Err(
                    ParseError {
                        col: last_col(tokens),
                        message: String::from_str("expected a number, found end of expression"),
                    },
                );
            } else if depth > 0 {
                return Err(
                    ParseError {
                        col: last_col(tokens),
                        message: String::from_str("expected ')', found end of expression"),
                    },
                );
            } else {
                proof {
                    assert(terms@ + Seq::<Term>::empty() =~= terms@);
                }
                return Ok(terms);
            }
        }
        if operand {
            if tokens[i].kind == TokenKind::LParen {
                depth += 1;
                i += 1;
            } else {
                let ghost at = i as int;
                let term = match parse_operand(tokens, &mut i) {
                    Ok(term) => term,
                    Err(e) => return Err(e),
                };
                proof {
                    lemma_operand_advances(t, at);
                    lemma_prepend_push(before, term, parse_from(t, i as int, depth as nat, false));
                }
                terms.push(term);
                operand = false;
            }
        } else {
            match tokens[i].kind {
                TokenKind::Plus | TokenKind::Minus => {
                    i += 1;
                    operand = true;
                },
                TokenKind::Star => {
                    i += 1;
                    let value = match expect_number(tokens, &mut i) {
                        Ok(v) => v,
                        Err(e) => return Err(e),
                    };
                    let term = Term::Multiplier { value, col: tokens[i - 1].col };
                    proof {
                        lemma_prepend_push(before, term, parse_from(t, i as int, depth as nat, false));
                    }
                    terms.push(term);
                },
                TokenKind::RParen => {
                    if depth > 0 {
                        depth -= 1;
                        i += 1;
                    } else {
                        return Err(
                            ParseError {
                                col: tokens[i].col,
                                message: String::from_str("found ')' without a matching '('"),
                            },
                        );
                    }
                },
                _ => {
                    return Err(
                        ParseError {
                            col: tokens[i].col,
                            message: String::from_str("expected '+' or '-' between terms"),
                        },
                    );
                },
            }
        }
    }
}

/// A dice count of zero: E001. A count above `MAX_SANE_DICE_COUNT`: W002.
pub open spec fn count_findings(line: usize, d: DiceTerm) -> Seq<FindingView> {
    if d.count == 0 {
        seq![FindingView {
            line,
            col: d.col,
            severity: Severity::Error,
            code: "E001"@,
            message: "dice count is zero, this term always contributes nothing"@,
        }]
    } else if d.count > MAX_SANE_DICE_COUNT {
        seq![FindingView {
            line,
            col: d.col,
            severity: Severity::Warning,
            code: "W002"@,
            message: "dice count "@ + decimal(d.count as nat) + " is unusually large, check for a typo"@,
        }]
    } else {
        seq![]
    }
}

/// A die with no sides: E002. A die with one side: W001.
pub open spec fn sides_findings(line: usize, d: DiceTerm) -> Seq<FindingView> {
    if d.sides == 0 {
        seq![FindingView {
            line,
            col: d.col,
            severity: Severity::Error,
            code: "E002"@,
            message: "a die cannot have zero sides"@,
        }]
    } else if d.sides == 1 {
        seq![FindingView {
            line,
            col: d.col,
            severity: Severity::Warning,
            code: "W001"@,
            message: "a single-sided die always rolls 1, this is probably a typo"@,
        }]
    } else {
        seq![]
    }
}

/// Keeping no dice: E003. Keeping at least as many dice as are rolled: W003.
pub open spec fn keep_findings(line: usize, d: DiceTerm) -> Seq<FindingView> {
    match d.keep {
        Some((_, amount)) => if amount == 0 {
            seq![FindingView {
                line,
                col: d.col,
                severity: Severity::Error,
                code: "E003"@,
                message: "keep modifier keeps zero dice"@,
            }]
        } else if d.count > 0 && amount >= d.count {
            seq![FindingView {
                line,
                col: d.col,
                severity: Severity::Warning,
                code: "W003"@,
                message: "keep modifier keeps all dice, it has no effect here"@,
            }]
        } else {
            seq![]
        },
        None => seq![],
    }
}

/// The findings for one term, in rule order.
pub open spec fn term_findings(line: usize, term: Term) -> Seq<FindingView> {
    match term {
        Term::Flat => seq![],
        Term::Dice(d) => count_findings(line, d) + sides_findings(line, d) + keep_findings(line, d),
        Term::Multiplier { value, col } => if value == 0 {
            seq![FindingView {
                line,
                col,
                severity: Severity::Error,
                code: "E004"@,
                message: "multiplier is zero, the scaled term always contributes nothing"@,
            }]
        } else {
            seq![]
        },
    }
}

/// The findings for a list of terms, term by term.
pub open spec fn check(line: usize, terms: Seq<Term>) -> Seq<FindingView>
    decreases terms.len(),
{
    if terms.len() == 0 {
        seq![]
    } else {
        check(line, terms.drop_last()) + term_findings(line, terms.last())
    }
}

/// The findings for one line of text: none for a line without tokens, one
/// E000 where the line does not parse, else the rules' findings.
pub open spec fn lint(line: usize, text: Seq<char>) -> Seq<FindingView> {
    let tokens = lex(text);
    if tokens.len() == 0 {
        seq![]
    } else {
        match parse(tokens) {
            Ok(terms) => check(line, terms),
            Err(e) => seq![FindingView {
                line,
                col: e.col,
                severity: Severity::Error,
                code: "E000"@,
                message: e.message,
            }],
        }
    }
}

proof fn lemma_views_push(fs: Seq<Finding>, f: Finding)
    ensures
        views(fs.push(f)) == views(fs).push(f@),
{
    assert(views(fs.push(f)) =~= views(fs).push(f@));
}

proof fn lemma_views_add(a: Seq<Finding>, b: Seq<Finding>)
    ensures
        views(a + b) == views(a) + views(b),
{
    assert(views(a + b) =~= views(a) + views(b));
}

fn push_finding(
    findings: &mut Vec<Finding>,
    line: usize,
    col: usize,
    severity: Severity,
    code: &'static str,
    message: String,
)
    ensures
        views(final(findings)@) == views(old(findings)@).push(
            FindingView { line, col, severity, code: code@, message: message@ },
        ),
{
    let f = Finding { line, col, severity, code, message };
    proof {
        lemma_views_push(findings@, f);
    }
    findings.push(f);
}

/// The findings for one term.
fn check_term(line_no: usize, term: &Term) -> (r: Vec<Finding>)
    ensures
        views(r@) == term_findings(line_no, *term),
{
    let mut findings: Vec<Finding> = Vec::new();
    proof {
        assert(views(findings@) =~= Seq::<FindingView>::empty());
    }
    match term {
        Term::Flat => {},
        Term::Multiplier { value, col } => {
            if *value == 0 {
                push_finding(
                    &mut findings,
                    line_no,
                    *col,
                    Severity::Error,
                    "E004",
                    String::from_str("multiplier is zero, the scaled term always contributes nothing"),
                );
            }
            proof {
                assert(views(findings@) =~= term_findings(line_no, *term));
            }
        },
        Term::Dice(dice) => {
            if dice.count == 0 {
                push_finding(
                    &mut findings,
                    line_no,
                    dice.col,
                    Severity::Error,
                    "E001",
                    String::from_str("dice count is zero, this term always contributes nothing"),
                );
            } else if dice.count > MAX_SANE_DICE_COUNT {
                let mut message = String::from_str("dice count ");
                push_decimal(&mut message, dice.count);
                message.append(" is unusually large, check for a typo");
                push_finding(&mut findings, line_no, dice.col, Severity::Warning, "W002", message);
            }
            let ghost after_count = views(findings@);
            proof {
                assert(after_count =~= count_findings(line_no, *dice));
            }
            if dice.sides == 0 {
                push_finding(
                    &mut findings,
                    line_no,
                    dice.col,
                    Severity::Error,
                    "E002",
                    String::from_str("a die cannot have zero sides"),
                );
            } else if dice.sides == 1 {
                push_finding(
                    &mut findings,
                    line_no,
                    dice.col,
                    Severity::Warning,
                    "W001",
                    String::from_str("a single-sided die always rolls 1, this is probably a typo"),
                );
            }
            let ghost after_sides = views(findings@);
            proof {
                assert(after_sides =~= after_count + sides_findings(line_no, *dice));
            }
            if let Some((_, amount)) = dice.keep {
                if amount == 0 {
                    push_finding(
                        &mut findings,
                        line_no,
                        dice.col,
                        Severity::Error,
                        "E003",
                        String::from_str("keep modifier keeps zero dice"),
                    );
                } else if dice.count > 0 && amount >= dice.count {
                    push_finding(
                        &mut findings,
                        line_no,
                        dice.col,
                        Severity::Warning,
                        "W003",
                        String::from_str("keep modifier keeps all dice, it has no effect here"),
                    );
                }
            }
            proof {
                assert(views(findings@) =~= after_sides + keep_findings(line_no, *dice));
            }
        },
    }
    findings
}

/// Applies the rules to each term in turn.
pub fn check_terms(line_no: usize, terms: &[Term]) -> (r: Vec<Finding>)
    ensures
        views(r@) == check(line_no, terms@),
{
    let mut findings: Vec<Finding> = Vec::new();
    let n = terms.len();
    let mut k: usize = 0;
    proof {
        assert(terms@.take(0) =~= Seq::<Term>::empty());
        assert(views(findings@) =~= Seq::<FindingView>::empty());
    }
    while k < n
        invariant
            n == terms@.len(),
            k <= n,
            views(findings@) == check(line_no, terms@.take(k as int)),
        decreases n - k,
    {
        let mut more = check_term(line_no, &terms[k]);
        proof {
            lemma_views_add(findings@, more@);
            assert(terms@.take(k + 1).drop_last() =~= terms@.take(k as int));
            assert(terms@.take(k + 1).last() == terms@[k as int]);
        }
        findings.append(&mut more);
        k += 1;
    }
    proof {
        assert(terms@.take(n as int) =~= terms@);
    }
    findings
}

/// Lints one line: tokenizes, parses, and applies the rules.
pub fn lint_line(line_no: usize, text: &str) -> (r: Vec<Finding>)
    ensures
        views(r@) == lint(line_no, text@),
{
    let tokens = tokenize(text);
    if tokens.len() == 0 {
        let r: Vec<Finding> = Vec::new();
        proof {
            assert(views(r@) =~= Seq::<FindingView>::empty());
        }
        return r;
    }
    match parse_terms(tokens.as_slice()) {
        Ok(terms) => check_terms(line_no, terms.as_slice()),
        Err(e) => {
            let mut r: Vec<Finding> = Vec::new();
            proof {
                assert(views(r@) =~= Seq::<FindingView>::empty());
            }
            push_finding(&mut r, line_no, e.col, Severity::Error, "E000", e.message);
            r
        },
    }
}

} // verus!
