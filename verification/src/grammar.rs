//! The grammar of dice expressions as a recursive-descent specification, and
//! the proof that the parser (`linter::parse`, which reads tokens left to
//! right with a count of open groups) computes exactly what it describes.
//!
//! ```text
//! expr   := term (('+' | '-') term)*
//! term   := atom ('*' NUMBER)*
//! atom   := NUMBER [dice] | dice | '(' expr ')'
//! dice   := 'd' NUMBER [('kh' | 'kl') NUMBER] ['!']
//! ```

use vstd::prelude::*;
use crate::lexer::{Token, TokenKind};
use crate::linter::{end_col, number_at, operand_at, parse, parse_from, prepend, lemma_operand_advances, ParseFailure, Term};

verus! {

/// A `+` or `-` at `j`.
pub open spec fn is_sign(t: Seq<Token>, j: int) -> bool {
    0 <= j < t.len() && (t[j].kind == TokenKind::Plus || t[j].kind == TokenKind::Minus)
}

/// A `*` at `j`.
pub open spec fn is_star(t: Seq<Token>, j: int) -> bool {
    0 <= j < t.len() && t[j].kind == TokenKind::Star
}

/// `('*' NUMBER)*` from `j`: the multipliers, and the index past them.
pub open spec fn scale_at(t: Seq<Token>, j: int) -> Result<(Seq<Term>, int), ParseFailure>
    decreases t.len() - j,
{
    if is_star(t, j) {
        match number_at(t, j + 1) {
            Err(e) => Err(e),
            Ok(v) => match scale_at(t, j + 2) {
                Err(e) => Err(e),
                Ok((ms, k)) => Ok((seq![Term::Multiplier { value: v, col: t[j + 1].col }] + ms, k)),
            },
        }
    } else {
        Ok((seq![], j))
    }
}

/// `atom` at `i`: its terms, and the index past it.
pub open spec fn atom_at(t: Seq<Token>, i: int) -> Result<(Seq<Term>, int), ParseFailure>
    decreases t.len() - i, 0int,
{
    if 0 <= i < t.len() && t[i].kind == TokenKind::LParen {
        match expr_at(t, i + 1) {
            Err(e) => Err(e),
            Ok((ts, j)) => if j >= t.len() {
                Err(ParseFailure { col: end_col(t), message: "expected ')', found end of expression"@ })
            } else if t[j].kind == TokenKind::RParen {
                Ok((ts, j + 1))
            } else {
                Err(ParseFailure { col: t[j].col, message: "expected '+' or '-' between terms"@ })
            },
        }
    } else {
        match operand_at(t, i) {
            Err(e) => Err(e),
            Ok((term, j)) => Ok((seq![term], j)),
        }
    }
}

/// `term` at `i`: its terms, and the index past it.
pub open spec fn term_at(t: Seq<Token>, i: int) -> Result<(Seq<Term>, int), ParseFailure>
    decreases t.len() - i, 1int,
{
    match atom_at(t, i) {
        Err(e) => Err(e),
        Ok((ts, j)) => match scale_at(t, j) {
            Err(e) => Err(e),
            Ok((ms, k)) => Ok((ts + ms, k)),
        },
    }
}

/// `expr` at `i`: its terms, and the index past it. (A term always ends
/// after it starts, so `i <= j` holds; it is written out for termination.)
pub open spec fn expr_at(t: Seq<Token>, i: int) -> Result<(Seq<Term>, int), ParseFailure>
    decreases t.len() - i, 2int,
{
    match term_at(t, i) {
        Err(e) => Err(e),
        Ok((ts, j)) => if i <= j && is_sign(t, j) {
            match expr_at(t, j + 1) {
                Err(e) => Err(e),
                Ok((rs, k)) => Ok((ts + rs, k)),
            }
        } else {
            Ok((ts, j))
        },
    }
}

/// A whole line: an empty token stream has no terms; otherwise one `expr`
/// that spans every token.
pub open spec fn parse_grammar(t: Seq<Token>) -> Result<Seq<Term>, ParseFailure> {
    if t.len() == 0 {
        Ok(seq![])
    } else {
        match expr_at(t, 0) {
            Err(e) => Err(e),
            Ok((ts, j)) => if j >= t.len() {
                Ok(ts)
            } else if t[j].kind == TokenKind::RParen {
                Err(ParseFailure { col: t[j].col, message: "found ')' without a matching '('"@ })
            } else {
                Err(ParseFailure { col: t[j].col, message: "expected '+' or '-' between terms"@ })
            },
        }
    }
}

proof fn lemma_scale_advances(t: Seq<Token>, j: int)
    requires
        0 <= j <= t.len(),
    ensures
        scale_at(t, j) matches Ok((_, k)) ==> j <= k <= t.len() && !is_star(t, k),
    decreases t.len() - j,
{
    if is_star(t, j) {
        if let Ok(v) = number_at(t, j + 1) {
            lemma_scale_advances(t, j + 2);
        }
    }
}

proof fn lemma_atom_advances(t: Seq<Token>, i: int)
    requires
        0 <= i,
    ensures
        atom_at(t, i) matches Ok((_, j)) ==> i < j <= t.len(),
    decreases t.len() - i, 0int,
{
    lemma_operand_advances(t, i);
    if 0 <= i < t.len() && t[i].kind == TokenKind::LParen {
        lemma_expr_advances(t, i + 1);
    }
}

proof fn lemma_term_advances(t: Seq<Token>, i: int)
    requires
        0 <= i,
    ensures
        term_at(t, i) matches Ok((_, j)) ==> i < j <= t.len() && !is_star(t, j),
    decreases t.len() - i, 1int,
{
    lemma_atom_advances(t, i);
    if let Ok((_, j)) = atom_at(t, i) {
        lemma_scale_advances(t, j);
    }
}

proof fn lemma_expr_advances(t: Seq<Token>, i: int)
    requires
        0 <= i,
    ensures
        expr_at(t, i) matches Ok((_, j)) ==> i < j <= t.len() && !is_star(t, j) && !is_sign(t, j),
    decreases t.len() - i, 2int,
{
    lemma_term_advances(t, i);
    if let Ok((_, j)) = term_at(t, i) {
        if is_sign(t, j) {
            lemma_expr_advances(t, j + 1);
        }
    }
}

/// What the parser does with a piece's result: on success, go on after it,
/// in the state that follows a complete term, with `depth` groups open.
pub open spec fn continue_after(t: Seq<Token>, r: Result<(Seq<Term>, int), ParseFailure>, depth: nat) -> Result<
    Seq<Term>,
    ParseFailure,
> {
    match r {
        Err(e) => Err(e),
        Ok((ts, j)) => prepend(ts, parse_from(t, j, depth, false)),
    }
}

pub proof fn lemma_prepend_assoc(a: Seq<Term>, b: Seq<Term>, r: Result<Seq<Term>, ParseFailure>)
    ensures
        prepend(a, prepend(b, r)) == prepend(a + b, r),
{
    if let Ok(rest) = r {
        assert(a + (b + rest) =~= (a + b) + rest);
    }
}

proof fn lemma_prepend_empty(r: Result<Seq<Term>, ParseFailure>)
    ensures
        prepend(Seq::<Term>::empty(), r) == r,
{
    if let Ok(rest) = r {
        assert(Seq::<Term>::empty() + rest =~= rest);
    }
}

proof fn lemma_scale_matches(t: Seq<Token>, j: int, depth: nat)
    requires
        0 <= j,
    ensures
        parse_from(t, j, depth, false) == continue_after(t, scale_at(t, j), depth),
    decreases t.len() - j,
{
    if is_star(t, j) {
        if let Ok(v) = number_at(t, j + 1) {
            lemma_scale_matches(t, j + 2, depth);
            if let Ok((ms, k)) = scale_at(t, j + 2) {
                lemma_prepend_assoc(
                    seq![Term::Multiplier { value: v, col: t[j + 1].col }],
                    ms,
                    parse_from(t, k, depth, false),
                );
            }
        }
    } else {
        lemma_prepend_empty(parse_from(t, j, depth, false));
    }
}

proof fn lemma_atom_matches(t: Seq<Token>, i: int, depth: nat)
    requires
        0 <= i,
    ensures
        parse_from(t, i, depth, true) == continue_after(t, atom_at(t, i), depth),
    decreases t.len() - i, 0int,
{
    if 0 <= i < t.len() && t[i].kind == TokenKind::LParen {
        lemma_expr_matches(t, i + 1, depth + 1);
        lemma_expr_advances(t, i + 1);
        if let Ok((ts, j)) = expr_at(t, i + 1) {
            if j < t.len() && t[j].kind == TokenKind::RParen {
                assert(parse_from(t, j, depth + 1, false) == parse_from(t, j + 1, depth, false));
            }
        }
    }
}

proof fn lemma_term_matches(t: Seq<Token>, i: int, depth: nat)
    requires
        0 <= i,
    ensures
        parse_from(t, i, depth, true) == continue_after(t, term_at(t, i), depth),
    decreases t.len() - i, 1int,
{
    lemma_atom_matches(t, i, depth);
    lemma_atom_advances(t, i);
    if let Ok((ts, j)) = atom_at(t, i) {
        lemma_scale_matches(t, j, depth);
        if let Ok((ms, k)) = scale_at(t, j) {
            lemma_prepend_assoc(ts, ms, parse_from(t, k, depth, false));
        }
    }
}

proof fn lemma_expr_matches(t: Seq<Token>, i: int, depth: nat)
    requires
        0 <= i,
    ensures
        parse_from(t, i, depth, true) == continue_after(t, expr_at(t, i), depth),
    decreases t.len() - i, 2int,
{
    lemma_term_matches(t, i, depth);
    lemma_term_advances(t, i);
    if let Ok((ts, j)) = term_at(t, i) {
        if is_sign(t, j) {
            assert(parse_from(t, j, depth, false) == parse_from(t, j + 1, depth, true));
            lemma_expr_matches(t, j + 1, depth);
            if let Ok((rs, k)) = expr_at(t, j + 1) {
                lemma_prepend_assoc(ts, rs, parse_from(t, k, depth, false));
            }
        }
    }
}

/// The parser computes exactly the grammar: the same terms where a line is
/// an expression, and the same error (column and message) where it is not.
pub proof fn law_parser_follows_grammar(t: Seq<Token>)
    ensures
        parse(t) == parse_grammar(t),
{
    if t.len() > 0 {
        lemma_expr_matches(t, 0, 0);
        lemma_expr_advances(t, 0);
        if let Ok((ts, j)) = expr_at(t, 0) {
            if j >= t.len() {
                assert(ts + Seq::<Term>::empty() =~= ts);
            }
        }
    }
}

} // verus!
