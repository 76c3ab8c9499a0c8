//! Turns one line of dice notation into a flat token stream.
//!
//! Kept deliberately dumb: it does not know what a valid expression looks
//! like, it just chops characters into pieces the parser in `linter` can
//! reason about. Column numbers are 1-based and count characters, not bytes.

use vstd::prelude::*;
use crate::text::{chars_of, decimal_value, digit, digit_value, is_digit, is_white_space, white_space};

verus! {

#[derive(Debug, Clone, Copy, PartialEq, Eq, Structural)]
pub enum TokenKind {
    Number(u64),
    /// `d` or `D`.
    Die,
    /// `kh`, or a bare `k` (keep-highest is the common default).
    KeepHigh,
    /// `kl`.
    KeepLow,
    /// `!` (exploding dice).
    Bang,
    Plus,
    Minus,
    /// `*` (multiplied terms).
    Star,
    LParen,
    RParen,
    Unknown(char),
}

#[derive(Debug, Clone, Copy, PartialEq, Eq, Structural)]
pub struct Token {
    pub kind: TokenKind,
    /// 1-based character column of the token's first character.
    pub col: usize,
}

/// A run of digits too long for `u64` saturates to `u64::MAX`.
pub open spec fn saturate(v: nat) -> u64 {
    if v <= u64::MAX {
        v as u64
    } else {
        u64::MAX
    }
}

/// The index just past the run of digits that starts at `i`.
pub open spec fn digit_run_end(s: Seq<char>, i: int) -> int
    decreases s.len() - i,
{
    if 0 <= i < s.len() && is_digit(s[i]) {
        digit_run_end(s, i + 1)
    } else {
        i
    }
}

pub proof fn lemma_digit_run_end(s: Seq<char>, i: int)
    requires
        0 <= i <= s.len(),
    ensures
        i <= digit_run_end(s, i) <= s.len(),
        i < s.len() && is_digit(s[i]) ==> i < digit_run_end(s, i),
        forall|k: int| i <= k < digit_run_end(s, i) ==> is_digit(#[trigger] s[k]),
        digit_run_end(s, i) < s.len() ==> !is_digit(s[digit_run_end(s, i)]),
    decreases s.len() - i,
{
    if i < s.len() && is_digit(s[i]) {
        lemma_digit_run_end(s, i + 1);
    }
}

/// The kind of the token that a non-digit, non-space character at `i` starts.
pub open spec fn symbol_kind(s: Seq<char>, i: int) -> TokenKind {
    let c = s[i];
    if c == 'd' || c == 'D' {
        TokenKind::Die
    } else if c == '!' {
        TokenKind::Bang
    } else if c == '+' {
        TokenKind::Plus
    } else if c == '-' {
        TokenKind::Minus
    } else if c == '*' {
        TokenKind::Star
    } else if c == '(' {
        TokenKind::LParen
    } else if c == ')' {
        TokenKind::RParen
    } else if c == 'k' || c == 'K' {
        if i + 1 < s.len() && (s[i + 1] == 'l' || s[i + 1] == 'L') {
            TokenKind::KeepLow
        } else {
            TokenKind::KeepHigh
        }
    } else {
        TokenKind::Unknown(c)
    }
}

/// How many characters the symbol token at `i` spans: two for `kh` and `kl`, else one.
pub open spec fn symbol_width(s: Seq<char>, i: int) -> int {
    let c = s[i];
    if (c == 'k' || c == 'K') && i + 1 < s.len() && (s[i + 1] == 'h' || s[i + 1] == 'H' || s[i
        + 1] == 'l' || s[i + 1] == 'L') {
        2
    } else {
        1
    }
}

/// The tokens of `s` from character index `i` on.
pub open spec fn lex_from(s: Seq<char>, i: int) -> Seq<Token>
    decreases s.len() - i,
{
    if i < 0 || i >= s.len() {
        seq![]
    } else if is_white_space(s[i]) {
        lex_from(s, i + 1)
    } else if is_digit(s[i]) {
        let j = digit_run_end(s, i);
        proof {
            lemma_digit_run_end(s, i);
        }
        seq![Token { kind: TokenKind::Number(saturate(decimal_value(s.subrange(i, j)))), col: (i + 1) as usize }]
            + lex_from(s, j)
    } else {
        seq![Token { kind: symbol_kind(s, i), col: (i + 1) as usize }] + lex_from(
            s,
            i + symbol_width(s, i),
        )
    }
}

/// The tokens of a whole line.
pub open spec fn lex(s: Seq<char>) -> Seq<Token> {
    lex_from(s, 0)
}

proof fn lemma_decimal_step(s: Seq<char>, a: int, b: int)
    requires
        0 <= a <= b < s.len(),
    ensures
        decimal_value(s.subrange(a, b + 1)) == decimal_value(s.subrange(a, b)) * 10 + digit_value(
            s[b],
        ),
{
    assert(s.subrange(a, b + 1).drop_last() =~= s.subrange(a, b));
}

/// Splits `line` into tokens; whitespace separates tokens and is otherwise skipped.
pub fn tokenize(line: &str) -> (tokens: Vec<Token>)
    ensures
        tokens@ == lex(line@),
{
    let chars = chars_of(line);
    let n = chars.len();
    let mut tokens: Vec<Token> = Vec::new();
    let mut i: usize = 0;
    while i < n
        invariant
            n == chars@.len(),
            chars@ == line@,
            i <= n,
            lex(line@) == tokens@ + lex_from(line@, i as int),
        decreases n - i,
    {
        let ghost s = line@;
        let ghost old_tokens = tokens@;
        let c = chars[i];
        if white_space(c) {
            i += 1;
            continue;
        }
        if digit(c) {
            let start = i;
            let mut value: u64 = 0;
            proof {
                lemma_digit_run_end(s, start as int);
                assert(s.subrange(start as int, start as int) =~= Seq::<char>::empty());
            }
            while i < n && digit(chars[i])
                invariant
                    n == chars@.len(),
                    chars@ == s,
                    start <= i <= n,
                    start < n,
                    is_digit(s[start as int]),
                    digit_run_end(s, start as int) == digit_run_end(s, i as int),
                    value == saturate(decimal_value(s.subrange(start as int, i as int))),
                decreases n - i,
            {
                let d: u64 = (chars[i] as u32 - 48u32) as u64;
                proof {
                    lemma_decimal_step(s, start as int, i as int);
                }
                value = match value.checked_mul(10) {
                    Some(t) => match t.checked_add(d) {
                        Some(u) => u,
                        None => u64::MAX,
                    },
                    None => u64::MAX,
                };
                i += 1;
            }
            tokens.push(Token { kind: TokenKind::Number(value), col: start + 1 });
            proof {
                assert(i as int == digit_run_end(s, i as int));
                assert(tokens@ =~= old_tokens.push(Token { kind: TokenKind::Number(value), col: (start + 1) as usize }));
            }
            continue;
        }
        let col = i + 1;
        let mut kind = TokenKind::Unknown(c);
        let mut width: usize = 1;
        if c == 'd' || c == 'D' {
            kind = TokenKind::Die;
        } else if c == '!' {
            kind = TokenKind::Bang;
        } else if c == '+' {
            kind = TokenKind::Plus;
        } else if c == '-' {
            kind = TokenKind::Minus;
        } else if c == '*' {
            kind = TokenKind::Star;
        } else if c == '(' {
            kind = TokenKind::LParen;
        } else if c == ')' {
            kind = TokenKind::RParen;
        } else if c == 'k' || c == 'K' {
            kind = TokenKind::KeepHigh;
            if i + 1 < n {
                let next = chars[i + 1];
                if next == 'h' || next == 'H' {
                    width = 2;
                } else if next == 'l' || next == 'L' {
                    kind = TokenKind::KeepLow;
                    width = 2;
                }
            }
        }
        tokens.push(Token { kind, col });
        proof {
            assert(kind == symbol_kind(s, i as int));
            assert(width == symbol_width(s, i as int));
            assert(tokens@ =~= old_tokens.push(Token { kind, col }));
        }
        i += width;
    }
    proof {
        assert(tokens@ =~= tokens@ + Seq::<Token>::empty());
    }
    tokens
}

} // verus!
