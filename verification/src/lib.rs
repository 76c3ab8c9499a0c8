//! A linter for dice notation: a lexer, a parser and a small set of rules,
//! each stated as a specification and proved against it.

pub mod text;
pub mod lexer;
pub mod linter;
pub mod grammar;
pub mod run;
pub mod laws;
pub mod semantics;

pub use lexer::{tokenize, Token, TokenKind};
pub use linter::{lint_line, Finding, Severity};
pub use run::{is_failure, is_skipped_line, lint_lines};
