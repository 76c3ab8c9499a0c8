use dicelint::{tokenize, TokenKind};

fn kinds(line: &str) -> Vec<TokenKind> {
    tokenize(line).into_iter().map(|t| t.kind).collect()
}

fn cols(line: &str) -> Vec<usize> {
    tokenize(line).into_iter().map(|t| t.col).collect()
}

#[test]
fn empty_line_has_no_tokens() {
    assert_eq!(kinds(""), vec![]);
}

#[test]
fn whitespace_only_has_no_tokens() {
    assert_eq!(kinds("   \t "), vec![]);
}

#[test]
fn plain_number() {
    assert_eq!(kinds("12"), vec![TokenKind::Number(12)]);
    // the whole run of digits is one token starting at the first digit
    assert_eq!(cols("12"), vec![1]);
}

#[test]
fn die_letter_is_case_insensitive() {
    assert_eq!(kinds("d"), vec![TokenKind::Die]);
    assert_eq!(kinds("D"), vec![TokenKind::Die]);
}

#[test]
fn bare_k_defaults_to_keep_high() {
    assert_eq!(kinds("k"), vec![TokenKind::KeepHigh]);
}

#[test]
fn kh_and_kl_are_two_character_tokens() {
    assert_eq!(kinds("kh3"), vec![TokenKind::KeepHigh, TokenKind::Number(3)]);
    assert_eq!(cols("kh3"), vec![1, 3]);
    assert_eq!(kinds("KL2"), vec![TokenKind::KeepLow, TokenKind::Number(2)]);
}

#[test]
fn bang_plus_minus() {
    assert_eq!(
        kinds("!+-"),
        vec![TokenKind::Bang, TokenKind::Plus, TokenKind::Minus]
    );
}

#[test]
fn unknown_character_is_preserved() {
    assert_eq!(kinds("x"), vec![TokenKind::Unknown('x')]);
}

#[test]
fn parens_and_star_are_their_own_tokens() {
    assert_eq!(
        kinds("(2d6)*3"),
        vec![
            TokenKind::LParen,
            TokenKind::Number(2),
            TokenKind::Die,
            TokenKind::Number(6),
            TokenKind::RParen,
            TokenKind::Star,
            TokenKind::Number(3),
        ]
    );
}

#[test]
fn whitespace_between_tokens_is_skipped_but_columns_stay_absolute() {
    assert_eq!(kinds(" d 6"), vec![TokenKind::Die, TokenKind::Number(6)]);
    assert_eq!(cols(" d 6"), vec![2, 4]);
}

#[test]
fn full_expression_columns() {
    // 3 d 6 k h 1 !
    // 1 2 3 4 5 6 7
    assert_eq!(
        kinds("3d6kh1!"),
        vec![
            TokenKind::Number(3),
            TokenKind::Die,
            TokenKind::Number(6),
            TokenKind::KeepHigh,
            TokenKind::Number(1),
            TokenKind::Bang,
        ]
    );
    assert_eq!(cols("3d6kh1!"), vec![1, 2, 3, 4, 6, 7]);
}

#[test]
fn digit_run_too_long_for_u64_saturates_instead_of_panicking() {
    let huge = "9".repeat(30);
    assert_eq!(kinds(&huge), vec![TokenKind::Number(u64::MAX)]);
}

#[test]
fn largest_u64_is_exact_and_one_more_saturates() {
    assert_eq!(kinds("18446744073709551615"), vec![TokenKind::Number(u64::MAX)]);
    assert_eq!(kinds("18446744073709551616"), vec![TokenKind::Number(u64::MAX)]);
    assert_eq!(kinds("18446744073709551614"), vec![TokenKind::Number(u64::MAX - 1)]);
}

#[test]
fn leading_zeros_are_part_of_the_number() {
    assert_eq!(kinds("007"), vec![TokenKind::Number(7)]);
    assert_eq!(cols("  007"), vec![3]);
}

#[test]
fn unicode_whitespace_is_skipped_and_columns_count_characters() {
    // U+00A0 and U+3000 are whitespace; each is one column.
    assert_eq!(kinds("\u{a0}2\u{3000}d"), vec![TokenKind::Number(2), TokenKind::Die]);
    assert_eq!(cols("\u{a0}2\u{3000}d"), vec![2, 4]);
    // a multi-byte non-whitespace character is one unknown token of one column
    assert_eq!(kinds("é6"), vec![TokenKind::Unknown('é'), TokenKind::Number(6)]);
    assert_eq!(cols("é6"), vec![1, 2]);
}

#[test]
fn k_before_other_letter_is_keep_high_of_width_one() {
    assert_eq!(kinds("kx"), vec![TokenKind::KeepHigh, TokenKind::Unknown('x')]);
    assert_eq!(cols("kx"), vec![1, 2]);
    assert_eq!(kinds("Kh"), vec![TokenKind::KeepHigh]);
    assert_eq!(kinds("kL"), vec![TokenKind::KeepLow]);
}

#[test]
fn a_lone_h_or_l_is_unknown() {
    assert_eq!(kinds("h l"), vec![TokenKind::Unknown('h'), TokenKind::Unknown('l')]);
}

#[test]
fn token_columns_increase_and_point_at_non_whitespace() {
    let line = " 4d6kh3 + ( 2 )*\t5 ";
    let chars: Vec<char> = line.chars().collect();
    let toks = tokenize(line);
    for w in toks.windows(2) {
        assert!(w[0].col < w[1].col);
    }
    for t in &toks {
        assert!(t.col >= 1 && t.col <= chars.len());
        assert!(!chars[t.col - 1].is_whitespace());
    }
}

#[test]
fn whitespace_between_two_texts_only_shifts_the_second() {
    let pairs = [("3d6k", "h2"), ("12", "34"), ("(d", "6)*2"), ("", "kl1"), ("x", "")];
    for (a, b) in pairs.iter() {
        for w in [" ", "\t\u{a0}", "\u{3000}"].iter() {
            let joined = format!("{}{}{}", a, w, b);
            let shift = a.chars().count() + w.chars().count();
            let mut expected = tokenize(a);
            expected.extend(tokenize(b).into_iter().map(|mut t| {
                t.col += shift;
                t
            }));
            assert_eq!(tokenize(&joined), expected, "{:?}", joined);
        }
    }
}

#[test]
fn what_an_error_quotes_lexes_back_to_one_token() {
    for text in ["kh", "kl", "d", "!", "+", "-", "*", "(", ")", "x", "h", "18446744073709551615", "0"].iter() {
        let toks = tokenize(text);
        assert_eq!(toks.len(), 1, "{:?}", text);
        assert_eq!(toks[0].col, 1);
    }
}
