use dicelint::{is_failure, is_skipped_line, lint_line, lint_lines, Finding, Severity};

fn codes(text: &str) -> Vec<&'static str> {
    lint_line(1, text).iter().map(|f| f.code).collect()
}

#[test]
fn valid_expression_has_no_findings() {
    assert_eq!(codes("2d6 + 3"), Vec::<&str>::new());
    assert_eq!(codes("4d6kh3 + 2 - 1d4"), Vec::<&str>::new());
}

#[test]
fn blank_token_stream_has_no_findings() {
    // lint_line is only ever called on non-blank, non-comment lines by
    // the command-line tool, but it should still behave sanely if it isn't.
    assert_eq!(codes(""), Vec::<&str>::new());
}

#[test]
fn zero_dice_count_is_an_error() {
    let findings = lint_line(5, "0d6");
    assert_eq!(findings.len(), 1);
    assert_eq!(findings[0].code, "E001");
    assert_eq!(findings[0].severity, Severity::Error);
    assert_eq!(findings[0].line, 5);
    assert_eq!(findings[0].col, 1);
}

#[test]
fn zero_sided_die_is_an_error() {
    let findings = lint_line(1, "1d0");
    assert_eq!(findings.len(), 1);
    assert_eq!(findings[0].code, "E002");
    assert_eq!(findings[0].severity, Severity::Error);
}

#[test]
fn single_sided_die_is_a_warning() {
    let findings = lint_line(1, "1d1");
    assert_eq!(findings.len(), 1);
    assert_eq!(findings[0].code, "W001");
    assert_eq!(findings[0].severity, Severity::Warning);
}

#[test]
fn oversized_dice_count_is_a_warning_with_the_count_in_the_message() {
    let findings = lint_line(1, "5000d8");
    assert_eq!(findings.len(), 1);
    assert_eq!(findings[0].code, "W002");
    assert!(findings[0].message.contains("5000"));
}

#[test]
fn dice_count_at_the_sane_limit_does_not_warn() {
    assert_eq!(codes("1000d6"), Vec::<&str>::new());
}

#[test]
fn keeping_zero_dice_is_an_error() {
    let findings = lint_line(1, "4d6kh0");
    assert_eq!(findings.len(), 1);
    assert_eq!(findings[0].code, "E003");
}

#[test]
fn keeping_every_die_rolled_is_a_warning() {
    let findings = lint_line(1, "3d6kh3");
    assert_eq!(findings.len(), 1);
    assert_eq!(findings[0].code, "W003");
}

#[test]
fn keeping_fewer_than_rolled_does_not_warn() {
    assert_eq!(codes("4d6kh1"), Vec::<&str>::new());
}

#[test]
fn a_term_can_produce_more_than_one_finding() {
    // zero sides and an unusually large count at once
    let findings = lint_line(1, "5000d0");
    let mut codes: Vec<_> = findings.iter().map(|f| f.code).collect();
    codes.sort();
    assert_eq!(codes, vec!["E002", "W002"]);
}

#[test]
fn missing_sides_after_die_is_a_parse_error() {
    let findings = lint_line(1, "3d");
    assert_eq!(findings.len(), 1);
    assert_eq!(findings[0].code, "E000");
    assert_eq!(findings[0].severity, Severity::Error);
}

#[test]
fn two_terms_without_an_operator_between_them_is_a_parse_error() {
    let findings = lint_line(1, "3d6 2d4");
    assert_eq!(findings.len(), 1);
    assert_eq!(findings[0].code, "E000");
    assert_eq!(findings[0].col, 5);
    assert!(findings[0].message.contains("expected '+' or '-'"));
}

#[test]
fn trailing_junk_character_is_a_parse_error() {
    let findings = lint_line(1, "3d6x");
    assert_eq!(findings.len(), 1);
    assert_eq!(findings[0].code, "E000");
    assert_eq!(findings[0].col, 4);
}

#[test]
fn render_format_matches_docs() {
    let findings = lint_line(1, "0d6");
    assert_eq!(
        findings[0].render(),
        "error[E001]: dice count is zero, this term always contributes nothing"
    );
}

// ---- further cases ----

fn one(text: &str) -> Finding {
    let mut findings = lint_line(7, text);
    assert_eq!(findings.len(), 1, "findings for {:?}", text);
    findings.remove(0)
}

#[test]
fn findings_of_one_term_come_in_rule_order() {
    assert_eq!(codes("5000d0"), vec!["W002", "E002"]);
    assert_eq!(codes("0d1kh0"), vec!["E001", "W001", "E003"]);
}

#[test]
fn rule_messages_and_severities() {
    let f = one("5000d8");
    assert_eq!(f.message, "dice count 5000 is unusually large, check for a typo");
    assert_eq!(f.severity, Severity::Warning);
    assert_eq!(f.line, 7);
    assert_eq!(one("1d0").message, "a die cannot have zero sides");
    assert_eq!(
        one("1d1").message,
        "a single-sided die always rolls 1, this is probably a typo"
    );
    assert_eq!(one("4d6kl0").message, "keep modifier keeps zero dice");
    let f = one("3d6kl4");
    assert_eq!(f.code, "W003");
    assert_eq!(f.message, "keep modifier keeps all dice, it has no effect here");
}

#[test]
fn dice_count_one_above_the_limit_warns() {
    assert_eq!(codes("1001d6"), vec!["W002"]);
    let f = one("18446744073709551615d6");
    assert_eq!(
        f.message,
        "dice count 18446744073709551615 is unusually large, check for a typo"
    );
}

#[test]
fn zero_count_with_a_keep_does_not_also_warn_about_keeping_all() {
    assert_eq!(codes("0d6kh2"), vec!["E001"]);
}

#[test]
fn findings_point_at_the_start_of_each_term() {
    let findings = lint_line(2, "2d6 + 0d4 - 1d1!");
    assert_eq!(findings.len(), 2);
    assert_eq!((findings[0].code, findings[0].col), ("E001", 7));
    assert_eq!((findings[1].code, findings[1].col), ("W001", 13));
    assert!(findings.iter().all(|f| f.line == 2));
}

#[test]
fn multiplied_and_grouped_terms_parse() {
    assert_eq!(codes("2d6*3"), Vec::<&str>::new());
    assert_eq!(codes("(1d6+2)*4"), Vec::<&str>::new());
    assert_eq!(codes("(2d4kh1! - 1) * 2 + 3d6"), Vec::<&str>::new());
    assert_eq!(codes("((1d6))"), Vec::<&str>::new());
    assert_eq!(codes("2d6 * 2 * 3 - (1)"), Vec::<&str>::new());
}

#[test]
fn rules_apply_inside_groups() {
    let findings = lint_line(1, "3 + (0d6 + (1d0))");
    assert_eq!(findings.len(), 2);
    assert_eq!((findings[0].code, findings[0].col), ("E001", 6));
    assert_eq!((findings[1].code, findings[1].col), ("E002", 13));
}

#[test]
fn zero_multiplier_is_an_error() {
    let f = one("(1d6+2) * 0");
    assert_eq!(f.code, "E004");
    assert_eq!(f.severity, Severity::Error);
    assert_eq!(f.col, 11);
    assert_eq!(
        f.message,
        "multiplier is zero, the scaled term always contributes nothing"
    );
    assert_eq!(codes("0d6*0"), vec!["E001", "E004"]);
}

#[test]
fn unclosed_group_is_a_parse_error_at_the_last_token() {
    let f = one("(1d6 + 2");
    assert_eq!(f.code, "E000");
    assert_eq!(f.col, 8);
    assert_eq!(f.message, "expected ')', found end of expression");
}

#[test]
fn unmatched_close_is_a_parse_error() {
    let f = one("1d6)");
    assert_eq!(f.code, "E000");
    assert_eq!(f.col, 4);
    assert_eq!(f.message, "found ')' without a matching '('");
}

#[test]
fn parse_error_messages_name_the_token_found() {
    assert_eq!(one("3d").message, "expected a number, found end of expression");
    assert_eq!(one("3d").col, 2);
    assert_eq!(one("3dd").message, "expected a number, found 'd'");
    assert_eq!(one("dd").message, "expected a number, found 'd'");
    assert_eq!(one("dd").col, 2);
    assert_eq!(one("d").message, "expected a number, found end of expression");
    assert_eq!(one("2 * d6").message, "expected a number, found 'd'");
    assert_eq!(one("3d6kh").message, "expected a number, found end of expression");
    assert_eq!(one("3d6kl+").message, "expected a number, found '+'");
    assert_eq!(one("()").message, "expected a number, found ')'");
    assert_eq!(one("2*x").message, "expected a number, found 'x'");
    assert_eq!(one("2*(3)").message, "expected a number, found '('");
    assert_eq!(one("2 - *").message, "expected a number, found '*'");
    assert_eq!(one("3 + kh").message, "expected a number, found 'kh'");
    assert_eq!(one("3 + kl").message, "expected a number, found 'kl'");
    assert_eq!(one("+3").message, "expected a number, found '+'");
    assert_eq!(one("-3").message, "expected a number, found '-'");
    assert_eq!(one("!").message, "expected a number, found '!'");
    assert_eq!(one("é").message, "expected a number, found 'é'");
    assert_eq!(one("2d6 +").message, "expected a number, found end of expression");
    assert_eq!(one("2d6 +").col, 5);
    let f = one("3 12");
    assert_eq!(f.message, "expected '+' or '-' between terms");
    assert_eq!(f.col, 3);
    assert_eq!(one("3d6x").message, "expected '+' or '-' between terms");
}

#[test]
fn render_writes_warnings_too() {
    assert_eq!(
        one("3d6kh5").render(),
        "warning[W003]: keep modifier keeps all dice, it has no effect here"
    );
    assert_eq!(
        one("3d").render(),
        "error[E000]: expected a number, found end of expression"
    );
}

fn lines(text: &str) -> Vec<String> {
    text.lines().map(String::from).collect()
}

#[test]
fn readme_loot_table() {
    let text = "# tier 1 chest\n2d6 + 3\n0d6\n1d0\n5000d8\n3d6kh5\n";
    let findings = lint_lines(&lines(text));
    let shown: Vec<(usize, usize, String)> = findings
        .iter()
        .map(|f| (f.line, f.col, f.render()))
        .collect();
    assert_eq!(
        shown,
        vec![
            (3, 1, "error[E001]: dice count is zero, this term always contributes nothing".to_string()),
            (4, 1, "error[E002]: a die cannot have zero sides".to_string()),
            (5, 1, "warning[W002]: dice count 5000 is unusually large, check for a typo".to_string()),
            (6, 1, "warning[W003]: keep modifier keeps all dice, it has no effect here".to_string()),
        ]
    );
    assert!(is_failure(&findings, false));
    assert!(is_failure(&findings, true));
}

#[test]
fn blank_and_comment_lines_are_skipped_but_counted() {
    let text = "\n   \n  # 0d6\n\t\n0d6\n";
    let findings = lint_lines(&lines(text));
    assert_eq!(findings.len(), 1);
    assert_eq!(findings[0].line, 5);
    assert!(is_skipped_line(""));
    assert!(is_skipped_line(" \t\u{a0}"));
    assert!(is_skipped_line("   # comment"));
    assert!(is_skipped_line("#"));
    assert!(!is_skipped_line(" 2d6 # trailing"));
    assert!(!is_skipped_line("x#"));
}

#[test]
fn a_line_with_junk_after_blank_still_lints() {
    let findings = lint_lines(&lines("  x\n"));
    assert_eq!(findings.len(), 1);
    assert_eq!(findings[0].code, "E000");
    assert_eq!(findings[0].col, 3);
}

#[test]
fn lenient_only_changes_how_warnings_are_treated() {
    let warnings = lint_lines(&lines("1d1\n5000d6\n"));
    assert_eq!(warnings.len(), 2);
    assert!(is_failure(&warnings, false));
    assert!(!is_failure(&warnings, true));

    let errors = lint_lines(&lines("0d6\n"));
    assert!(is_failure(&errors, false));
    assert!(is_failure(&errors, true));

    let clean = lint_lines(&lines("2d6+1\n# 0d6\n"));
    assert!(clean.is_empty());
    assert!(!is_failure(&clean, false));
    assert!(!is_failure(&clean, true));
}

#[test]
fn every_finding_has_a_documented_code_and_its_severity() {
    let inputs = [
        "0d6", "1d0", "1d1", "5000d8", "4d6kh0", "3d6kh3", "2d6*0", "3d", "((1d6)", "5000d0kh0",
        "0d1kl9 * 0 + (1001d1! - 7)", "x", ")",
    ];
    for text in inputs.iter() {
        for f in lint_line(3, text) {
            let expected = match f.code {
                "E000" | "E001" | "E002" | "E003" | "E004" => Severity::Error,
                "W001" | "W002" | "W003" => Severity::Warning,
                other => panic!("undocumented code {}", other),
            };
            assert_eq!(f.severity, expected);
            assert_eq!(f.line, 3);
            assert!(f.col >= 1 && f.col <= text.chars().count());
        }
    }
}

#[test]
fn a_dice_term_may_leave_out_its_count() {
    assert_eq!(codes("d6"), Vec::<&str>::new());
    assert_eq!(codes("d20 + 5 - (d4! * 2)"), Vec::<&str>::new());
    assert_eq!(codes("D8kl1 + 2"), vec!["W003"]);
    let f = one("d1");
    assert_eq!((f.code, f.col), ("W001", 1));
    let findings = lint_line(1, "3 +  d0");
    assert_eq!(findings.len(), 1);
    assert_eq!((findings[0].code, findings[0].col), ("E002", 6));
    let f = one("d6kh0");
    assert_eq!(f.code, "E003");
    assert_eq!(one("d6 d6").message, "expected '+' or '-' between terms");
    assert_eq!(one("d6 d6").col, 4);
}
