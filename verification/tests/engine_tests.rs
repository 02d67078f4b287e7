use comment_lint::diag::Diagnostic;
use comment_lint::engine::compute_diagnostics;

fn d(code: u32, line: usize, character: usize) -> Diagnostic {
    Diagnostic { code, line, character }
}

#[test]
fn empty_document_yields_nothing() {
    assert_eq!(compute_diagnostics(b""), vec![]);
}

#[test]
fn clean_comment_passes() {
    assert_eq!(compute_diagnostics(b"import x;\nreturn y;"), vec![]);
}

#[test]
fn trailing_newline_is_not_a_line() {
    assert_eq!(compute_diagnostics(b"import x;\nreturn y;\n"), vec![]);
}

#[test]
fn crlf_line_endings_are_stripped() {
    assert_eq!(compute_diagnostics(b"import x;\r\nreturn y;"), vec![]);
}

#[test]
fn missing_import_flagged_first() {
    assert_eq!(
        compute_diagnostics(b"hello\nworld"),
        vec![d(2, 0, 0), d(3, 1, 0)]
    );
}

#[test]
fn import_substring_does_not_count() {
    // "important" holds "import" only as a substring, not as a whole word
    assert_eq!(compute_diagnostics(b"important\nreturn"), vec![d(2, 0, 0)]);
}

#[test]
fn import_and_return_are_case_insensitive() {
    assert_eq!(compute_diagnostics(b"IMPORT x;\nRETURN"), vec![]);
}

#[test]
fn single_line_always_missing_return() {
    // a single-line document is flagged even though the line says "return"
    assert_eq!(compute_diagnostics(b"import return"), vec![d(3, 0, 0)]);
}

#[test]
fn single_line_without_import_gets_both() {
    assert_eq!(compute_diagnostics(b"return"), vec![d(2, 0, 0), d(3, 0, 0)]);
}

#[test]
fn missing_return_on_last_line() {
    assert_eq!(compute_diagnostics(b"import\nfoo;\nbar"), vec![d(3, 2, 0)]);
}

#[test]
fn semicolon_rule_mid_sentence_period() {
    // the period+space break at column 11, and the unterminated tail
    assert_eq!(
        compute_diagnostics(b"import\nHello there. More words\nreturn"),
        vec![d(4, 1, 11), d(4, 1, 21)]
    );
}

#[test]
fn semicolon_rule_satisfied_line() {
    assert_eq!(compute_diagnostics(b"import\nHello there;\nreturn"), vec![]);
}

#[test]
fn semicolon_rule_short_unterminated_line() {
    assert_eq!(compute_diagnostics(b"import\nab\nreturn"), vec![d(4, 1, 0)]);
}

#[test]
fn semicolon_rule_single_byte_line_is_too_short() {
    // the end-of-line pattern needs at least two bytes
    assert_eq!(compute_diagnostics(b"import\na\nreturn"), vec![]);
}

#[test]
fn semicolon_rule_trailing_period() {
    assert_eq!(
        compute_diagnostics(b"import\nwords.\nreturn"),
        vec![d(4, 1, 4)]
    );
}

#[test]
fn semicolon_rule_flags_numbered_lists() {
    // an accepted limitation: "1. " looks like an unterminated sentence
    assert_eq!(
        compute_diagnostics(b"import\n1. foo\nreturn"),
        vec![d(4, 1, 1), d(4, 1, 4)]
    );
}

#[test]
fn rickroll_anchor_group_satisfied() {
    let text = b"import\n[x](https://a.com);\n[x](https://www.youtube.com/watch?v=dQw4w9WgXcQ);\nreturn";
    assert_eq!(compute_diagnostics(text), vec![]);
}

#[test]
fn rickroll_lone_link_flagged() {
    assert_eq!(
        compute_diagnostics(b"import\n[x](https://a.com);\nreturn"),
        vec![d(5, 1, 0)]
    );
}

#[test]
fn rickroll_single_canonical_link_satisfies_itself() {
    let text = b"import\n[x](https://www.youtube.com/watch?v=dQw4w9WgXcQ);\nreturn";
    assert_eq!(compute_diagnostics(text), vec![]);
}

#[test]
fn rickroll_first_line_is_scanned_too() {
    assert_eq!(
        compute_diagnostics(b"import [x](https://a.com)\nreturn"),
        vec![d(5, 0, 7)]
    );
}

#[test]
fn rickroll_groups_in_first_occurrence_order() {
    // anchor "a" occurs first, so its two violations precede "b"'s one
    assert_eq!(
        compute_diagnostics(b"import\n[a](u1) [b](u2);\n[a](u3);\nreturn"),
        vec![d(5, 1, 0), d(5, 2, 0), d(5, 1, 8)]
    );
}

#[test]
fn rickroll_mixed_groups() {
    // "a" is satisfied by its canonical sibling on line 2, "b" is not
    let text = b"import\n[a](https://a.com) [b](https://b.com);\n[a](https://www.youtube.com/watch?v=dQw4w9WgXcQ);\nreturn";
    assert_eq!(compute_diagnostics(text), vec![d(5, 1, 19)]);
}

#[test]
fn single_line_with_link() {
    assert_eq!(
        compute_diagnostics(b"[x](u)"),
        vec![d(2, 0, 0), d(3, 0, 0), d(5, 0, 0)]
    );
}

#[test]
fn empty_internal_line_passes() {
    assert_eq!(compute_diagnostics(b"import\n\nreturn"), vec![]);
}

#[test]
fn lone_carriage_return_stays_in_line() {
    // "ab\rcd" is one 5-byte line; only "\r\n" marks a line ending
    assert_eq!(
        compute_diagnostics(b"import\nab\rcd\nreturn"),
        vec![d(4, 1, 3)]
    );
}

#[test]
fn semicolon_rule_period_then_semicolon_ending() {
    // "ab.;" has a period before the final byte and ends in a semicolon
    assert_eq!(compute_diagnostics(b"import\nab.;\nreturn"), vec![]);
}

#[test]
fn semicolon_rule_repeated_sentence_breaks() {
    // "a. b. c": two period+space breaks; the 1-byte tail is too short
    assert_eq!(
        compute_diagnostics(b"import\na. b. c\nreturn"),
        vec![d(4, 1, 1), d(4, 1, 4)]
    );
}

#[test]
fn link_anchor_may_hold_a_parenthesis() {
    assert_eq!(
        compute_diagnostics(b"import\n[a)b](u)\nreturn"),
        vec![d(4, 1, 6), d(5, 1, 0)]
    );
}

#[test]
fn link_with_empty_url_is_no_link() {
    assert_eq!(
        compute_diagnostics(b"import\n[x]()\nreturn"),
        vec![d(4, 1, 3)]
    );
}

#[test]
fn link_with_empty_anchor_is_no_link() {
    assert_eq!(
        compute_diagnostics(b"import\n[](u)\nreturn"),
        vec![d(4, 1, 3)]
    );
}

#[test]
fn link_needs_adjacent_parenthesis() {
    assert_eq!(
        compute_diagnostics(b"import\n[x] (u)\nreturn"),
        vec![d(4, 1, 5)]
    );
}

#[test]
fn evaluation_is_idempotent() {
    let text = b"hello\nHello there. More words\n[a](u1)\nbye";
    let first = compute_diagnostics(text);
    let second = compute_diagnostics(text);
    assert_eq!(first, second);
    let messages_first: Vec<&str> = first.iter().map(|d| d.message()).collect();
    let messages_second: Vec<&str> = second.iter().map(|d| d.message()).collect();
    assert_eq!(messages_first, messages_second);
}

#[test]
fn messages_are_fixed_per_code() {
    assert_eq!(
        d(2, 0, 0).message(),
        "All posts and comments should start with an \"import\" declaration."
    );
    assert_eq!(d(3, 0, 0).message(), "All comments must return a value");
    assert_eq!(
        d(4, 0, 0).message(),
        "For comments, every sentence must end with a semicolon"
    );
    assert_eq!(
        d(5, 0, 0).message(),
        "Every post linking to something must contain a second, identical-looking link to a rick-roll"
    );
}
