use croft::markdown_lint::{diag, lint, DiagnosticSeverity};

#[test]
fn flags_a_second_top_level_heading() {
    let text = "# Title\n\nSome text.\n\n# Another Title\n";
    let diags = lint(text);
    assert!(
        diags.iter().any(|d| d.message.contains("MD025")),
        "found: {diags:?}"
    );
}

#[test]
fn single_h1_is_not_flagged() {
    let text = "# Title\n\nSome text.\n\n## Subheading\n";
    let diags = lint(text);
    assert!(!diags.iter().any(|d| d.message.contains("MD025")));
}

#[test]
fn flags_missing_space_after_hash() {
    let text = "#Title with no space\n";
    let diags = lint(text);
    assert!(diags.iter().any(|d| d.message.contains("MD018")));
}

#[test]
fn flags_trailing_whitespace_but_not_hard_break() {
    let text = "trailing spaces here   \nhard break here  \nclean line\n";
    let diags = lint(text);
    let md009: Vec<_> = diags
        .iter()
        .filter(|d| d.message.contains("MD009"))
        .collect();
    assert_eq!(md009.len(), 1, "found: {diags:?}");
    assert_eq!(md009[0].start_line, 0);
}

#[test]
fn flags_multiple_consecutive_blank_lines() {
    let text = "one\n\n\n\ntwo\n";
    let diags = lint(text);
    assert!(
        diags.iter().any(|d| d.message.contains("MD012")),
        "found: {diags:?}"
    );
}

#[test]
fn single_blank_line_is_not_flagged() {
    let text = "one\n\ntwo\n";
    let diags = lint(text);
    assert!(!diags.iter().any(|d| d.message.contains("MD012")));
}

#[test]
fn clean_document_has_no_diagnostics() {
    let text = "# Title\n\nA paragraph with *emphasis* and a [link](https://example.com).\n\n## Section\n\nMore text.\n";
    assert!(lint(text).is_empty(), "found: {:?}", lint(text));
}

#[test]
fn positions_are_byte_offsets() {
    let diags = lint("\u{3000}##\u{e9}\u{e9} ");
    assert_eq!(diags.len(), 2);
    assert_eq!(diags[0].message, "MD018: no space after '#' in the heading marker");
    assert_eq!(diags[0].severity, DiagnosticSeverity::Warning);
    assert_eq!((diags[0].start_line, diags[0].end_line), (0, 0));
    assert_eq!((diags[0].start_char, diags[0].end_char), (3, 5));
    assert_eq!(diags[1].message, "MD009: trailing whitespace");
    assert_eq!(diags[1].severity, DiagnosticSeverity::Hint);
    assert_eq!((diags[1].start_char, diags[1].end_char), (9, 10));
}

fn found(text: &str) -> Vec<(u32, u32, u32, String)> {
    lint(text)
        .into_iter()
        .map(|d| {
            assert_eq!(d.start_line, d.end_line);
            (d.start_line, d.start_char, d.end_char, d.message[..5].to_string())
        })
        .collect()
}

#[test]
fn diagnostics_stand_in_document_order() {
    assert_eq!(
        found("# A \n\n\n\n# B\n#c   \n"),
        vec![
            (0, 3, 4, "MD009".to_string()),
            (2, 0, 0, "MD012".to_string()),
            (4, 0, 3, "MD025".to_string()),
            (5, 0, 1, "MD018".to_string()),
            (5, 2, 5, "MD009".to_string()),
        ]
    );
}

#[test]
fn blank_runs_are_flagged_once_each() {
    assert_eq!(
        found("\n\n\n\na\n \n\t\nb\n\n"),
        vec![(1, 0, 0, "MD012".to_string()), (6, 0, 0, "MD012".to_string())]
    );
    assert_eq!(found("a\n\n\n"), vec![(2, 0, 0, "MD012".to_string())]);
    assert_eq!(found("\n\t \n"), vec![(1, 0, 0, "MD012".to_string())]);
}

#[test]
fn headings_up_to_six_hashes() {
    assert_eq!(found("######x"), vec![(0, 0, 6, "MD018".to_string())]);
    assert_eq!(found("#######x"), vec![]);
    assert_eq!(found("#"), vec![]);
    assert_eq!(found("###"), vec![]);
    assert_eq!(found("#\tx"), vec![(0, 0, 1, "MD018".to_string())]);
    assert_eq!(found("  # a\r\n# b\r\n## c"), vec![(1, 0, 3, "MD025".to_string())]);
}

#[test]
fn blank_lines_have_no_stray_spaces() {
    assert_eq!(found("\t \n"), vec![]);
    assert_eq!(found("\u{3000}   \n"), vec![]);
    assert_eq!(found("   "), vec![]);
    assert_eq!(found("a "), vec![(0, 1, 2, "MD009".to_string())]);
    assert_eq!(found("a  "), vec![]);
    assert_eq!(found("a\t"), vec![]);
    assert_eq!(found(""), vec![]);
}

#[test]
fn a_diagnostic_keeps_the_low_bits_of_a_position() {
    let d = diag(0x1_0000_0002, 3, 0x2_0000_0005, DiagnosticSeverity::Hint, "m");
    assert_eq!((d.start_line, d.end_line), (2, 2));
    assert_eq!((d.start_char, d.end_char), (3, 5));
    assert_eq!(d.message, "m");
}
