use croft::editorconfig::{for_file_with, Eol};
use croft::glob::section_matches;
use croft::path::{ConfigFiles, FilePath};

fn files(entries: &[(&str, &str)]) -> ConfigFiles {
    let mut files = ConfigFiles::new();
    for (path, text) in entries {
        files.insert(FilePath::new(path), (*text).to_string());
    }
    files
}

#[test]
fn indent_style_and_size_are_read() {
    let f = files(&[(
        "/w/.editorconfig",
        "root = true\n\n[*]\nindent_style = space\nindent_size = 2\n",
    )]);
    let p = for_file_with(&f, &FilePath::new("/w/src/a.rs"));
    assert_eq!(p.use_spaces, Some(true));
    assert_eq!(p.indent_width, Some(2));
}

#[test]
fn a_later_matching_section_overrides_an_earlier_one() {
    let f = files(&[(
        "/w/.editorconfig",
        "root = true\n[*]\nindent_size = 4\n[*.rs]\nindent_size = 8\n",
    )]);
    assert_eq!(for_file_with(&f, &FilePath::new("/w/a.rs")).indent_width, Some(8));
    assert_eq!(for_file_with(&f, &FilePath::new("/w/a.py")).indent_width, Some(4));
}

#[test]
fn a_nearer_config_wins_over_an_outer_one() {
    let f = files(&[
        ("/w/.editorconfig", "root = true\n[*]\nindent_size = 4\n"),
        ("/w/vendor/.editorconfig", "[*]\nindent_size = 2\n"),
    ]);
    assert_eq!(for_file_with(&f, &FilePath::new("/w/a.rs")).indent_width, Some(4));
    assert_eq!(
        for_file_with(&f, &FilePath::new("/w/vendor/a.rs")).indent_width,
        Some(2),
        "the nearer file wins"
    );
}

#[test]
fn root_true_stops_the_upward_walk() {
    let f = files(&[
        ("/w/.editorconfig", "[*]\ninsert_final_newline = true\n"),
        ("/w/sub/.editorconfig", "root = true\n[*]\nindent_size = 2\n"),
    ]);
    let p = for_file_with(&f, &FilePath::new("/w/sub/a.rs"));
    assert_eq!(p.indent_width, Some(2));
    assert_eq!(
        p.insert_final_newline, None,
        "the outer file is never read past a root = true"
    );
}

#[test]
fn tab_style_and_tab_width_resolve_together() {
    let f = files(&[(
        "/w/.editorconfig",
        "root = true\n[*]\nindent_style = tab\nindent_size = tab\ntab_width = 8\n",
    )]);
    let p = for_file_with(&f, &FilePath::new("/w/Makefile"));
    assert_eq!(p.use_spaces, Some(false));
    assert_eq!(p.indent_width, Some(8), "indent_size = tab defers to tab_width");
}

/// `tab_width` only stands in for an `indent_size` that is absent or `tab`; a
/// numeric `indent_size` wins wherever `tab_width` appears.
#[test]
fn a_numeric_indent_size_beats_tab_width_in_either_order() {
    for body in [
        "[*]\nindent_style = space\nindent_size = 2\ntab_width = 8\n",
        "[*]\nindent_style = space\ntab_width = 8\nindent_size = 2\n",
    ] {
        let f = files(&[("/w/.editorconfig", &format!("root = true\n{body}"))]);
        assert_eq!(
            for_file_with(&f, &FilePath::new("/w/a.rs")).indent_width,
            Some(2),
            "{body:?}"
        );
    }
}

/// The precedence holds across files too: a nearer file naming only
/// `tab_width` does not override an outer file's numeric `indent_size`.
#[test]
fn a_nearer_tab_width_does_not_override_an_outer_indent_size() {
    let f = files(&[
        ("/w/.editorconfig", "root = true\n[*]\nindent_size = 2\n"),
        ("/w/sub/.editorconfig", "[*]\ntab_width = 8\n"),
    ]);
    assert_eq!(for_file_with(&f, &FilePath::new("/w/sub/a.rs")).indent_width, Some(2));
}

/// `tab_width = unset` clears `tab_width` alone, not `indent_size`.
#[test]
fn unsetting_tab_width_keeps_indent_size() {
    let f = files(&[(
        "/w/.editorconfig",
        "root = true\n[*]\nindent_size = 2\ntab_width = 8\n[*.rs]\ntab_width = unset\n",
    )]);
    assert_eq!(for_file_with(&f, &FilePath::new("/w/a.rs")).indent_width, Some(2));
}

/// Plain backtracking is exponential in the number of stars, and the pattern
/// comes from whatever repository the user opened a file in.
#[test]
fn a_many_star_glob_does_not_backtrack_exponentially() {
    let name = format!("{}.rs", "a".repeat(40));
    let start = std::time::Instant::now();
    let hit = section_matches("*a*a*a*a*a*a*a*a*a*a*a*b", &name);
    assert!(
        start.elapsed() < std::time::Duration::from_secs(5),
        "glob matching must not take seconds"
    );
    assert!(!hit, "no `b` in the name, so no match");
    assert!(
        section_matches("*a*a*a*b.rs", "xaayaazab.rs"),
        "the same shape still matches when it should"
    );
}

#[test]
fn eol_and_the_on_save_flags_are_read() {
    let f = files(&[(
        "/w/.editorconfig",
        "root = true\n[*]\nend_of_line = crlf\ntrim_trailing_whitespace = true\ninsert_final_newline = false\n",
    )]);
    let p = for_file_with(&f, &FilePath::new("/w/a.txt"));
    assert_eq!(p.eol, Some(Eol::Crlf));
    assert_eq!(p.trim_trailing_whitespace, Some(true));
    assert_eq!(p.insert_final_newline, Some(false));
}

#[test]
fn unset_clears_an_inherited_property() {
    let f = files(&[
        ("/w/.editorconfig", "root = true\n[*]\nindent_size = 4\n"),
        ("/w/gen/.editorconfig", "[*]\nindent_size = unset\n"),
    ]);
    assert_eq!(for_file_with(&f, &FilePath::new("/w/gen/a.rs")).indent_width, None);
}

#[test]
fn comments_and_blank_lines_are_ignored() {
    let f = files(&[(
        "/w/.editorconfig",
        "# a comment\nroot = true\n\n[*]\n; another\nindent_size = 3  # trailing\n",
    )]);
    assert_eq!(for_file_with(&f, &FilePath::new("/w/a.rs")).indent_width, Some(3));
}

#[test]
fn unknown_properties_are_ignored_not_fatal() {
    let f = files(&[(
        "/w/.editorconfig",
        "root = true\n[*]\nmax_line_length = 100\nquux = 7\nindent_size = 2\n",
    )]);
    assert_eq!(for_file_with(&f, &FilePath::new("/w/a.rs")).indent_width, Some(2));
}

#[test]
fn a_file_with_nothing_to_say_resolves_to_empty() {
    let f = files(&[("/w/.editorconfig", "root = true\n[*.py]\nindent_size = 2\n")]);
    assert!(for_file_with(&f, &FilePath::new("/w/a.rs")).is_empty());
}

#[test]
fn brace_alternatives_match() {
    assert!(section_matches("*.{js,ts,tsx}", "src/a.ts"));
    assert!(section_matches("*.{js,ts,tsx}", "a.tsx"));
    assert!(!section_matches("*.{js,ts,tsx}", "a.rs"));
}

#[test]
fn a_bare_glob_matches_at_any_depth_but_a_slashed_one_is_anchored() {
    assert!(section_matches("*.rs", "deep/nested/a.rs"));
    assert!(section_matches("src/*.rs", "src/a.rs"));
    assert!(
        !section_matches("src/*.rs", "other/src/a.rs"),
        "a glob containing / is relative to the config's own directory"
    );
}

#[test]
fn single_star_stops_at_a_slash_but_double_star_crosses_it() {
    assert!(!section_matches("src/*.rs", "src/deep/a.rs"));
    assert!(section_matches("src/**.rs", "src/deep/a.rs"));
    assert!(section_matches("src/**/*.rs", "src/deep/a.rs"));
    assert!(
        section_matches("src/**/*.rs", "src/a.rs"),
        "**/ must also match zero directories"
    );
}

#[test]
fn question_marks_and_character_classes_match() {
    assert!(section_matches("a?.rs", "a1.rs"));
    assert!(!section_matches("a?.rs", "a12.rs"));
    assert!(section_matches("[abc].rs", "b.rs"));
    assert!(!section_matches("[abc].rs", "d.rs"));
    assert!(section_matches("[!abc].rs", "d.rs"));
    assert!(section_matches("[a-z].rs", "q.rs"));
    assert!(!section_matches("[a-z].rs", "Q.rs"));
}

#[test]
fn a_leading_slash_anchors_to_the_config_directory() {
    assert!(section_matches("/a.rs", "a.rs"));
    assert!(!section_matches("/a.rs", "sub/a.rs"));
}
