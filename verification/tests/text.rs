use croft::text::{
    char_vec, eq_ignore_ascii_case, find, is_whitespace, len, lines, lower_char, split_at_char,
    str_eq, to_ascii_lowercase, trim, trim_end, trim_end_matches, trim_start,
};

const SAMPLES: [&str; 14] = [
    "",
    " ",
    "a",
    "  a b  ",
    "\t\u{a0}x\u{3000}\u{2003}",
    "one\ntwo\n",
    "one\r\ntwo",
    "one\r\n\r\ntwo\r",
    "\n",
    "\n\n",
    "\r",
    "a\rb\nc",
    "\u{e9}\u{4e2d}\u{1f600}z",
    "MiXeD \u{c9}Z[",
];

#[test]
fn white_space_is_what_unicode_says() {
    for code in 0..=0x10ffff {
        if let Some(c) = char::from_u32(code) {
            assert_eq!(is_whitespace(c), c.is_whitespace(), "{c:?}");
        }
    }
}

#[test]
fn trimming_agrees_with_std() {
    for s in SAMPLES {
        assert_eq!(trim(s), s.trim());
        assert_eq!(trim_start(s), s.trim_start());
        assert_eq!(trim_end(s), s.trim_end());
        assert_eq!(trim_end_matches(s, ' '), s.trim_end_matches(' '));
    }
}

#[test]
fn lines_agree_with_std() {
    for s in SAMPLES {
        let expected: Vec<&str> = s.lines().collect();
        assert_eq!(lines(s), expected, "{s:?}");
    }
}

#[test]
fn cuts_lie_between_characters() {
    let s = "\u{e9}\u{4e2d}\u{1f600}z";
    assert_eq!(split_at_char(s, 0), ("", s));
    assert_eq!(split_at_char(s, 2), ("\u{e9}\u{4e2d}", "\u{1f600}z"));
    assert_eq!(split_at_char(s, 4), (s, ""));
    assert_eq!(len(s), 10);
    assert_eq!(char_vec(s), vec!['\u{e9}', '\u{4e2d}', '\u{1f600}', 'z']);
}

#[test]
fn case_folds_ascii_letters_only() {
    for s in SAMPLES {
        assert_eq!(to_ascii_lowercase(s), s.to_ascii_lowercase());
    }
    assert_eq!(to_ascii_lowercase("Indent_STYLE Z@[`{"), "indent_style z@[`{");
    assert_eq!(lower_char('Q'), 'q');
    assert_eq!(lower_char('\u{c9}'), '\u{c9}');
    assert!(eq_ignore_ascii_case("TrUe", "true"));
    assert!(!eq_ignore_ascii_case("\u{c9}", "\u{e9}"));
    assert!(!eq_ignore_ascii_case("tru", "true"));
    assert!(!eq_ignore_ascii_case("@", "`"));
}

#[test]
fn finding_and_comparing() {
    assert_eq!(find(&['a', 'b', 'b'], 'b'), 1);
    assert_eq!(find(&['a'], 'b'), 1);
    assert_eq!(find(&[], 'b'), 0);
    assert!(str_eq("ab", "ab"));
    assert!(!str_eq("ab", "aB"));
    assert!(!str_eq("ab", "abc"));
}
