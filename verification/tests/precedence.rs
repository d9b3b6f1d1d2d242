use croft::editorconfig::{
    apply_file, for_file_with, parse_bool, parse_is_root, parse_width, set_prop, split_pair,
    strip_comment, ConfigWalk, Eol, IndentSize, Props, Raw,
};
use croft::path::{ConfigFiles, FilePath};

fn config(text: &str, path: &str) -> Props {
    let mut files = ConfigFiles::new();
    files.insert(FilePath::new("/w/.editorconfig"), text.to_string());
    for_file_with(&files, &FilePath::new(path))
}

#[test]
fn widths_from_one_to_sixteen() {
    assert_eq!(parse_width("1"), Some(1));
    assert_eq!(parse_width("16"), Some(16));
    assert_eq!(parse_width("+4"), Some(4));
    assert_eq!(parse_width("0000000000000000000000008"), Some(8));
    for junk in ["", "+", "0", "17", "-1", "++1", "1 ", "4294967297", "99999999999999999999", "x", "\u{661}"] {
        assert_eq!(parse_width(junk), None, "{junk:?}");
    }
}

#[test]
fn truth_values_in_any_case() {
    assert_eq!(parse_bool("True"), Some(true));
    assert_eq!(parse_bool("FALSE"), Some(false));
    assert_eq!(parse_bool("yes"), None);
    assert_eq!(parse_bool(""), None);
}

#[test]
fn comments_are_cut_outside_headers() {
    assert_eq!(strip_comment("a = 1 ; b # c"), "a = 1 ");
    assert_eq!(strip_comment("a # b ; c"), "a ");
    assert_eq!(strip_comment("  [a#b] ; c"), "  [a#b] ; c");
    assert_eq!(strip_comment("plain"), "plain");
    assert_eq!(strip_comment("#"), "");
}

#[test]
fn pairs_need_a_key() {
    assert_eq!(split_pair(" a = b = c "), Some(("a", "b = c")));
    assert_eq!(split_pair("a="), Some(("a", "")));
    assert_eq!(split_pair("= b"), None);
    assert_eq!(split_pair("a b"), None);
}

#[test]
fn the_preamble_decides_the_root() {
    assert!(parse_is_root("ROOT=True"));
    assert!(parse_is_root("; x\n\nother = 1\nroot = true\n[*]\nroot = false"));
    assert!(!parse_is_root("[*]\nroot = true\n"));
    assert!(!parse_is_root("[never closed\nroot = true\n"));
    assert!(!parse_is_root("root = false\nroot = true\n"), "the first pair decides");
    assert!(parse_is_root("root = true\r\nroot = false\r\n"));
    assert!(!parse_is_root("root = yes"));
    assert!(!parse_is_root(""));
}

#[test]
fn every_property_is_set_and_unset() {
    let mut raw = Raw::default();
    assert!(raw.resolve().is_empty());
    set_prop(&mut raw, "indent_style", "SPACE");
    set_prop(&mut raw, "indent_size", "TAB");
    set_prop(&mut raw, "tab_width", "3");
    set_prop(&mut raw, "end_of_line", "LF");
    set_prop(&mut raw, "trim_trailing_whitespace", "TRUE");
    set_prop(&mut raw, "insert_final_newline", "False");
    assert_eq!(raw.indent_size, Some(IndentSize::Tab));
    let p = raw.resolve();
    assert_eq!(
        p,
        Props {
            use_spaces: Some(true),
            indent_width: Some(3),
            eol: Some(Eol::Lf),
            trim_trailing_whitespace: Some(true),
            insert_final_newline: Some(false),
        }
    );
    assert!(!p.is_empty());
    for key in [
        "indent_style",
        "indent_size",
        "tab_width",
        "end_of_line",
        "trim_trailing_whitespace",
        "insert_final_newline",
        "unheard_of",
    ] {
        set_prop(&mut raw, key, "Unset");
    }
    assert!(raw.resolve().is_empty());
    assert_eq!(raw.resolve(), Props::default());
}

#[test]
fn a_value_that_does_not_fit_keeps_or_clears() {
    let mut raw = Raw::default();
    set_prop(&mut raw, "indent_style", "tab");
    set_prop(&mut raw, "indent_style", "both");
    set_prop(&mut raw, "indent_size", "4");
    set_prop(&mut raw, "indent_size", "17");
    set_prop(&mut raw, "tab_width", "2");
    set_prop(&mut raw, "tab_width", "tab");
    set_prop(&mut raw, "end_of_line", "crlf");
    set_prop(&mut raw, "end_of_line", "cr");
    set_prop(&mut raw, "insert_final_newline", "true");
    set_prop(&mut raw, "insert_final_newline", "maybe");
    set_prop(&mut raw, "Indent_Style", "space");
    assert_eq!(raw.props.use_spaces, Some(false));
    assert_eq!(raw.indent_size, Some(IndentSize::Width(4)));
    assert_eq!(raw.tab_width, Some(2));
    assert_eq!(raw.props.eol, Some(Eol::Crlf));
    assert_eq!(raw.props.insert_final_newline, None);
    assert_eq!(raw.resolve().indent_width, Some(4));
}

#[test]
fn keys_are_read_in_any_case() {
    assert_eq!(config("[*]\nINDENT_Size = 5\n", "/w/a").indent_width, Some(5));
}

#[test]
fn the_preamble_sets_nothing() {
    assert!(config("indent_size = 5\n", "/w/a").is_empty());
}

#[test]
fn a_header_with_something_behind_it_is_none() {
    let p = config("[*.py]\nindent_size = 2\n[*.rs] # rust\nindent_size = 4\n", "/w/a.py");
    assert_eq!(p.indent_width, Some(4), "the section before goes on");
}

#[test]
fn a_file_elsewhere_is_left_alone() {
    let mut raw = Raw::default();
    let dir = FilePath::new("/w");
    apply_file(&mut raw, &dir, "[*]\ntab_width = 4", &FilePath::new("/v/a"));
    assert_eq!(raw.tab_width, None);
    apply_file(&mut raw, &dir, "[*]\ntab_width = 4", &FilePath::new("/w/a"));
    assert_eq!(raw.tab_width, Some(4));
}

#[test]
fn no_config_in_memory_resolves_to_empty() {
    let files = ConfigFiles::new();
    for path in ["/w/a.rs", "a.rs", "/", ""] {
        assert!(for_file_with(&files, &FilePath::new(path)).is_empty());
    }
}

#[test]
fn a_relative_path_is_walked_to_its_start() {
    let mut files = ConfigFiles::new();
    files.insert(FilePath::new(".editorconfig"), "[src/*.rs]\ntab_width = 7".to_string());
    assert_eq!(for_file_with(&files, &FilePath::new("src/a.rs")).indent_width, Some(7));
}

#[test]
fn the_walk_names_directories_nearest_first() {
    let mut walk = ConfigWalk::new(FilePath::new("/w/sub/a.rs"));
    assert!(walk.dir().unwrap().same_as(&FilePath::new("/w/sub")));
    walk.advance(Some("[*]\nindent_size = 2\n".to_string()));
    assert!(walk.dir().unwrap().same_as(&FilePath::new("/w")));
    walk.advance(Some("root = true\n[*]\nindent_size = 4\nindent_style = tab\n".to_string()));
    assert!(walk.dir().is_none());
    walk.advance(Some("[*]\nindent_size = 8\n".to_string()));
    let p = walk.finish();
    assert_eq!(p.indent_width, Some(2));
    assert_eq!(p.use_spaces, Some(false));
}

#[test]
fn the_walk_ends_at_the_root_directory() {
    let mut walk = ConfigWalk::new(FilePath::new("/w/a.rs"));
    walk.advance(None);
    assert!(walk.dir().unwrap().same_as(&FilePath::new("/")));
    walk.advance(None);
    assert!(walk.dir().is_none());
    assert!(walk.finish().is_empty());
}

#[test]
fn files_beyond_the_root_do_not_count() {
    let path = FilePath::new("/w/sub/a.rs");
    let mut files = ConfigFiles::new();
    files.insert(FilePath::new("/w/sub/.editorconfig"), "root = true\n[*]\ntab_width = 3\n".to_string());
    let alone = for_file_with(&files, &path);
    files.insert(FilePath::new("/w/.editorconfig"), "[*]\nindent_size = 9\n".to_string());
    assert_eq!(for_file_with(&files, &path), alone);
    assert_eq!(alone.indent_width, Some(3));
}
