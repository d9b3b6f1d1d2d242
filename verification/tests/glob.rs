use croft::braces::expand_braces;
use croft::glob::{glob_match, match_class, section_matches};

fn matches_glob(p: &str, t: &str) -> bool {
    glob_match(
        &p.chars().collect::<Vec<_>>(),
        &t.chars().collect::<Vec<_>>(),
    )
}

#[test]
fn a_literal_matches_itself_alone() {
    assert!(matches_glob("", ""));
    assert!(matches_glob("a{b}", "a{b}"));
    assert!(!matches_glob("abc", "ab"));
    assert!(!matches_glob("ab", "abc"));
    assert!(!matches_glob("", "a"));
}

#[test]
fn stars_and_slashes() {
    assert!(matches_glob("*", ""));
    assert!(matches_glob("*", "abc"));
    assert!(!matches_glob("*", "a/b"));
    assert!(matches_glob("**", "a/b/c"));
    assert!(matches_glob("**", ""));
    assert!(matches_glob("**/x", "x"));
    assert!(matches_glob("**/x", "a/b/x"));
    assert!(!matches_glob("**/x", "ax"));
    assert!(matches_glob("a**b", "a/x/b"));
    assert!(matches_glob("***", "a/b"));
    assert!(!matches_glob("?", "/"));
    assert!(!matches_glob("?", ""));
    assert!(matches_glob("a/", "a/"));
}

#[test]
fn classes_at_their_edges() {
    assert!(!matches_glob("[]a]", "]a]"));
    assert!(!matches_glob("[]", "x"));
    assert!(matches_glob("[!]", "x"));
    assert!(!matches_glob("[!]", "/"));
    assert!(!matches_glob("[/]", "/"));
    assert!(!matches_glob("[!a]", "/"));
    assert!(!matches_glob("[a]", ""));
    assert!(matches_glob("[ab", "[ab"));
    assert!(!matches_glob("[ab", "a"));
    assert!(matches_glob("[a-c]x", "bx"));
    assert!(matches_glob("[a-]", "-"));
    assert!(matches_glob("[-a]", "-"));
    assert!(!matches_glob("[c-a]", "b"));
    assert!(matches_glob("[a-cx-z]", "y"));
    assert!(!matches_glob("[a-c]", "-"));
    assert!(matches_glob("[a!]", "!"));
    assert!(matches_glob("[[]", "["));
}

#[test]
fn a_negated_class_is_the_complement() {
    for c in ['a', 'b', 'm', 'z', '-', '!', 'Q'] {
        let t = c.to_string();
        assert!(matches_glob("[b-m-]", &t) != matches_glob("[!b-m-]", &t), "{c}");
    }
    assert!(match_class(&['[', '!', 'a', ']'], 3, 'b'));
    assert!(!match_class(&['[', '!', 'a', ']'], 3, 'a'));
    assert!(!match_class(&['[', '!', 'a', ']'], 3, '/'));
}

#[test]
fn braces_expand_in_order() {
    assert_eq!(expand_braces("abc"), vec!["abc"]);
    assert_eq!(expand_braces(""), vec![""]);
    assert_eq!(expand_braces("a{b,c}d"), vec!["abd", "acd"]);
    assert_eq!(expand_braces("a{b,c{d,e}}f"), vec!["abf", "acdf", "acef"]);
    assert_eq!(expand_braces("{a,b}{c,d}"), vec!["ac", "ad", "bc", "bd"]);
    assert_eq!(expand_braces("{a}"), vec!["a"]);
    assert_eq!(expand_braces("x{}y"), vec!["xy"]);
    assert_eq!(expand_braces("{a,}b"), vec!["ab", "b"]);
    assert_eq!(expand_braces("{a,b"), vec!["{a,b"]);
    assert_eq!(expand_braces("{a{b,c}"), vec!["{a{b,c}"]);
    assert_eq!(expand_braces("a}b{c,d}"), vec!["a}bc", "a}bd"]);
    assert_eq!(expand_braces("\u{e9}{\u{4e2d},z}\u{1f600}"), vec!["\u{e9}\u{4e2d}\u{1f600}", "\u{e9}z\u{1f600}"]);
}

#[test]
fn alternatives_may_hold_braces_and_commas() {
    assert_eq!(expand_braces("x{a{b,c},d}y"), vec!["xaby", "xacy", "xdy"]);
    assert_eq!(
        expand_braces("x{{a,b},c{d,{e,f}}}y"),
        vec!["xay", "xby", "xcdy", "xcey", "xcfy"]
    );
    for (part, rest) in [("a{b,c}", "d"), ("{}", "{x,y}"), ("{a,{b,c}}e", "")] {
        let mut each = expand_braces(&format!("p{}s", part));
        each.extend(expand_braces(&format!("p{}s", rest)));
        assert_eq!(expand_braces(&format!("p{{{},{}}}s", part, rest)), each);
    }
}

#[test]
fn a_balanced_prefix_expands_on_its_own() {
    assert_eq!(
        expand_braces("{a,b}{c,{d,e}}"),
        vec!["ac", "ad", "ae", "bc", "bd", "be"]
    );
    assert_eq!(expand_braces("{a,b}{c"), vec!["a{c", "b{c"]);
    for (a, b) in [("x{a{b,c},d}y", "z{1,2}"), ("{a,b}", "}{c,d}"), ("{a,}{b,c}", "{,d")] {
        let mut each: Vec<String> = Vec::new();
        for head in expand_braces(a) {
            for tail in expand_braces(b) {
                each.push(format!("{}{}", head, tail));
            }
        }
        assert_eq!(expand_braces(&format!("{}{}", a, b)), each);
    }
}

#[test]
fn anchoring() {
    assert!(section_matches("a/b", "a/b"));
    assert!(!section_matches("a/b", "x/a/b"));
    assert!(section_matches("/a/b", "a/b"));
    assert!(section_matches("{a,b/c}", "b/c"));
    assert!(!section_matches("{a,b/c}", "x/a"), "one slash anchors every alternative");
    assert!(section_matches("x{a,b}", "d/e/xb"));
    assert!(section_matches("a**c", "a/b/c"), "** reaches across directories");
    assert!(!section_matches("", "a"));
    assert!(section_matches("", ""));
}
