//! `.editorconfig` support.
//!
//! Reads the [EditorConfig](https://editorconfig.org) files that apply to a
//! path and resolves the properties croft can honour:
//!
//! | property                   | effect in croft                          |
//! |----------------------------|------------------------------------------|
//! | `indent_style`             | spaces vs tabs for typed indentation     |
//! | `indent_size` / `tab_width`| the indent width                         |
//! | `end_of_line`              | the line ending written on save          |
//! | `trim_trailing_whitespace` | strips trailing spaces on save           |
//! | `insert_final_newline`     | guarantees a trailing newline on save    |
//!
//! Unknown properties are ignored rather than rejected: a file written for
//! another editor must not make croft refuse the ones it shares.

use vstd::prelude::*;
use crate::glob;
use crate::path;
use crate::path::{ConfigFiles, FilePath};
use crate::text;

pub mod chain;
pub mod laws;
pub mod reading;

verus! {

/// A line-ending choice from `end_of_line`.
#[derive(Debug, Clone, Copy, PartialEq, Eq)]
pub enum Eol {
    Lf,
    Crlf,
}

/// The resolved properties for one file. Every field is an `Option` because
/// "unset" and "set to the default" are different: only a property that some
/// `.editorconfig` named may override croft's own detection.
#[derive(Debug, Clone, Copy, PartialEq, Eq)]
pub struct Props {
    /// `Some(true)` for `indent_style = space`, `Some(false)` for `tab`.
    pub use_spaces: Option<bool>,
    /// `indent_size`, or `tab_width` when `indent_size` is absent or `tab`.
    pub indent_width: Option<u32>,
    pub eol: Option<Eol>,
    pub trim_trailing_whitespace: Option<bool>,
    pub insert_final_newline: Option<bool>,
}

/// Properties of which none is set.
pub open spec fn no_props() -> Props {
    Props {
        use_spaces: None,
        indent_width: None,
        eol: None,
        trim_trailing_whitespace: None,
        insert_final_newline: None,
    }
}

impl Default for Props {
    fn default() -> (r: Props)
        ensures
            r == no_props(),
    {
        Props {
            use_spaces: None,
            indent_width: None,
            eol: None,
            trim_trailing_whitespace: None,
            insert_final_newline: None,
        }
    }
}

impl Props {
    /// Whether no property at all is set, i.e. whether no `.editorconfig` had
    /// anything to say about the file.
    pub fn is_empty(&self) -> (r: bool)
        ensures
            r == (*self == no_props()),
    {
        self.use_spaces.is_none() && self.indent_width.is_none() && self.eol.is_none()
            && self.trim_trailing_whitespace.is_none() && self.insert_final_newline.is_none()
    }
}

/// `indent_size` as written: a width, or `tab` to defer to `tab_width`.
#[derive(Debug, Clone, Copy, PartialEq, Eq)]
pub enum IndentSize {
    Width(u32),
    Tab,
}

/// Properties as read, before the indent width is derived. `indent_size` and
/// `tab_width` are held apart because their precedence is not "last one read
/// wins": a numeric `indent_size` beats `tab_width` whichever line or file
/// comes later, so the width can only be settled once every file has been
/// folded in.
#[derive(Debug, Clone, Copy)]
pub struct Raw {
    pub props: Props,
    pub indent_size: Option<IndentSize>,
    pub tab_width: Option<u32>,
}

/// What is known before any file has been read.
pub open spec fn no_raw() -> Raw {
    Raw { props: no_props(), indent_size: None, tab_width: None }
}

/// The indent width that `indent_size` and `tab_width` come to.
pub open spec fn settled_width(indent_size: Option<IndentSize>, tab_width: Option<u32>) -> Option<
    u32,
> {
    match indent_size {
        Some(IndentSize::Width(n)) => Some(n),
        Some(IndentSize::Tab) => tab_width,
        None => tab_width,
    }
}

/// The properties that `raw` comes to.
pub open spec fn resolved(raw: Raw) -> Props {
    Props { indent_width: settled_width(raw.indent_size, raw.tab_width), ..raw.props }
}

impl Default for Raw {
    fn default() -> (r: Raw)
        ensures
            r == no_raw(),
    {
        Raw { props: Props::default(), indent_size: None, tab_width: None }
    }
}

impl Raw {
    /// Settles the indent width.
    pub fn resolve(self) -> (r: Props)
        ensures
            r == resolved(self),
    {
        let indent_width = match self.indent_size {
            Some(IndentSize::Width(n)) => Some(n),
            Some(IndentSize::Tab) | None => self.tab_width,
        };
        Props { indent_width, ..self.props }
    }
}

/// The filename that the EditorConfig format fixes.
pub const FILENAME: &'static str = ".editorconfig";

/// The number that the digits `s` write in base ten.
pub open spec fn decimal(s: Seq<char>) -> nat
    decreases s.len(),
{
    if s.len() == 0 {
        0
    } else {
        decimal(s.drop_last()) * 10 + (s.last() as nat - '0' as nat) as nat
    }
}

/// Whether `s` is one or more ASCII digits.
pub open spec fn is_number(s: Seq<char>) -> bool {
    s.len() > 0 && forall|i: int| 0 <= i < s.len() ==> '0' <= #[trigger] s[i] <= '9'
}

/// `value` without a leading plus sign.
pub open spec fn unsigned(value: Seq<char>) -> Seq<char> {
    if value.len() > 0 && value[0] == '+' {
        value.skip(1)
    } else {
        value
    }
}

/// The width that `value` writes: a number from 1 to 16, with or without a
/// plus sign. Anything else is none.
pub open spec fn width_of(value: Seq<char>) -> Option<u32> {
    let digits = unsigned(value);
    if is_number(digits) && 1 <= decimal(digits) <= 16 {
        Some(decimal(digits) as u32)
    } else {
        None
    }
}

/// The truth value that `value` writes, in any case.
pub open spec fn bool_of(value: Seq<char>) -> Option<bool> {
    if text::same_ignoring_case(value, "true"@) {
        Some(true)
    } else if text::same_ignoring_case(value, "false"@) {
        Some(false)
    } else {
        None
    }
}

/// A width croft will honour; anything else is ignored like an unknown value.
pub fn parse_width(value: &str) -> (r: Option<u32>)
    ensures
        r == width_of(value@),
{
    let chars = text::char_vec(value);
    let start: usize = if chars.len() > 0 && chars[0] == '+' {
        1
    } else {
        0
    };
    let ghost digits = value@.skip(start as int);
    assert(value@.skip(0) =~= value@);
    let mut n: u32 = 0;
    let mut i: usize = start;
    while i < chars.len()
        invariant
            chars@ == value@,
            start <= i <= value@.len(),
            digits == value@.skip(start as int),
            digits == unsigned(value@),
            n <= 169,
            n <= 16 ==> n == decimal(digits.take(i - start)),
            n > 16 ==> decimal(digits.take(i - start)) > 16,
            forall|k: int| 0 <= k < i - start ==> '0' <= #[trigger] digits[k] <= '9',
        decreases chars.len() - i,
    {
        let c = chars[i];
        assert(digits[i - start] == c);
        if c < '0' || '9' < c {
            return None;
        }
        assert(digits.take(i + 1 - start).drop_last() =~= digits.take(i - start));
        if n <= 16 {
            n = n * 10 + (c as u32 - '0' as u32);
        }
        i = i + 1;
    }
    assert(digits.take(i - start) =~= digits);
    if i > start && 1 <= n && n <= 16 {
        Some(n)
    } else {
        None
    }
}

/// The truth value that `value` writes, in any case.
pub fn parse_bool(value: &str) -> (r: Option<bool>)
    ensures
        r == bool_of(value@),
{
    if text::eq_ignore_ascii_case(value, "true") {
        Some(true)
    } else if text::eq_ignore_ascii_case(value, "false") {
        Some(false)
    } else {
        None
    }
}

/// `line` without its comment, which `;` or `#` starts. A line that begins
/// like a section header has none: a glob may hold those characters.
pub open spec fn uncommented(line: Seq<char>) -> Seq<char> {
    let t = text::trimmed_start(line);
    if t.len() > 0 && t[0] == '[' {
        line
    } else {
        let semicolon = text::find_char(line, ';');
        let hash = text::find_char(line, '#');
        line.take(if semicolon < hash {
            semicolon as int
        } else {
            hash as int
        })
    }
}

/// `line` without its comment.
pub fn strip_comment(line: &str) -> (r: &str)
    ensures
        r@ == uncommented(line@),
{
    let head = text::char_vec(text::trim_start(line));
    if head.len() > 0 && head[0] == '[' {
        return line;
    }
    let chars = text::char_vec(line);
    let semicolon: usize = text::find(chars.as_slice(), ';');
    let hash: usize = text::find(chars.as_slice(), '#');
    let end: usize = if semicolon < hash {
        semicolon
    } else {
        hash
    };
    text::split_at_char(line, end).0
}

/// The key and the value of a line `key = value`; the key is not empty.
pub open spec fn pair_of(line: Seq<char>) -> Option<(Seq<char>, Seq<char>)> {
    let n = text::find_char(line, '=') as int;
    let key = text::trimmed(line.take(n));
    if n < line.len() && key.len() > 0 {
        Some((key, text::trimmed(line.skip(n + 1))))
    } else {
        None
    }
}

/// The key and the value of a line `key = value`.
pub fn split_pair(line: &str) -> (r: Option<(&str, &str)>)
    ensures
        r matches Some((key, value)) ==> pair_of(line@) == Some((key@, value@)),
        r is None ==> pair_of(line@) is None,
{
    let chars = text::char_vec(line);
    let n: usize = text::find(chars.as_slice(), '=');
    if n == chars.len() {
        return None;
    }
    let (before, from_sign) = text::split_at_char(line, n);
    let after = text::split_at_char(from_sign, 1).1;
    assert(after@ =~= line@.skip(n + 1));
    let key = text::trim(before);
    if key.is_empty() {
        None
    } else {
        Some((key, text::trim(after)))
    }
}

/// `raw` once the property `key` has been cleared.
pub open spec fn cleared(raw: Raw, key: Seq<char>) -> Raw {
    let props = raw.props;
    if key == "indent_style"@ {
        Raw { props: Props { use_spaces: None, ..props }, ..raw }
    } else if key == "indent_size"@ {
        Raw { indent_size: None, ..raw }
    } else if key == "tab_width"@ {
        Raw { tab_width: None, ..raw }
    } else if key == "end_of_line"@ {
        Raw { props: Props { eol: None, ..props }, ..raw }
    } else if key == "trim_trailing_whitespace"@ {
        Raw { props: Props { trim_trailing_whitespace: None, ..props }, ..raw }
    } else if key == "insert_final_newline"@ {
        Raw { props: Props { insert_final_newline: None, ..props }, ..raw }
    } else {
        raw
    }
}

/// The indentation style that `value` names; `current` where it names none.
pub open spec fn style_or(value: Seq<char>, current: Option<bool>) -> Option<bool> {
    if text::same_ignoring_case(value, "space"@) {
        Some(true)
    } else if text::same_ignoring_case(value, "tab"@) {
        Some(false)
    } else {
        current
    }
}

/// The indent size that `value` names; `current` where it names none.
pub open spec fn size_or(value: Seq<char>, current: Option<IndentSize>) -> Option<IndentSize> {
    if text::same_ignoring_case(value, "tab"@) {
        Some(IndentSize::Tab)
    } else {
        match width_of(value) {
            Some(n) => Some(IndentSize::Width(n)),
            None => current,
        }
    }
}

/// The width that `value` writes; `current` where it writes none.
pub open spec fn width_or(value: Seq<char>, current: Option<u32>) -> Option<u32> {
    match width_of(value) {
        Some(n) => Some(n),
        None => current,
    }
}

/// The line ending that `value` names; `current` where it names none, as `cr`
/// does not: croft has no line ending of carriage returns alone.
pub open spec fn eol_or(value: Seq<char>, current: Option<Eol>) -> Option<Eol> {
    if text::same_ignoring_case(value, "lf"@) {
        Some(Eol::Lf)
    } else if text::same_ignoring_case(value, "crlf"@) {
        Some(Eol::Crlf)
    } else {
        current
    }
}

/// `raw` once `key = value` has been read, `key` being in lower case. `unset`
/// clears the property. A flag that is neither true nor false is cleared too,
/// while any other property keeps what it had where it cannot take `value`. An
/// unknown property is ignored.
pub open spec fn updated(raw: Raw, key: Seq<char>, value: Seq<char>) -> Raw {
    let props = raw.props;
    if text::same_ignoring_case(value, "unset"@) {
        cleared(raw, key)
    } else if key == "indent_style"@ {
        Raw { props: Props { use_spaces: style_or(value, props.use_spaces), ..props }, ..raw }
    } else if key == "indent_size"@ {
        Raw { indent_size: size_or(value, raw.indent_size), ..raw }
    } else if key == "tab_width"@ {
        Raw { tab_width: width_or(value, raw.tab_width), ..raw }
    } else if key == "end_of_line"@ {
        Raw { props: Props { eol: eol_or(value, props.eol), ..props }, ..raw }
    } else if key == "trim_trailing_whitespace"@ {
        Raw { props: Props { trim_trailing_whitespace: bool_of(value), ..props }, ..raw }
    } else if key == "insert_final_newline"@ {
        Raw { props: Props { insert_final_newline: bool_of(value), ..props }, ..raw }
    } else {
        raw
    }
}

/// Clears the property `key`.
fn clear_prop(raw: &mut Raw, key: &str)
    ensures
        *final(raw) == cleared(*old(raw), key@),
{
    if text::str_eq(key, "indent_style") {
        raw.props.use_spaces = None;
    } else if text::str_eq(key, "indent_size") {
        raw.indent_size = None;
    } else if text::str_eq(key, "tab_width") {
        raw.tab_width = None;
    } else if text::str_eq(key, "end_of_line") {
        raw.props.eol = None;
    } else if text::str_eq(key, "trim_trailing_whitespace") {
        raw.props.trim_trailing_whitespace = None;
    } else if text::str_eq(key, "insert_final_newline") {
        raw.props.insert_final_newline = None;
    }
}

/// Takes in `key = value`, `key` being in lower case.
pub fn set_prop(raw: &mut Raw, key: &str, value: &str)
    ensures
        *final(raw) == updated(*old(raw), key@, value@),
{
    // `unset` explicitly clears a property inherited from an outer file.
    if text::eq_ignore_ascii_case(value, "unset") {
        clear_prop(raw, key);
    } else if text::str_eq(key, "indent_style") {
        if text::eq_ignore_ascii_case(value, "space") {
            raw.props.use_spaces = Some(true);
        } else if text::eq_ignore_ascii_case(value, "tab") {
            raw.props.use_spaces = Some(false);
        }
    } else if text::str_eq(key, "indent_size") {
        // `indent_size = tab` defers to `tab_width`; `Raw::resolve` applies
        // the precedence once every file has been read.
        if text::eq_ignore_ascii_case(value, "tab") {
            raw.indent_size = Some(IndentSize::Tab);
        } else if let Some(n) = parse_width(value) {
            raw.indent_size = Some(IndentSize::Width(n));
        }
    } else if text::str_eq(key, "tab_width") {
        if let Some(n) = parse_width(value) {
            raw.tab_width = Some(n);
        }
    } else if text::str_eq(key, "end_of_line") {
        // `cr` (classic Mac) is deliberately unhandled: guessing LF would
        // silently rewrite every line of the file on the next save.
        if text::eq_ignore_ascii_case(value, "lf") {
            raw.props.eol = Some(Eol::Lf);
        } else if text::eq_ignore_ascii_case(value, "crlf") {
            raw.props.eol = Some(Eol::Crlf);
        }
    } else if text::str_eq(key, "trim_trailing_whitespace") {
        raw.props.trim_trailing_whitespace = parse_bool(value);
    } else if text::str_eq(key, "insert_final_newline") {
        raw.props.insert_final_newline = parse_bool(value);
    }
}

/// What counts of a line: no comment, no white space around it.
pub open spec fn content(line: Seq<char>) -> Seq<char> {
    text::trimmed(uncommented(line))
}

/// The glob of a section header `[glob]`.
pub open spec fn header_glob(line: Seq<char>) -> Option<Seq<char>> {
    if line.len() >= 2 && line[0] == '[' && line.last() == ']' {
        Some(line.subrange(1, line.len() - 1))
    } else {
        None
    }
}

/// The glob of a section header `[glob]`.
fn parse_header(line: &str) -> (r: Option<&str>)
    ensures
        r matches Some(inner) ==> header_glob(line@) == Some(inner@),
        r is None ==> header_glob(line@) is None,
{
    let chars = text::char_vec(line);
    let n: usize = chars.len();
    if n >= 2 && chars[0] == '[' && chars[n - 1] == ']' {
        let inner = text::split_at_char(text::split_at_char(line, n - 1).0, 1).1;
        assert(inner@ =~= line@.subrange(1, n - 1));
        Some(inner)
    } else {
        None
    }
}

/// Whether a file of these lines declares itself the outermost one: of the
/// `root` pairs before anything that begins like a section, the first says so.
pub open spec fn lines_declare_root(lines: Seq<Seq<char>>) -> bool
    decreases lines.len(),
{
    if lines.len() == 0 {
        false
    } else {
        let line = content(lines[0]);
        if line.len() > 0 && line[0] == '[' {
            false
        } else {
            match pair_of(line) {
                Some((key, value)) => if text::same_ignoring_case(key, "root"@) {
                    text::same_ignoring_case(value, "true"@)
                } else {
                    lines_declare_root(lines.drop_first())
                },
                None => lines_declare_root(lines.drop_first()),
            }
        }
    }
}

/// Whether the file with this text declares itself the outermost one.
pub open spec fn declares_root(text: Seq<char>) -> bool {
    lines_declare_root(text::lines_of(text))
}

/// Whether the preamble (everything before the first `[section]`) sets
/// `root = true`.
pub fn parse_is_root(text: &str) -> (r: bool)
    ensures
        r == declares_root(text@),
{
    let lines = text::lines(text);
    let ghost all = text::lines_of(text@);
    let mut i: usize = 0;
    assert(all.skip(0) =~= all);
    while i < lines.len()
        invariant
            lines.deep_view() == all,
            all == text::lines_of(text@),
            i <= all.len(),
            lines_declare_root(all) == lines_declare_root(all.skip(i as int)),
        decreases lines.len() - i,
    {
        assert(lines@[i as int]@ == all[i as int]) by {
            assert(lines.deep_view()[i as int] == lines@[i as int]@);
        }
        assert(all.skip(i as int).drop_first() =~= all.skip(i + 1));
        let line = text::trim(strip_comment(lines[i]));
        let chars = text::char_vec(line);
        if chars.len() > 0 && chars[0] == '[' {
            return false;
        }
        if let Some((key, value)) = split_pair(line) {
            if text::eq_ignore_ascii_case(key, "root") {
                return text::eq_ignore_ascii_case(value, "true");
            }
        }
        i = i + 1;
    }
    false
}

/// How far a file has been read: what it has set, and whether the section read
/// last applies.
pub struct Progress {
    pub raw: Raw,
    pub matching: bool,
}

/// The state behind `line`, for the file `rel`.
pub open spec fn after_line(state: Progress, line: Seq<char>, rel: Seq<char>) -> Progress {
    let line = content(line);
    match header_glob(line) {
        Some(inner) => Progress { matching: glob::section_applies(inner, rel), ..state },
        None => match pair_of(line) {
            Some((key, value)) if state.matching => Progress {
                raw: updated(state.raw, text::ascii_lowered(key), value),
                ..state
            },
            _ => state,
        },
    }
}

/// The state behind `lines`, for the file `rel`. No section applies to what
/// stands before the first header.
pub open spec fn after_lines(raw: Raw, lines: Seq<Seq<char>>, rel: Seq<char>) -> Progress
    decreases lines.len(),
{
    if lines.len() == 0 {
        Progress { raw, matching: false }
    } else {
        after_line(after_lines(raw, lines.drop_last(), rel), lines.last(), rel)
    }
}

/// `raw` once the file with this text, in `dir`, has been folded in for `path`.
pub open spec fn after_file(
    raw: Raw,
    dir: Seq<Seq<char>>,
    text: Seq<char>,
    path: Seq<Seq<char>>,
) -> Raw {
    match path::relative_to(dir, path) {
        Some(rel) => after_lines(raw, text::lines_of(text), rel).raw,
        None => raw,
    }
}

/// Folds every matching section of one `.editorconfig` into `raw`, in file
/// order, so that a later section overrides an earlier one.
pub fn apply_file(raw: &mut Raw, config_dir: &FilePath, text: &str, path: &FilePath)
    ensures
        *final(raw) == after_file(*old(raw), config_dir@, text@, path@),
{
    let rel = match path::relative_slash_path(config_dir, path) {
        Some(rel) => rel,
        None => {
            return;
        },
    };
    let lines = text::lines(text);
    let ghost all = text::lines_of(text@);
    let mut matching = false;
    let mut i: usize = 0;
    while i < lines.len()
        invariant
            lines.deep_view() == all,
            i <= all.len(),
            after_lines(*old(raw), all.take(i as int), rel@) == (Progress { raw: *raw, matching }),
        decreases lines.len() - i,
    {
        assert(lines@[i as int]@ == all[i as int]) by {
            assert(lines.deep_view()[i as int] == lines@[i as int]@);
        }
        assert(all.take(i + 1).drop_last() =~= all.take(i as int));
        let line = text::trim(strip_comment(lines[i]));
        i = i + 1;
        if let Some(inner) = parse_header(line) {
            matching = glob::section_matches(inner, rel.as_str());
        } else if matching {
            if let Some((key, value)) = split_pair(line) {
                set_prop(raw, text::to_ascii_lowercase(key).as_str(), value);
            }
        }
    }
    assert(all.take(i as int) =~= all);
}

/// One `.editorconfig`: the directory it lies in, and its text.
pub struct ConfigFile {
    pub dir: FilePath,
    pub text: String,
}

/// What a `ConfigFile` says.
pub struct Config {
    pub dir: Seq<Seq<char>>,
    pub text: Seq<char>,
}

impl View for ConfigFile {
    type V = Config;

    open spec fn view(&self) -> Config {
        Config { dir: self.dir@, text: self.text@ }
    }
}

impl DeepView for ConfigFile {
    type V = Config;

    open spec fn deep_view(&self) -> Config {
        self@
    }
}

/// What the files of `chain`, nearest first, set for `path`. The outermost is
/// folded in first, so that what a nearer one sets lands last and wins.
pub open spec fn after_chain(chain: Seq<Config>, path: Seq<Seq<char>>) -> Raw
    decreases chain.len(),
{
    if chain.len() == 0 {
        no_raw()
    } else {
        after_file(after_chain(chain.drop_first(), path), chain[0].dir, chain[0].text, path)
    }
}

/// Where the walk goes from `dir`, given the text of the file found there: up,
/// unless that file declares itself the outermost.
pub open spec fn next_dir(dir: Seq<Seq<char>>, found: Option<Seq<char>>) -> Option<Seq<Seq<char>>> {
    match found {
        Some(text) if declares_root(text) => None,
        _ => path::parent_of(dir),
    }
}

/// The text under `key`, if there is one.
pub open spec fn lookup(files: Map<Seq<Seq<char>>, Seq<char>>, key: Seq<Seq<char>>) -> Option<
    Seq<char>,
> {
    if files.contains_key(key) {
        Some(files[key])
    } else {
        None
    }
}

/// The file at `dir`, as a chain of one, or of none where none was found.
pub open spec fn link(dir: Seq<Seq<char>>, found: Option<Seq<char>>) -> Seq<Config> {
    match found {
        Some(text) => seq![Config { dir, text }],
        None => Seq::empty(),
    }
}

/// The files that a walk from `dir` upward finds among `files`, nearest first.
pub open spec fn chain_from(
    files: Map<Seq<Seq<char>>, Seq<char>>,
    dir: Option<Seq<Seq<char>>>,
) -> Seq<Config>
    decreases
            (match dir {
                Some(d) => d.len() + 1,
                None => 0,
            }),
{
    match dir {
        None => Seq::empty(),
        Some(d) => {
            let found = lookup(files, d.push(FILENAME@));
            link(d, found) + chain_from(files, next_dir(d, found))
        },
    }
}

/// The properties that `files` give `path`.
pub open spec fn props_for(
    files: Map<Seq<Seq<char>>, Seq<char>>,
    path: Seq<Seq<char>>,
) -> Props {
    resolved(after_chain(chain_from(files, path::parent_of(path)), path))
}

/// The walk from a file's directory up to the root, or up to the first file
/// that declares `root = true`. Whoever drives it reads the `.editorconfig` of
/// each directory it names and hands back what was found.
pub struct ConfigWalk {
    path: FilePath,
    dir: Option<FilePath>,
    chain: Vec<ConfigFile>,
}

/// Where a walk stands: the file it is for, the directory to be read next, and
/// the files found so far, nearest first.
pub struct WalkState {
    pub path: Seq<Seq<char>>,
    pub dir: Option<Seq<Seq<char>>>,
    pub chain: Seq<Config>,
}

impl View for ConfigWalk {
    type V = WalkState;

    closed spec fn view(&self) -> WalkState {
        WalkState {
            path: self.path@,
            dir: match self.dir {
                Some(d) => Some(d@),
                None => None,
            },
            chain: self.chain.deep_view(),
        }
    }
}

/// The walk for `path`, before anything has been read.
pub open spec fn walk_start(path: Seq<Seq<char>>) -> WalkState {
    WalkState { path, dir: path::parent_of(path), chain: Seq::empty() }
}

/// The walk once the directory it named has been read.
pub open spec fn walk_step(state: WalkState, found: Option<Seq<char>>) -> WalkState
    recommends
        state.dir is Some,
{
    WalkState {
        dir: next_dir(state.dir->0, found),
        chain: state.chain + link(state.dir->0, found),
        ..state
    }
}

impl ConfigWalk {
    /// Starts the walk for `path`.
    pub fn new(path: FilePath) -> (r: ConfigWalk)
        ensures
            r@ == walk_start(path@),
    {
        let dir = path.parent();
        let chain: Vec<ConfigFile> = Vec::new();
        assert(chain.deep_view() =~= Seq::empty());
        ConfigWalk { path, dir, chain }
    }

    /// The directory to be read next; none once the walk has ended.
    pub fn dir(&self) -> (r: Option<&FilePath>)
        ensures
            r matches Some(d) ==> self@.dir == Some(d@),
            r is None ==> self@.dir is None,
    {
        match &self.dir {
            Some(d) => Some(d),
            None => None,
        }
    }

    /// Takes in the text of the `.editorconfig` in the directory named by
    /// `dir`, or that there is none there. A walk that has ended stays as it is.
    pub fn advance(&mut self, found: Option<String>)
        ensures
            final(self)@ == (if old(self)@.dir is None {
                old(self)@
            } else {
                walk_step(
                    old(self)@,
                    match found {
                        Some(text) => Some(text@),
                        None => None,
                    },
                )
            }),
    {
        let ghost chain = self.chain.deep_view();
        let mut dir: Option<FilePath> = None;
        std::mem::swap(&mut dir, &mut self.dir);
        if let Some(d) = dir {
            match found {
                Some(text) => {
                    if !parse_is_root(text.as_str()) {
                        self.dir = d.parent();
                    }
                    self.chain.push(ConfigFile { dir: d, text });
                    assert(self.chain.deep_view() =~= chain + link(d@, Some(text@)));
                },
                None => {
                    self.dir = d.parent();
                    assert(self.chain.deep_view() =~= chain + link(d@, None));
                },
            }
        }
    }

    /// The properties that the files found so far give the file.
    pub fn finish(&self) -> (r: Props)
        ensures
            r == resolved(after_chain(self@.chain, self@.path)),
    {
        let ghost chain = self.chain.deep_view();
        // Outermost first, so the nearest file's sections land last and win.
        let mut raw = Raw::default();
        let mut n: usize = self.chain.len();
        assert(chain.skip(n as int) =~= Seq::empty());
        while n > 0
            invariant
                n <= chain.len(),
                chain == self.chain.deep_view(),
                raw == after_chain(chain.skip(n as int), self.path@),
            decreases n,
        {
            n = n - 1;
            let file = &self.chain[n];
            assert(chain[n as int] == file@);
            assert(chain.skip(n as int).drop_first() =~= chain.skip(n + 1));
            apply_file(&mut raw, &file.dir, file.text.as_str(), &self.path);
        }
        assert(chain.skip(0) =~= chain);
        raw.resolve()
    }
}

/// Resolves the properties that apply to `path` from `files`, by walking from
/// its directory up to the root and stopping at the first file that declares
/// `root = true`. Nearer files win.
pub fn for_file_with(files: &ConfigFiles, path: &FilePath) -> (r: Props)
    ensures
        r == props_for(files@, path@),
{
    let mut walk = ConfigWalk::new(path.duplicate());
    let ghost whole = chain_from(files@, path::parent_of(path@));
    assert(walk@.chain + whole =~= whole);
    loop
        invariant_except_break
            walk@.path == path@,
            walk@.chain + chain_from(files@, walk@.dir) == whole,
        ensures
            walk@.path == path@,
            walk@.chain == whole,
        decreases
                (match walk@.dir {
                    Some(d) => d.len() + 1,
                    None => 0,
                }),
    {
        let ghost state = walk@;
        let found: Option<String> = match walk.dir() {
            None => {
                assert(state.chain + chain_from(files@, None) =~= state.chain);
                break;
            },
            Some(d) => match files.get(&d.join(FILENAME)) {
                Some(text) => Some(text.clone()),
                None => None,
            },
        };
        proof {
            let d = state.dir->0;
            let text = lookup(files@, d.push(FILENAME@));
            assert(state.chain + (link(d, text) + chain_from(files@, next_dir(d, text)))
                =~= (state.chain + link(d, text)) + chain_from(files@, next_dir(d, text)));
        }
        walk.advance(found);
    }
    walk.finish()
}

} // verus!
