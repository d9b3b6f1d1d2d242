//! What the text of an `.editorconfig` means: what counts of a line, what each
//! value of a property says, and what the lines of a file come to.

use vstd::prelude::*;
use super::{Eol, IndentSize, Progress, Props, Raw};
use crate::glob;
use crate::path;
use crate::text;

verus! {

/// How a width from 1 to 16 is written in base ten.
pub open spec fn numeral(n: u32) -> Seq<char> {
    let digits = seq!['0', '1', '2', '3', '4', '5', '6', '7', '8', '9'];
    if n < 10 {
        seq![digits[n as int]]
    } else {
        seq!['1', digits[n - 10]]
    }
}

/// A width as it may be written: with a plus sign or without, and with any
/// number of zeros in front.
pub open spec fn width_text(plus: bool, zeros: nat, n: u32) -> Seq<char> {
    (if plus {
        seq!['+']
    } else {
        Seq::empty()
    }) + text::repeated('0', zeros) + numeral(n)
}

proof fn lemma_zeros(z: nat)
    ensures
        super::decimal(text::repeated('0', z)) == 0,
    decreases z,
{
    if z > 0 {
        lemma_zeros((z - 1) as nat);
        assert(text::repeated('0', z).drop_last() =~= text::repeated('0', (z - 1) as nat));
    }
}

proof fn lemma_decimal_zero(s: Seq<char>)
    requires
        forall|i: int| 0 <= i < s.len() ==> '0' <= #[trigger] s[i] <= '9',
        super::decimal(s) == 0,
    ensures
        s == text::repeated('0', s.len()),
    decreases s.len(),
{
    if s.len() > 0 {
        let front = s.drop_last();
        assert forall|i: int| 0 <= i < front.len() implies '0' <= #[trigger] front[i] <= '9' by {
            assert(front[i] == s[i]);
        }
        assert('0' <= s[s.len() - 1] <= '9');
        lemma_decimal_zero(front);
        assert(s =~= front.push(s.last()));
        assert(s =~= text::repeated('0', s.len()));
    } else {
        assert(s =~= text::repeated('0', 0));
    }
}

proof fn lemma_numeral_value(z: nat, n: u32)
    requires
        1 <= n <= 16,
    ensures
        super::decimal(text::repeated('0', z) + numeral(n)) == n,
        super::is_number(text::repeated('0', z) + numeral(n)),
{
    let s = text::repeated('0', z) + numeral(n);
    lemma_zeros(z);
    if n < 10 {
        assert(s.drop_last() =~= text::repeated('0', z));
    } else {
        assert(s.drop_last().drop_last() =~= text::repeated('0', z));
        assert(s.drop_last().last() == '1');
        assert(super::decimal(s.drop_last()) == 1);
    }
}

proof fn lemma_width_digits(s: Seq<char>, n: u32) -> (z: nat)
    requires
        super::is_number(s),
        super::decimal(s) == n,
        1 <= n <= 16,
    ensures
        s == text::repeated('0', z) + numeral(n),
{
    let front = s.drop_last();
    assert forall|i: int| 0 <= i < front.len() implies '0' <= #[trigger] front[i] <= '9' by {
        assert(front[i] == s[i]);
    }
    assert('0' <= s[s.len() - 1] <= '9');
    let d = s.last() as int - '0' as int;
    assert(super::decimal(s) == super::decimal(front) * 10 + d);
    if n < 10 {
        assert(super::decimal(front) == 0);
        lemma_decimal_zero(front);
        assert(s =~= text::repeated('0', front.len()) + numeral(n));
        front.len()
    } else {
        assert(super::decimal(front) == 1);
        let inner = front.drop_last();
        assert forall|i: int| 0 <= i < inner.len() implies '0' <= #[trigger] inner[i] <= '9' by {
            assert(inner[i] == front[i]);
        }
        assert('0' <= front[front.len() - 1] <= '9');
        assert(super::decimal(inner) == 0);
        lemma_decimal_zero(inner);
        assert(s =~= text::repeated('0', inner.len()) + numeral(n));
        inner.len()
    }
}

/// A width is a whole number from 1 to 16 in base ten, with or without a plus
/// sign and zeros in front. Nothing else is one.
pub proof fn law_widths_are_the_numbers_to_sixteen(value: Seq<char>, n: u32)
    ensures
        super::width_of(value) == Some(n) <==> 1 <= n <= 16 && exists|plus: bool, zeros: nat|
            value == #[trigger] width_text(plus, zeros, n),
{
    if super::width_of(value) == Some(n) {
        let digits = super::unsigned(value);
        let z = lemma_width_digits(digits, n);
        if value[0] == '+' {
            assert(value =~= seq!['+'] + digits);
            assert(seq!['+'] + digits =~= width_text(true, z, n));
        } else {
            assert(value =~= width_text(false, z, n));
        }
    }
    if 1 <= n <= 16 && exists|plus: bool, zeros: nat|
        value == #[trigger] width_text(plus, zeros, n) {
        let (plus, zeros) = choose|plus: bool, zeros: nat|
            value == #[trigger] width_text(plus, zeros, n);
        let digits = text::repeated('0', zeros) + numeral(n);
        lemma_numeral_value(zeros, n);
        if plus {
            assert(value.skip(1) =~= digits);
        } else {
            assert(value =~= digits);
            assert('0' <= digits[0] <= '9');
        }
    }
}

/// The words that one property tells apart differ in more than case.
proof fn lemma_words_differ(value: Seq<char>)
    ensures
        text::same_ignoring_case(value, "unset"@) ==> !text::same_ignoring_case(value, "space"@),
        text::same_ignoring_case(value, "unset"@) ==> !text::same_ignoring_case(value, "tab"@),
        text::same_ignoring_case(value, "unset"@) ==> !text::same_ignoring_case(value, "lf"@),
        text::same_ignoring_case(value, "unset"@) ==> !text::same_ignoring_case(value, "crlf"@),
        text::same_ignoring_case(value, "unset"@) ==> !text::same_ignoring_case(value, "true"@),
        text::same_ignoring_case(value, "unset"@) ==> !text::same_ignoring_case(value, "false"@),
        text::same_ignoring_case(value, "space"@) ==> !text::same_ignoring_case(value, "tab"@),
        text::same_ignoring_case(value, "lf"@) ==> !text::same_ignoring_case(value, "crlf"@),
        text::same_ignoring_case(value, "true"@) ==> !text::same_ignoring_case(value, "false"@),
{
    reveal_strlit("unset");
    reveal_strlit("space");
    reveal_strlit("tab");
    reveal_strlit("lf");
    reveal_strlit("crlf");
    reveal_strlit("true");
    reveal_strlit("false");
    assert(text::ascii_lowered("unset"@).len() == 5 && text::ascii_lowered("unset"@)[0] == 'u');
    assert(text::ascii_lowered("space"@).len() == 5 && text::ascii_lowered("space"@)[0] == 's');
    assert(text::ascii_lowered("false"@).len() == 5 && text::ascii_lowered("false"@)[0] == 'f');
    assert(text::ascii_lowered("crlf"@).len() == 4 && text::ascii_lowered("true"@).len() == 4);
    assert(text::ascii_lowered("tab"@).len() == 3 && text::ascii_lowered("lf"@).len() == 2);
}

/// `true` and `false`, in any case, are what they say, for either flag. Any
/// other value leaves the flag unset.
pub proof fn law_flags_are_true_or_false(raw: Raw, value: Seq<char>)
    ensures
        super::updated(
            raw,
            "trim_trailing_whitespace"@,
            value,
        ).props.trim_trailing_whitespace == Some(true) <==> text::same_ignoring_case(
            value,
            "true"@,
        ),
        super::updated(
            raw,
            "trim_trailing_whitespace"@,
            value,
        ).props.trim_trailing_whitespace == Some(false) <==> text::same_ignoring_case(
            value,
            "false"@,
        ),
        super::updated(raw, "insert_final_newline"@, value).props.insert_final_newline == Some(true)
            <==> text::same_ignoring_case(value, "true"@),
        super::updated(raw, "insert_final_newline"@, value).props.insert_final_newline
            == Some(false) <==> text::same_ignoring_case(value, "false"@),
{
    super::laws::lemma_keys_differ();
    lemma_words_differ(value);
}

/// `space` and `tab`, in any case, choose the indentation style. Any other
/// value but `unset` leaves it as it was.
pub proof fn law_indent_style_is_space_or_tab(raw: Raw, value: Seq<char>)
    ensures
        ({
            let after = super::updated(raw, "indent_style"@, value).props.use_spaces;
            &&& text::same_ignoring_case(value, "space"@) ==> after == Some(true)
            &&& text::same_ignoring_case(value, "tab"@) ==> after == Some(false)
            &&& !text::same_ignoring_case(value, "space"@) && !text::same_ignoring_case(
                value,
                "tab"@,
            ) && !text::same_ignoring_case(value, "unset"@) ==> after == raw.props.use_spaces
        }),
{
    super::laws::lemma_keys_differ();
    lemma_words_differ(value);
}

/// `lf` and `crlf`, in any case, choose the line ending. Any other value but
/// `unset` leaves it as it was, `cr` among them.
pub proof fn law_end_of_line_is_lf_or_crlf(raw: Raw, value: Seq<char>)
    ensures
        ({
            let after = super::updated(raw, "end_of_line"@, value).props.eol;
            &&& text::same_ignoring_case(value, "lf"@) ==> after == Some(Eol::Lf)
            &&& text::same_ignoring_case(value, "crlf"@) ==> after == Some(Eol::Crlf)
            &&& !text::same_ignoring_case(value, "lf"@) && !text::same_ignoring_case(
                value,
                "crlf"@,
            ) && !text::same_ignoring_case(value, "unset"@) ==> after == raw.props.eol
        }),
{
    super::laws::lemma_keys_differ();
    lemma_words_differ(value);
}

/// A number from 1 to 16 is the indent size or the tab width it is given to,
/// and `tab`, in any case, makes the indent size that of a tab. Any other value
/// but `unset` leaves the property as it was.
pub proof fn law_sizes_are_numbers_or_tab(raw: Raw, value: Seq<char>, plus: bool, zeros: nat, n: u32)
    requires
        1 <= n <= 16,
    ensures
        super::updated(raw, "indent_size"@, width_text(plus, zeros, n)).indent_size == Some(
            IndentSize::Width(n),
        ),
        super::updated(raw, "tab_width"@, width_text(plus, zeros, n)).tab_width == Some(n),
        text::same_ignoring_case(value, "tab"@) ==> super::updated(
            raw,
            "indent_size"@,
            value,
        ).indent_size == Some(IndentSize::Tab),
        (forall|p: bool, z: nat, m: u32| 1 <= m <= 16 ==> value != #[trigger] width_text(p, z, m))
            && !text::same_ignoring_case(value, "unset"@) ==> {
            &&& super::updated(raw, "tab_width"@, value).tab_width == raw.tab_width
            &&& !text::same_ignoring_case(value, "tab"@) ==> super::updated(
                raw,
                "indent_size"@,
                value,
            ).indent_size == raw.indent_size
        },
{
    let number = width_text(plus, zeros, n);
    super::laws::lemma_keys_differ();
    lemma_words_differ(value);
    law_widths_are_the_numbers_to_sixteen(number, n);
    reveal_strlit("unset");
    reveal_strlit("tab");
    super::laws::lemma_width_is_no_word(number, "unset"@);
    super::laws::lemma_width_is_no_word(number, "tab"@);
    if let Some(m) = super::width_of(value) {
        law_widths_are_the_numbers_to_sixteen(value, m);
    }
}

/// A setting changes its own property and leaves every other as it was.
pub proof fn law_setting_leaves_other_properties(
    raw: Raw,
    key: Seq<char>,
    value: Seq<char>,
)
    ensures
        ({
            let after = super::updated(raw, key, value);
            &&& key != "indent_style"@ ==> after.props.use_spaces == raw.props.use_spaces
            &&& key != "indent_size"@ ==> after.indent_size == raw.indent_size
            &&& key != "tab_width"@ ==> after.tab_width == raw.tab_width
            &&& key != "end_of_line"@ ==> after.props.eol == raw.props.eol
            &&& key != "trim_trailing_whitespace"@ ==> after.props.trim_trailing_whitespace
                == raw.props.trim_trailing_whitespace
            &&& key != "insert_final_newline"@ ==> after.props.insert_final_newline
                == raw.props.insert_final_newline
        }),
{
}

/// The indent width is the indent size where that is a number, and the tab
/// width where it is not; every other property stays as it was read.
pub proof fn law_resolving_settles_the_width_alone(raw: Raw)
    ensures
        ({
            let props = super::resolved(raw);
            &&& raw.indent_size matches Some(IndentSize::Width(n)) ==> props.indent_width == Some(n)
            &&& raw.indent_size == Some(IndentSize::Tab) ==> props.indent_width == raw.tab_width
            &&& raw.indent_size is None ==> props.indent_width == raw.tab_width
            &&& props.use_spaces == raw.props.use_spaces
            &&& props.eol == raw.props.eol
            &&& props.trim_trailing_whitespace == raw.props.trim_trailing_whitespace
            &&& props.insert_final_newline == raw.props.insert_final_newline
        }),
{
}

/// Properties are empty where each of them is unset, and nothing is set before
/// a file has been read.
pub proof fn law_empty_means_every_property_is_unset(props: Props)
    ensures
        props == super::no_props() <==> props.use_spaces is None && props.indent_width is None
            && props.eol is None && props.trim_trailing_whitespace is None
            && props.insert_final_newline is None,
        super::no_raw().props == super::no_props(),
        super::no_raw().indent_size is None,
        super::no_raw().tab_width is None,
{
}

/// Whether the first character of `s` that is not white space is a `[`.
pub open spec fn opens_with_bracket(s: Seq<char>) -> bool {
    exists|k: int|
        0 <= k < s.len() && #[trigger] s[k] == '[' && forall|j: int|
            0 <= j < k ==> text::is_white_space(#[trigger] s[j])
}

proof fn lemma_opens_with_bracket(s: Seq<char>)
    ensures
        opens_with_bracket(s) <==> text::trimmed_start(s).len() > 0 && text::trimmed_start(s)[0]
            == '[',
{
    let t = text::trimmed_start(s);
    super::laws::lemma_trimmed_off(s);
    if t.len() > 0 && t[0] == '[' {
        let k = s.len() - t.len();
        assert(s[k] == '[');
    }
    if opens_with_bracket(s) {
        let k = choose|k: int|
            0 <= k < s.len() && #[trigger] s[k] == '[' && forall|j: int|
                0 <= j < k ==> text::is_white_space(#[trigger] s[j]);
        let before = s.take(k);
        let kept = s.skip(k);
        assert forall|i: int| 0 <= i < before.len() implies text::is_white_space(
            #[trigger] before[i],
        ) by {
            assert(before[i] == s[i]);
        }
        assert(s =~= before + kept);
        text::law_trim_start_takes_leading_white_space(before, kept);
    }
}

/// A comment runs from the first `;` or `#` to the end of its line. A line that
/// begins with `[` has none, nor has one without those characters.
pub proof fn law_comment_runs_to_the_end_of_the_line(
    before: Seq<char>,
    mark: char,
    rest: Seq<char>,
)
    requires
        !before.contains(';'),
        !before.contains('#'),
    ensures
        super::uncommented(before) == before,
        mark == ';' || mark == '#' ==> super::uncommented(before + seq![mark] + rest) == (
        if opens_with_bracket(before) {
            before + seq![mark] + rest
        } else {
            before
        }),
{
    text::lemma_find_char(before, ';');
    text::lemma_find_char(before, '#');
    assert(before.take(before.len() as int) =~= before);
    if mark == ';' || mark == '#' {
        let line = before + seq![mark] + rest;
        let n = before.len() as int;
        assert(forall|k: int| 0 <= k < n ==> line[k] == before[k]);
        lemma_opens_with_bracket(line);
        text::lemma_first_at(line, mark, n);
        text::lemma_find_char(line, ';');
        text::lemma_find_char(line, '#');
        assert(line.take(n) =~= before);
        if opens_with_bracket(before) {
            let k = choose|k: int|
                0 <= k < before.len() && #[trigger] before[k] == '[' && forall|j: int|
                    0 <= j < k ==> text::is_white_space(#[trigger] before[j]);
            assert(line[k] == '[');
            assert forall|j: int| 0 <= j < k implies text::is_white_space(#[trigger] line[j]) by {
                assert(before[j] == line[j]);
            }
        }
        if opens_with_bracket(line) {
            let k = choose|k: int|
                0 <= k < line.len() && #[trigger] line[k] == '[' && forall|j: int|
                    0 <= j < k ==> text::is_white_space(#[trigger] line[j]);
            if k >= n {
                assert(k != n);
                assert(text::is_white_space(line[n]));
            }
            assert(before[k] == '[');
            assert forall|j: int| 0 <= j < k implies text::is_white_space(#[trigger] before[j]) by {
                assert(before[j] == line[j]);
            }
        }
    }
}

/// What counts of a line is what stands between the white space at its ends,
/// its comment taken off.
pub proof fn law_content_is_the_line_without_its_edges(
    before: Seq<char>,
    kept: Seq<char>,
    behind: Seq<char>,
    line: Seq<char>,
)
    requires
        super::uncommented(line) == before + kept + behind,
        forall|i: int| 0 <= i < before.len() ==> text::is_white_space(#[trigger] before[i]),
        forall|i: int| 0 <= i < behind.len() ==> text::is_white_space(#[trigger] behind[i]),
        kept.len() > 0 ==> !text::is_white_space(kept[0]) && !text::is_white_space(kept.last()),
    ensures
        super::content(line) == kept,
{
    text::law_trim_takes_white_space_at_both_ends(before, kept, behind);
}

/// A line is a pair where something other than white space stands before its
/// first `=`: that is the key, and what follows the `=` the value, both
/// trimmed. A line without a `=` is none.
pub proof fn law_pair_is_parted_by_the_first_equals_sign(key: Seq<char>, value: Seq<char>)
    requires
        !key.contains('='),
    ensures
        super::pair_of(key) is None,
        super::pair_of(key + seq!['='] + value) == if text::trimmed(key).len() > 0 {
            Some((text::trimmed(key), text::trimmed(value)))
        } else {
            None
        },
{
    text::lemma_find_char(key, '=');
    let line = key + seq!['='] + value;
    let n = key.len() as int;
    assert(forall|k: int| 0 <= k < n ==> line[k] == key[k]);
    text::lemma_first_at(line, '=', n);
    assert(line.take(n) =~= key);
    assert(line.skip(n + 1) =~= value);
}

/// A section header is a glob in square brackets, and nothing else is one.
pub proof fn law_header_is_a_glob_in_brackets(line: Seq<char>, glob: Seq<char>)
    ensures
        super::header_glob(line) == Some(glob) <==> line == seq!['['] + glob + seq![']'],
{
    if super::header_glob(line) == Some(glob) {
        assert(line =~= seq!['['] + glob + seq![']']);
    }
    if line == seq!['['] + glob + seq![']'] {
        assert(line.subrange(1, line.len() - 1) =~= glob);
    }
}

/// A file is the outermost where a line says `root = true`, in any case, and no
/// line above it opens a section or names `root`.
pub proof fn law_root_is_declared_before_any_section(text: Seq<char>)
    ensures
        super::declares_root(text) <==> exists|i: int|
            declares_at(text::lines_of(text), i) && forall|j: int|
                0 <= j < i ==> !opens_section(#[trigger] text::lines_of(text)[j])
                    && !names_root(text::lines_of(text)[j]),
{
    lemma_root_lines(text::lines_of(text));
}

/// Whether what counts of `line` begins with a `[`.
pub open spec fn opens_section(line: Seq<char>) -> bool {
    super::content(line).len() > 0 && super::content(line)[0] == '['
}

/// Whether `line` is a pair with the key `root`, in any case.
pub open spec fn names_root(line: Seq<char>) -> bool {
    super::pair_of(super::content(line)) matches Some((key, value)) && text::same_ignoring_case(
        key,
        "root"@,
    )
}

/// Whether line `i` says `root = true`, in any case.
pub open spec fn declares_at(lines: Seq<Seq<char>>, i: int) -> bool {
    &&& 0 <= i < lines.len()
    &&& !opens_section(lines[i])
    &&& super::pair_of(super::content(lines[i])) matches Some((key, value))
        && text::same_ignoring_case(key, "root"@) && text::same_ignoring_case(value, "true"@)
}

/// Whether line `i` is the first that could declare a root, and does.
spec fn root_at(lines: Seq<Seq<char>>, i: int) -> bool {
    declares_at(lines, i) && forall|j: int|
        0 <= j < i ==> !opens_section(#[trigger] lines[j]) && !names_root(lines[j])
}

proof fn lemma_root_lines(lines: Seq<Seq<char>>)
    ensures
        super::lines_declare_root(lines) <==> exists|i: int|
            declares_at(lines, i) && forall|j: int|
                0 <= j < i ==> !opens_section(#[trigger] lines[j]) && !names_root(lines[j]),
    decreases lines.len(),
{
    if lines.len() > 0 {
        let first = lines[0];
        let rest = lines.drop_first();
        lemma_root_lines(rest);
        if opens_section(first) || names_root(first) {
            if super::lines_declare_root(lines) {
                assert(root_at(lines, 0));
            }
            assert forall|i: int| root_at(lines, i) implies super::lines_declare_root(lines) by {
                if i > 0 {
                    assert(!opens_section(lines[0]) && !names_root(lines[0]));
                }
            }
        } else {
            assert(super::lines_declare_root(lines) == super::lines_declare_root(rest));
            if super::lines_declare_root(lines) {
                let i = choose|i: int|
                    declares_at(rest, i) && forall|j: int|
                        0 <= j < i ==> !opens_section(#[trigger] rest[j]) && !names_root(rest[j]);
                assert(rest[i] == lines[i + 1]);
                assert(declares_at(lines, i + 1));
                assert forall|j: int| 0 <= j < i + 1 implies !opens_section(#[trigger] lines[j])
                    && !names_root(lines[j]) by {
                    if j > 0 {
                        assert(rest[j - 1] == lines[j]);
                    }
                }
                assert(root_at(lines, i + 1));
            }
            assert forall|i: int| root_at(lines, i) implies super::lines_declare_root(rest) by {
                assert(i > 0);
                assert(rest[i - 1] == lines[i]);
                assert(declares_at(rest, i - 1));
                assert forall|j: int| 0 <= j < i - 1 implies !opens_section(#[trigger] rest[j])
                    && !names_root(rest[j]) by {
                    assert(rest[j] == lines[j + 1]);
                }
                assert(root_at(rest, i - 1));
            }
        }
        if exists|i: int|
            declares_at(lines, i) && forall|j: int|
                0 <= j < i ==> !opens_section(#[trigger] lines[j]) && !names_root(lines[j]) {
            let i = choose|i: int|
                declares_at(lines, i) && forall|j: int|
                    0 <= j < i ==> !opens_section(#[trigger] lines[j]) && !names_root(lines[j]);
            assert(root_at(lines, i));
        }
    }
}

/// Before its first line a file has set nothing and no section applies. A
/// header sets nothing, and says whether its section applies from there on.
pub proof fn law_header_decides_for_the_lines_below(
    raw: Raw,
    lines: Seq<Seq<char>>,
    header: Seq<char>,
    glob: Seq<char>,
    rel: Seq<char>,
)
    requires
        super::content(header) == seq!['['] + glob + seq![']'],
    ensures
        super::after_lines(raw, Seq::empty(), rel) == (Progress { raw, matching: false }),
        super::after_lines(raw, lines.push(header), rel) == (Progress {
            raw: super::after_lines(raw, lines, rel).raw,
            matching: glob::section_applies(glob, rel),
        }),
{
    law_header_is_a_glob_in_brackets(super::content(header), glob);
    assert(lines.push(header).drop_last() =~= lines);
}

/// A line that is no header leaves the section as it is. It sets a property
/// where it is a pair and its section applies: the key, in lower case, to the
/// value. Anything else sets nothing.
pub proof fn law_pair_is_set_where_its_section_applies(
    raw: Raw,
    lines: Seq<Seq<char>>,
    line: Seq<char>,
    rel: Seq<char>,
)
    requires
        super::content(line).len() < 2 || super::content(line)[0] != '[' || super::content(
            line,
        ).last() != ']',
    ensures
        ({
            let before = super::after_lines(raw, lines, rel);
            let after = super::after_lines(raw, lines.push(line), rel);
            &&& after.matching == before.matching
            &&& !before.matching ==> after.raw == before.raw
            &&& super::pair_of(super::content(line)) is None ==> after.raw == before.raw
            &&& super::pair_of(super::content(line)) matches Some((key, value)) ==> (before.matching
                ==> after.raw == super::updated(before.raw, text::ascii_lowered(key), value))
        }),
{
    assert(lines.push(line).drop_last() =~= lines);
}

/// A file counts for the paths in its directory, and is read with the path as
/// it stands from there. For any other path it sets nothing.
pub proof fn law_file_counts_in_its_directory(
    raw: Raw,
    dir: Seq<Seq<char>>,
    text: Seq<char>,
    path: Seq<Seq<char>>,
)
    ensures
        dir.is_prefix_of(path) ==> super::after_file(raw, dir, text, path) == super::after_lines(
            raw,
            text::lines_of(text),
            path::relative_to(dir, path)->0,
        ).raw,
        !dir.is_prefix_of(path) ==> super::after_file(raw, dir, text, path) == raw,
{
}

} // verus!
