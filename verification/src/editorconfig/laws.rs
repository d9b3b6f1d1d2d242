//! What holds of the resolution of properties as a whole: which setting wins,
//! which files count, and which lines do.

use vstd::prelude::*;
use super::{Config, IndentSize, Progress, Props, Raw, WalkState};
use crate::glob;
use crate::path;
use crate::text;

verus! {

/// Whether `key` names a property that croft honours.
pub open spec fn is_known(key: Seq<char>) -> bool {
    ||| key == "indent_style"@
    ||| key == "indent_size"@
    ||| key == "tab_width"@
    ||| key == "end_of_line"@
    ||| key == "trim_trailing_whitespace"@
    ||| key == "insert_final_newline"@
}

/// The names of the properties are all different.
pub(super) proof fn lemma_keys_differ()
    ensures
        "indent_style"@.len() == 12,
        "indent_size"@.len() == 11,
        "tab_width"@.len() == 9,
        "end_of_line"@.len() == 11,
        "trim_trailing_whitespace"@.len() == 24,
        "insert_final_newline"@.len() == 20,
        "indent_size"@ != "end_of_line"@,
{
    reveal_strlit("indent_style");
    reveal_strlit("indent_size");
    reveal_strlit("tab_width");
    reveal_strlit("end_of_line");
    reveal_strlit("trim_trailing_whitespace");
    reveal_strlit("insert_final_newline");
    assert("indent_size"@[0] == 'i');
    assert("end_of_line"@[0] == 'e');
}

/// A property that croft does not know is ignored.
pub proof fn law_unknown_property_is_ignored(raw: Raw, key: Seq<char>, value: Seq<char>)
    requires
        !is_known(key),
    ensures
        super::updated(raw, key, value) == raw,
{
}

/// `unset`, in any case, clears the property it is given to and no other.
pub proof fn law_unset_clears_one_property(raw: Raw, value: Seq<char>)
    requires
        text::same_ignoring_case(value, "unset"@),
    ensures
        super::updated(raw, "indent_style"@, value) == (Raw {
            props: Props { use_spaces: None, ..raw.props },
            ..raw
        }),
        super::updated(raw, "indent_size"@, value) == (Raw { indent_size: None, ..raw }),
        super::updated(raw, "tab_width"@, value) == (Raw { tab_width: None, ..raw }),
        super::updated(raw, "end_of_line"@, value) == (Raw {
            props: Props { eol: None, ..raw.props },
            ..raw
        }),
        super::updated(raw, "trim_trailing_whitespace"@, value) == (Raw {
            props: Props { trim_trailing_whitespace: None, ..raw.props },
            ..raw
        }),
        super::updated(raw, "insert_final_newline"@, value) == (Raw {
            props: Props { insert_final_newline: None, ..raw.props },
            ..raw
        }),
{
    lemma_keys_differ();
}

/// Whether the property `key` takes `value`: a value that it cannot take
/// leaves it as it was.
pub open spec fn takes_effect(key: Seq<char>, value: Seq<char>) -> bool {
    ||| text::same_ignoring_case(value, "unset"@)
    ||| key == "indent_style"@ && super::style_or(value, None) is Some
    ||| key == "indent_size"@ && super::size_or(value, None) is Some
    ||| key == "tab_width"@ && super::width_of(value) is Some
    ||| key == "end_of_line"@ && super::eol_or(value, None) is Some
    ||| key == "trim_trailing_whitespace"@
    ||| key == "insert_final_newline"@
}

/// Of two settings of one property the later wins.
pub proof fn law_later_setting_wins(
    raw: Raw,
    key: Seq<char>,
    earlier: Seq<char>,
    later: Seq<char>,
)
    requires
        takes_effect(key, later),
    ensures
        super::updated(super::updated(raw, key, earlier), key, later) == super::updated(
            raw,
            key,
            later,
        ),
{
    lemma_keys_differ();
}

/// Settings of two properties may stand in either order.
pub proof fn law_settings_of_different_properties_commute(
    raw: Raw,
    key: Seq<char>,
    value: Seq<char>,
    other: Seq<char>,
    other_value: Seq<char>,
)
    requires
        key != other,
    ensures
        super::updated(super::updated(raw, key, value), other, other_value) == super::updated(
            super::updated(raw, other, other_value),
            key,
            value,
        ),
{
    lemma_keys_differ();
}

/// A numeric `indent_size` is the indent width, whatever `tab_width` is set to
/// before or behind it.
pub proof fn law_indent_size_beats_tab_width(raw: Raw, size: Seq<char>, width: Seq<char>)
    requires
        super::width_of(size) is Some,
    ensures
        super::resolved(
            super::updated(super::updated(raw, "indent_size"@, size), "tab_width"@, width),
        ).indent_width == super::width_of(size),
        super::resolved(
            super::updated(super::updated(raw, "tab_width"@, width), "indent_size"@, size),
        ).indent_width == super::width_of(size),
{
    lemma_keys_differ();
    reveal_strlit("unset");
    reveal_strlit("tab");
    lemma_width_is_no_word(size, "unset"@);
    lemma_width_is_no_word(size, "tab"@);
}

/// A width is not written with letters.
pub(super) proof fn lemma_width_is_no_word(value: Seq<char>, word: Seq<char>)
    requires
        super::width_of(value) is Some,
        word.len() > 1,
        forall|i: int| 0 <= i < word.len() ==> 'a' <= #[trigger] word[i] <= 'z',
    ensures
        !text::same_ignoring_case(value, word),
{
    if text::same_ignoring_case(value, word) {
        let digits = super::unsigned(value);
        assert(text::ascii_lowered(value).len() == text::ascii_lowered(word).len());
        assert(text::ascii_lowered(value)[1] == text::ascii_lowered(word)[1]);
        if value[0] == '+' {
            assert(digits[0] == value[1]);
        } else {
            assert(digits[1] == value[1]);
        }
        assert('0' <= value[1] <= '9');
        assert('a' <= word[1] <= 'z');
    }
}

/// `tab_width` stands in for an `indent_size` that is absent or `tab`.
pub proof fn law_tab_width_stands_in(raw: Raw)
    requires
        raw.indent_size is None || raw.indent_size == Some(IndentSize::Tab),
    ensures
        super::resolved(raw).indent_width == raw.tab_width,
{
}

/// The case in which a value is written does not matter.
pub proof fn law_case_of_values_does_not_matter(
    raw: Raw,
    key: Seq<char>,
    value: Seq<char>,
    other: Seq<char>,
)
    requires
        text::same_ignoring_case(value, other),
    ensures
        super::updated(raw, key, value) == super::updated(raw, key, other),
{
    if super::width_of(value) is Some {
        lemma_width_has_no_case(value, other);
    } else if super::width_of(other) is Some {
        lemma_width_has_no_case(other, value);
    }
}

/// A width is written in one case only.
proof fn lemma_width_has_no_case(value: Seq<char>, other: Seq<char>)
    requires
        super::width_of(value) is Some,
        text::same_ignoring_case(value, other),
    ensures
        value == other,
{
    let a = text::ascii_lowered(value);
    let b = text::ascii_lowered(other);
    let digits = super::unsigned(value);
    assert(a.len() == b.len());
    assert forall|i: int| 0 <= i < value.len() implies value[i] == other[i] by {
        assert(a[i] == b[i]);
        if value[0] == '+' {
            if i > 0 {
                assert(digits[i - 1] == value[i]);
            }
        } else {
            assert(digits[i] == value[i]);
        }
    }
    assert(value =~= other);
}

/// Whether `a` and `b` agree on the property `key`.
pub open spec fn same_property(a: Raw, b: Raw, key: Seq<char>) -> bool {
    if key == "indent_style"@ {
        a.props.use_spaces == b.props.use_spaces
    } else if key == "indent_size"@ {
        a.indent_size == b.indent_size
    } else if key == "tab_width"@ {
        a.tab_width == b.tab_width
    } else if key == "end_of_line"@ {
        a.props.eol == b.props.eol
    } else if key == "trim_trailing_whitespace"@ {
        a.props.trim_trailing_whitespace == b.props.trim_trailing_whitespace
    } else {
        key == "insert_final_newline"@ ==> a.props.insert_final_newline
            == b.props.insert_final_newline
    }
}

/// Whether `line` is a pair with the key `key`, in any case.
pub open spec fn names(line: Seq<char>, key: Seq<char>) -> bool {
    match super::pair_of(super::content(line)) {
        Some((k, v)) => text::ascii_lowered(k) == key,
        None => false,
    }
}

/// A file keeps every property that it does not name.
pub proof fn law_unnamed_property_is_kept(
    raw: Raw,
    dir: Seq<Seq<char>>,
    text: Seq<char>,
    path: Seq<Seq<char>>,
    key: Seq<char>,
)
    requires
        forall|i: int|
            0 <= i < text::lines_of(text).len() ==> !names(#[trigger] text::lines_of(text)[i], key),
    ensures
        same_property(super::after_file(raw, dir, text, path), raw, key),
{
    if let Some(rel) = path::relative_to(dir, path) {
        lemma_unnamed_kept(raw, text::lines_of(text), rel, key);
    }
}

proof fn lemma_unnamed_kept(raw: Raw, lines: Seq<Seq<char>>, rel: Seq<char>, key: Seq<char>)
    requires
        forall|i: int| 0 <= i < lines.len() ==> !names(#[trigger] lines[i], key),
    ensures
        same_property(super::after_lines(raw, lines, rel).raw, raw, key),
    decreases lines.len(),
{
    if lines.len() > 0 {
        let front = lines.drop_last();
        assert forall|i: int| 0 <= i < front.len() implies !names(#[trigger] front[i], key) by {
            assert(front[i] == lines[i]);
        }
        lemma_unnamed_kept(raw, front, rel, key);
        assert(!names(lines[lines.len() - 1], key));
        lemma_keys_differ();
    }
}

/// A property that none of the files names stays unset: nothing is made up for
/// it.
pub proof fn law_only_named_properties_are_set(
    chain: Seq<Config>,
    path: Seq<Seq<char>>,
    key: Seq<char>,
)
    requires
        forall|f: int, i: int|
            0 <= f < chain.len() && 0 <= i < text::lines_of(chain[f].text).len() ==> !names(
                #[trigger] text::lines_of(chain[f].text)[i],
                key,
            ),
    ensures
        same_property(super::after_chain(chain, path), super::no_raw(), key),
    decreases chain.len(),
{
    if chain.len() > 0 {
        let rest = chain.drop_first();
        assert forall|f: int, i: int|
            0 <= f < rest.len() && 0 <= i < text::lines_of(rest[f].text).len() implies !names(
            #[trigger] text::lines_of(rest[f].text)[i],
            key,
        ) by {
            assert(rest[f] == chain[f + 1]);
            assert(!names(text::lines_of(chain[f + 1].text)[i], key));
        }
        law_only_named_properties_are_set(rest, path, key);
        let outer = super::after_chain(rest, path);
        law_unnamed_property_is_kept(outer, chain[0].dir, chain[0].text, path, key);
    }
}

/// A later section overrides an earlier one: a property that it sets has that
/// value, whatever the file or the outer files had set before.
pub proof fn law_later_section_overrides(
    raw: Raw,
    lines: Seq<Seq<char>>,
    header: Seq<char>,
    pair: Seq<char>,
    rel: Seq<char>,
)
    requires
        super::header_glob(super::content(header)) is Some,
        glob::section_applies(super::header_glob(super::content(header))->0, rel),
        super::header_glob(super::content(pair)) is None,
        super::pair_of(super::content(pair)) is Some,
    ensures
        ({
            let (k, value) = super::pair_of(super::content(pair))->0;
            let key = text::ascii_lowered(k);
            let after = super::after_lines(raw, lines + seq![header, pair], rel).raw;
            &&& after == super::updated(super::after_lines(raw, lines, rel).raw, key, value)
            &&& takes_effect(key, value) ==> same_property(
                after,
                super::updated(super::no_raw(), key, value),
                key,
            )
        }),
{
    let more = seq![header, pair];
    let whole = lines + more;
    assert(whole.drop_last() =~= lines + seq![header]);
    assert(whole.drop_last().drop_last() =~= lines);
    assert(super::after_lines(raw, whole.drop_last(), rel) == super::after_line(
        super::after_lines(raw, lines, rel),
        header,
        rel,
    ));
    lemma_keys_differ();
}

/// A nearer file that names `tab_width` and not `indent_size` leaves an outer
/// file's numeric `indent_size` the indent width.
pub proof fn law_nearer_tab_width_keeps_outer_indent_size(
    raw: Raw,
    n: u32,
    dir: Seq<Seq<char>>,
    text: Seq<char>,
    path: Seq<Seq<char>>,
)
    requires
        raw.indent_size == Some(IndentSize::Width(n)),
        forall|i: int|
            0 <= i < text::lines_of(text).len() ==> !names(
                #[trigger] text::lines_of(text)[i],
                "indent_size"@,
            ),
    ensures
        super::resolved(super::after_file(raw, dir, text, path)).indent_width == Some(n),
{
    law_unnamed_property_is_kept(raw, dir, text, path, "indent_size"@);
    lemma_keys_differ();
}

/// Nearer files win: what a file makes of a property is either its own doing,
/// whatever the outer files had set, or what those had set, unchanged.
pub proof fn law_nearer_file_decides_or_inherits(
    outer: Raw,
    other: Raw,
    dir: Seq<Seq<char>>,
    text: Seq<char>,
    path: Seq<Seq<char>>,
    key: Seq<char>,
)
    ensures
        ({
            let a = super::after_file(outer, dir, text, path);
            let b = super::after_file(other, dir, text, path);
            same_property(a, b, key) || (same_property(a, outer, key) && same_property(
                b,
                other,
                key,
            ))
        }),
{
    if let Some(rel) = path::relative_to(dir, path) {
        lemma_decides_or_inherits(outer, other, text::lines_of(text), rel, key);
    }
}

proof fn lemma_decides_or_inherits(
    outer: Raw,
    other: Raw,
    lines: Seq<Seq<char>>,
    rel: Seq<char>,
    key: Seq<char>,
)
    ensures
        super::after_lines(outer, lines, rel).matching == super::after_lines(
            other,
            lines,
            rel,
        ).matching,
        ({
            let a = super::after_lines(outer, lines, rel).raw;
            let b = super::after_lines(other, lines, rel).raw;
            same_property(a, b, key) || (same_property(a, outer, key) && same_property(
                b,
                other,
                key,
            ))
        }),
    decreases lines.len(),
{
    if lines.len() > 0 {
        lemma_decides_or_inherits(outer, other, lines.drop_last(), rel, key);
        lemma_keys_differ();
        let a = super::after_lines(outer, lines.drop_last(), rel).raw;
        let b = super::after_lines(other, lines.drop_last(), rel).raw;
        if let Some((k, v)) = super::pair_of(super::content(lines.last())) {
            lemma_update_decides_or_inherits(a, b, text::ascii_lowered(k), v, key);
        }
    }
}

proof fn lemma_update_decides_or_inherits(a: Raw, b: Raw, k: Seq<char>, v: Seq<char>, key: Seq<char>)
    ensures
        same_property(super::updated(a, k, v), super::updated(b, k, v), key) || (same_property(
            super::updated(a, k, v),
            a,
            key,
        ) && same_property(super::updated(b, k, v), b, key)),
{
    lemma_keys_differ();
}

/// Files beyond the first that declares `root = true` do not count: whatever
/// lies further out may change or go, and the properties stay the same.
pub proof fn law_root_stops_the_walk(
    files: Map<Seq<Seq<char>>, Seq<char>>,
    others: Map<Seq<Seq<char>>, Seq<char>>,
    path: Seq<Seq<char>>,
    root: Seq<Seq<char>>,
)
    requires
        root.len() < path.len(),
        root.is_prefix_of(path),
        super::lookup(files, root.push(super::FILENAME@)) is Some,
        super::declares_root(super::lookup(files, root.push(super::FILENAME@))->0),
        forall|k: int|
            root.len() <= k < path.len() ==> super::lookup(
                files,
                (#[trigger] path.take(k)).push(super::FILENAME@),
            ) == super::lookup(others, path.take(k).push(super::FILENAME@)),
    ensures
        super::props_for(files, path) == super::props_for(others, path),
{
    if let Some(dir) = path::parent_of(path) {
        assert(dir =~= path.take(path.len() - 1));
        lemma_same_chain(files, others, path, root, path.len() - 1);
    }
}

proof fn lemma_same_chain(
    files: Map<Seq<Seq<char>>, Seq<char>>,
    others: Map<Seq<Seq<char>>, Seq<char>>,
    path: Seq<Seq<char>>,
    root: Seq<Seq<char>>,
    n: int,
)
    requires
        root.len() <= n < path.len(),
        root.is_prefix_of(path),
        super::lookup(files, root.push(super::FILENAME@)) is Some,
        super::declares_root(super::lookup(files, root.push(super::FILENAME@))->0),
        forall|k: int|
            root.len() <= k < path.len() ==> super::lookup(
                files,
                (#[trigger] path.take(k)).push(super::FILENAME@),
            ) == super::lookup(others, path.take(k).push(super::FILENAME@)),
    ensures
        super::chain_from(files, Some(path.take(n))) == super::chain_from(
            others,
            Some(path.take(n)),
        ),
    decreases n,
{
    let dir = path.take(n);
    let found = super::lookup(files, dir.push(super::FILENAME@));
    assert(found == super::lookup(others, dir.push(super::FILENAME@)));
    if n == root.len() {
        assert(dir =~= root) by {
            assert(root == path.subrange(0, n));
        }
        assert(super::next_dir(dir, found) is None);
    } else if super::next_dir(dir, found) is Some {
        assert(dir.drop_last() =~= path.take(n - 1));
        lemma_same_chain(files, others, path, root, n - 1);
    }
    let next = super::next_dir(dir, found);
    assert(super::chain_from(files, next) == super::chain_from(others, next));
}

/// A file of which no directory above holds an `.editorconfig` has no
/// properties.
pub proof fn law_no_config_no_properties(
    files: Map<Seq<Seq<char>>, Seq<char>>,
    path: Seq<Seq<char>>,
)
    requires
        forall|k: int|
            0 <= k < path.len() ==> !files.contains_key(
                (#[trigger] path.take(k)).push(super::FILENAME@),
            ),
    ensures
        super::props_for(files, path) == super::no_props(),
{
    if let Some(dir) = path::parent_of(path) {
        assert(dir =~= path.take(path.len() - 1));
        lemma_empty_chain(files, path, path.len() - 1);
    }
}

proof fn lemma_empty_chain(
    files: Map<Seq<Seq<char>>, Seq<char>>,
    path: Seq<Seq<char>>,
    n: int,
)
    requires
        0 <= n < path.len(),
        forall|k: int|
            0 <= k < path.len() ==> !files.contains_key(
                (#[trigger] path.take(k)).push(super::FILENAME@),
            ),
    ensures
        super::chain_from(files, Some(path.take(n))) == Seq::<Config>::empty(),
    decreases n,
{
    let dir = path.take(n);
    assert(super::lookup(files, dir.push(super::FILENAME@)) is None);
    if let Some(up) = path::parent_of(dir) {
        assert(up =~= path.take(n - 1));
        lemma_empty_chain(files, path, n - 1);
    }
    assert(super::chain_from(files, path::parent_of(dir)) =~= Seq::empty());
    assert(super::chain_from(files, Some(dir)) =~= Seq::empty());
}

/// Sections that do not apply to a file, and what stands before the first
/// section, set nothing for it.
pub proof fn law_only_matching_sections_count(raw: Raw, lines: Seq<Seq<char>>, rel: Seq<char>)
    requires
        forall|i: int|
            0 <= i < lines.len() ==> (super::header_glob(
                super::content(#[trigger] lines[i]),
            ) matches Some(inner) ==> !glob::section_applies(inner, rel)),
    ensures
        super::after_lines(raw, lines, rel) == (Progress { raw, matching: false }),
    decreases lines.len(),
{
    if lines.len() > 0 {
        let front = lines.drop_last();
        assert forall|i: int| 0 <= i < front.len() implies (super::header_glob(
            super::content(#[trigger] front[i]),
        ) matches Some(inner) ==> !glob::section_applies(inner, rel)) by {
            assert(front[i] == lines[i]);
        }
        law_only_matching_sections_count(raw, front, rel);
        assert(super::header_glob(super::content(lines[lines.len() - 1])) matches Some(inner)
            ==> !glob::section_applies(inner, rel));
    }
}

/// Whether `line` is blank, or a comment alone.
pub open spec fn says_nothing(line: Seq<char>) -> bool {
    let t = text::trimmed_start(line);
    t.len() == 0 || t[0] == ';' || t[0] == '#'
}

/// White space is trimmed away whole.
proof fn lemma_white_space_trimmed(s: Seq<char>)
    requires
        forall|i: int| 0 <= i < s.len() ==> text::is_white_space(#[trigger] s[i]),
    ensures
        text::trimmed_start(s).len() == 0,
        text::trimmed(s).len() == 0,
    decreases s.len(),
{
    if s.len() > 0 {
        let rest = s.drop_first();
        assert forall|i: int| 0 <= i < rest.len() implies text::is_white_space(
            #[trigger] rest[i],
        ) by {
            assert(rest[i] == s[i + 1]);
        }
        lemma_white_space_trimmed(rest);
    }
}

/// What is trimmed off the front is white space.
pub(super) proof fn lemma_trimmed_off(s: Seq<char>)
    ensures
        text::trimmed_start(s).len() <= s.len(),
        forall|i: int|
            0 <= i < s.len() - text::trimmed_start(s).len() ==> text::is_white_space(
                #[trigger] s[i],
            ),
        text::trimmed_start(s).len() > 0 ==> s[s.len() - text::trimmed_start(s).len()]
            == text::trimmed_start(s)[0],
    decreases s.len(),
{
    if s.len() > 0 && text::is_white_space(s[0]) {
        let rest = s.drop_first();
        lemma_trimmed_off(rest);
        assert forall|i: int|
            0 <= i < s.len() - text::trimmed_start(s).len() implies text::is_white_space(
            #[trigger] s[i],
        ) by {
            if i > 0 {
                assert(rest[i - 1] == s[i]);
            }
        }
    }
}

/// Nothing is left of a blank line or of a comment.
proof fn lemma_nothing_left(line: Seq<char>)
    requires
        says_nothing(line),
    ensures
        super::content(line).len() == 0,
{
    let t = text::trimmed_start(line);
    let m = line.len() - t.len();
    lemma_trimmed_off(line);
    text::lemma_find_char(line, ';');
    text::lemma_find_char(line, '#');
    let kept = super::uncommented(line);
    assert(kept.len() <= m) by {
        if t.len() > 0 {
            assert(line[m] == t[0]);
        }
    }
    assert forall|i: int| 0 <= i < kept.len() implies text::is_white_space(#[trigger] kept[i]) by {
        assert(kept[i] == line[i]);
    }
    lemma_white_space_trimmed(kept);
}

/// The state behind `more`, from a state in the middle of a file.
spec fn after_more(state: Progress, more: Seq<Seq<char>>, rel: Seq<char>) -> Progress
    decreases more.len(),
{
    if more.len() == 0 {
        state
    } else {
        super::after_line(after_more(state, more.drop_last(), rel), more.last(), rel)
    }
}

proof fn lemma_after_more(raw: Raw, lines: Seq<Seq<char>>, more: Seq<Seq<char>>, rel: Seq<char>)
    ensures
        super::after_lines(raw, lines + more, rel) == after_more(
            super::after_lines(raw, lines, rel),
            more,
            rel,
        ),
    decreases more.len(),
{
    if more.len() == 0 {
        assert(lines + more =~= lines);
    } else {
        lemma_after_more(raw, lines, more.drop_last(), rel);
        assert((lines + more).drop_last() =~= lines + more.drop_last());
    }
}

/// Comments and blank lines may come and go: neither what a file sets nor
/// whether it is a root depends on them.
pub proof fn law_comments_and_blank_lines_are_ignored(
    raw: Raw,
    before: Seq<Seq<char>>,
    line: Seq<char>,
    behind: Seq<Seq<char>>,
    rel: Seq<char>,
)
    requires
        says_nothing(line),
    ensures
        super::after_lines(raw, before + seq![line] + behind, rel) == super::after_lines(
            raw,
            before + behind,
            rel,
        ),
        super::lines_declare_root(before + seq![line] + behind) == super::lines_declare_root(
            before + behind,
        ),
{
    lemma_nothing_left(line);
    text::lemma_find_char(super::content(line), '=');
    lemma_after_more(raw, before + seq![line], behind, rel);
    lemma_after_more(raw, before, behind, rel);
    assert((before + seq![line]).drop_last() =~= before);
    assert(super::after_lines(raw, before + seq![line], rel) == super::after_lines(
        raw,
        before,
        rel,
    ));
    lemma_root_without(before, line, behind);
}

proof fn lemma_root_without(before: Seq<Seq<char>>, line: Seq<char>, behind: Seq<Seq<char>>)
    requires
        super::content(line).len() == 0,
    ensures
        super::lines_declare_root(before + seq![line] + behind) == super::lines_declare_root(
            before + behind,
        ),
    decreases before.len(),
{
    let with = before + seq![line] + behind;
    let without = before + behind;
    if before.len() == 0 {
        text::lemma_find_char(super::content(line), '=');
        assert(with.drop_first() =~= without);
        assert(with[0] == line);
    } else {
        let rest = before.drop_first();
        lemma_root_without(rest, line, behind);
        assert(with.drop_first() =~= rest + seq![line] + behind);
        assert(without.drop_first() =~= rest + behind);
    }
}

/// Whether the widths in `raw` are ones that croft honours.
pub open spec fn widths_in_range(raw: Raw) -> bool {
    &&& raw.indent_size matches Some(IndentSize::Width(n)) ==> 1 <= n <= 16
    &&& raw.tab_width matches Some(n) ==> 1 <= n <= 16
}

/// An indent width, where there is one, is from 1 to 16.
pub proof fn law_indent_width_in_range(files: Map<Seq<Seq<char>>, Seq<char>>, path: Seq<Seq<char>>)
    ensures
        super::props_for(files, path).indent_width matches Some(n) ==> 1 <= n <= 16,
{
    lemma_chain_widths(super::chain_from(files, path::parent_of(path)), path);
}

proof fn lemma_chain_widths(chain: Seq<Config>, path: Seq<Seq<char>>)
    ensures
        widths_in_range(super::after_chain(chain, path)),
    decreases chain.len(),
{
    if chain.len() > 0 {
        lemma_chain_widths(chain.drop_first(), path);
        let outer = super::after_chain(chain.drop_first(), path);
        if let Some(rel) = path::relative_to(chain[0].dir, path) {
            lemma_lines_widths(outer, text::lines_of(chain[0].text), rel);
        }
    }
}

proof fn lemma_lines_widths(raw: Raw, lines: Seq<Seq<char>>, rel: Seq<char>)
    requires
        widths_in_range(raw),
    ensures
        widths_in_range(super::after_lines(raw, lines, rel).raw),
    decreases lines.len(),
{
    if lines.len() > 0 {
        lemma_lines_widths(raw, lines.drop_last(), rel);
    }
}

/// A walk that is handed what `files` hold ends with the files that count: at
/// every step those found and those still ahead are together the same.
pub proof fn law_walk_finds_the_chain(files: Map<Seq<Seq<char>>, Seq<char>>, state: WalkState)
    requires
        state.dir is Some,
    ensures
        ({
            let found = super::lookup(files, state.dir->0.push(super::FILENAME@));
            let next = super::walk_step(state, found);
            &&& next.path == state.path
            &&& next.chain + super::chain_from(files, next.dir) == state.chain
                + super::chain_from(files, state.dir)
        }),
        super::chain_from(files, None) == Seq::<Config>::empty(),
{
    let dir = state.dir->0;
    let found = super::lookup(files, dir.push(super::FILENAME@));
    let next = super::walk_step(state, found);
    assert(next.chain + super::chain_from(files, next.dir) =~= state.chain + super::chain_from(
        files,
        state.dir,
    ));
}

} // verus!
