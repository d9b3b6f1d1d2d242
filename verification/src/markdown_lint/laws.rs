//! What each rule reports, stated on the characters of the lines: where it is
//! reported, with which span, and that nothing else is.

use vstd::prelude::*;
use vstd::utf8::*;
use super::{Diagnostic, DiagnosticSeverity, Finding};
use crate::text;

verus! {

/// Whether every character of `s` is white space.
pub open spec fn all_white(s: Seq<char>) -> bool {
    forall|i: int| 0 <= i < s.len() ==> text::is_white_space(#[trigger] s[i])
}

/// Whether `line` is a `# ` behind white space, with anything behind it.
pub open spec fn begins_top_heading(line: Seq<char>) -> bool {
    exists|k: int|
        0 <= k < line.len() - 1 && #[trigger] line[k] == '#' && line[k + 1] == ' ' && all_white(
            line.take(k),
        )
}

/// What is left when the front is trimmed begins with something other than
/// white space; nothing is left of white space alone.
proof fn lemma_trimmed_start_ends(s: Seq<char>)
    ensures
        text::trimmed_start(s).len() > 0 ==> !text::is_white_space(text::trimmed_start(s)[0]),
        text::trimmed_start(s).len() == 0 ==> all_white(s),
    decreases s.len(),
{
    if s.len() > 0 && text::is_white_space(s[0]) {
        let rest = s.drop_first();
        lemma_trimmed_start_ends(rest);
        if text::trimmed_start(s).len() == 0 {
            assert forall|i: int| 0 <= i < s.len() implies text::is_white_space(#[trigger] s[i]) by {
                if i > 0 {
                    assert(rest[i - 1] == s[i]);
                }
            }
        }
    }
}

proof fn lemma_trimmed_end_stops(s: Seq<char>)
    requires
        s.len() > 0,
        !text::is_white_space(s[0]),
    ensures
        text::trimmed_end(s).len() > 0,
    decreases s.len(),
{
    if text::is_white_space(s.last()) {
        lemma_trimmed_end_stops(s.drop_last());
    }
}

proof fn lemma_blank(line: Seq<char>)
    ensures
        super::is_blank(line) <==> all_white(line),
{
    lemma_trimmed_start_ends(line);
    if all_white(line) {
        text::law_trim_start_takes_leading_white_space(line, Seq::empty());
        assert(line + Seq::<char>::empty() =~= line);
    }
    if text::trimmed_start(line).len() > 0 {
        lemma_trimmed_end_stops(text::trimmed_start(line));
    }
}

proof fn lemma_hashes(n: nat, rest: Seq<char>)
    requires
        rest.len() > 0 ==> rest[0] != '#',
    ensures
        super::leading_hashes(text::repeated('#', n) + rest) == n,
    decreases n,
{
    let s = text::repeated('#', n) + rest;
    if n == 0 {
        assert(s =~= rest);
    } else {
        lemma_hashes((n - 1) as nat, rest);
        assert(s.drop_first() =~= text::repeated('#', (n - 1) as nat) + rest);
    }
}

proof fn lemma_top_heading(line: Seq<char>)
    ensures
        super::is_top_heading(line) <==> begins_top_heading(line),
{
    let t = text::trimmed_start(line);
    text::lemma_trimmed_start(line);
    let m = line.len() - t.len();
    if super::is_top_heading(line) {
        super::lemma_leading_hashes(t);
        lemma_indent(line);
        assert(line[m] == t[0] && line[m + 1] == t[1]);
    }
    if begins_top_heading(line) {
        let k = choose|k: int|
            0 <= k < line.len() - 1 && #[trigger] line[k] == '#' && line[k + 1] == ' ' && all_white(
                line.take(k),
            );
        let kept = line.skip(k);
        assert(line =~= line.take(k) + kept);
        text::law_trim_start_takes_leading_white_space(line.take(k), kept);
        lemma_hashes(1, kept.skip(1));
        assert(kept =~= text::repeated('#', 1) + kept.skip(1));
    }
}

/// What is trimmed off the front is white space.
proof fn lemma_indent(line: Seq<char>)
    ensures
        all_white(line.take(line.len() - text::trimmed_start(line).len())),
    decreases line.len(),
{
    let n = line.len() - text::trimmed_start(line).len();
    text::lemma_trimmed_start(line);
    if line.len() > 0 && text::is_white_space(line[0]) {
        let rest = line.drop_first();
        lemma_indent(rest);
        text::lemma_trimmed_start(rest);
        let a = line.take(n);
        let b = rest.take(n - 1);
        assert forall|i: int| 0 <= i < a.len() implies text::is_white_space(#[trigger] a[i]) by {
            if i > 0 {
                assert(b[i - 1] == a[i]);
            }
        }
    }
}

/// What is found on one line.
proof fn lemma_on_line(text: Seq<char>, i: int, f: Finding)
    requires
        0 <= i < text::lines_of(text).len(),
        f.line == i,
    ensures
        ({
            let lines = text::lines_of(text);
            let n = i as nat;
            super::text_findings(text).contains(f) <==> {
                ||| super::is_second_blank(lines, i) && f == super::blank_run_finding(n)
                ||| super::is_top_heading(lines[i]) && super::heading_before(lines, i) && f
                    == super::repeated_heading_finding(n, lines[i])
                ||| super::lacks_heading_space(lines[i]) && f == super::heading_space_finding(
                    n,
                    lines[i],
                )
                ||| super::has_stray_spaces(lines[i]) && f == super::stray_spaces_finding(
                    n,
                    lines[i],
                )
            }
        }),
{
    let lines = text::lines_of(text);
    let line = lines[i];
    let n = i as nat;
    let ha = super::is_second_blank(lines, i);
    let hb = super::is_top_heading(line) && super::heading_before(lines, i);
    let hc = super::lacks_heading_space(line);
    let hd = super::has_stray_spaces(line);
    let a = super::found_if(ha, super::blank_run_finding(n));
    let b = super::found_if(hb, super::repeated_heading_finding(n, line));
    let c = super::found_if(hc, super::heading_space_finding(n, line));
    let d = super::found_if(hd, super::stray_spaces_finding(n, line));
    super::lemma_findings_contain(lines, lines.len(), f);
    assert(super::line_findings(lines, i) == a + b + c + d);
    super::lemma_contains_concat(a + b + c, d, f);
    super::lemma_contains_concat(a + b, c, f);
    super::lemma_contains_concat(a, b, f);
    super::lemma_found_if(ha, super::blank_run_finding(n), f);
    super::lemma_found_if(hb, super::repeated_heading_finding(n, line), f);
    super::lemma_found_if(hc, super::heading_space_finding(n, line), f);
    super::lemma_found_if(hd, super::stray_spaces_finding(n, line), f);
}

/// The messages of the rules are all different.
proof fn lemma_messages()
    ensures
        "MD009: trailing whitespace"@ != "MD012: multiple consecutive blank lines"@,
        "MD009: trailing whitespace"@ != "MD018: no space after '#' in the heading marker"@,
        "MD009: trailing whitespace"@ != "MD025: multiple top-level headings in the same document"@,
        "MD012: multiple consecutive blank lines"@
            != "MD018: no space after '#' in the heading marker"@,
        "MD012: multiple consecutive blank lines"@
            != "MD025: multiple top-level headings in the same document"@,
        "MD018: no space after '#' in the heading marker"@
            != "MD025: multiple top-level headings in the same document"@,
{
    super::lemma_messages_differ(0, Seq::empty());
}

/// On a line that ends in just `k` spaces behind something that is not blank,
/// trailing spaces are reported where there is one or more of them and not
/// just two; the report spans them.
pub proof fn law_trailing_spaces_but_for_two_are_reported(
    text: Seq<char>,
    i: int,
    kept: Seq<char>,
    k: nat,
)
    requires
        0 <= i < text::lines_of(text).len(),
        text::lines_of(text)[i] == kept + text::repeated(' ', k),
        !all_white(kept),
        kept.last() != ' ',
    ensures
        ({
            let report = Finding {
                line: i as nat,
                start: encode_utf8(kept).len(),
                end: encode_utf8(kept).len() + k,
                severity: DiagnosticSeverity::Hint,
                message: "MD009: trailing whitespace"@,
            };
            &&& super::text_findings(text).contains(report) <==> k >= 1 && k != 2
            &&& forall|f: Finding|
                #[trigger] super::text_findings(text).contains(f) && f.line == i && f.message
                    == "MD009: trailing whitespace"@ ==> f == report
        }),
{
    let line = text::lines_of(text)[i];
    let report = Finding {
        line: i as nat,
        start: encode_utf8(kept).len(),
        end: encode_utf8(kept).len() + k,
        severity: DiagnosticSeverity::Hint,
        message: "MD009: trailing whitespace"@,
    };
    assert(!all_white(line)) by {
        let j = choose|j: int| 0 <= j < kept.len() && !text::is_white_space(#[trigger] kept[j]);
        assert(line[j] == kept[j]);
    }
    lemma_blank(line);
    text::law_trim_end_matches_takes_copies(kept, ' ', k);
    text::lemma_trimmed_spaces(line);
    lemma_messages();
    lemma_on_line(text, i, report);
    assert forall|f: Finding|
        #[trigger] super::text_findings(text).contains(f) && f.line == i && f.message
            == "MD009: trailing whitespace"@ implies f == report by {
        lemma_on_line(text, i, f);
    }
}

/// No trailing spaces are reported on a blank line.
pub proof fn law_blank_lines_have_no_trailing_spaces(text: Seq<char>, i: int, f: Finding)
    requires
        0 <= i < text::lines_of(text).len(),
        all_white(text::lines_of(text)[i]),
        f.line == i,
        f.message == "MD009: trailing whitespace"@,
    ensures
        !super::text_findings(text).contains(f),
{
    lemma_blank(text::lines_of(text)[i]);
    lemma_messages();
    lemma_on_line(text, i, f);
}

/// On a line of just `n` `#`s behind its indentation, a missing space is
/// reported where there are one to six of them and then something other than a
/// space; the report spans the `#`s.
pub proof fn law_hashes_without_a_space_are_reported(
    text: Seq<char>,
    i: int,
    indent: Seq<char>,
    n: nat,
    rest: Seq<char>,
)
    requires
        0 <= i < text::lines_of(text).len(),
        text::lines_of(text)[i] == indent + text::repeated('#', n) + rest,
        all_white(indent),
        rest.len() > 0 ==> rest[0] != '#',
        n == 0 && rest.len() > 0 ==> !text::is_white_space(rest[0]),
    ensures
        ({
            let report = Finding {
                line: i as nat,
                start: encode_utf8(indent).len(),
                end: encode_utf8(indent).len() + n,
                severity: DiagnosticSeverity::Warning,
                message: "MD018: no space after '#' in the heading marker"@,
            };
            &&& super::text_findings(text).contains(report) <==> 1 <= n <= 6 && rest.len() > 0
                && rest[0] != ' '
            &&& forall|f: Finding|
                #[trigger] super::text_findings(text).contains(f) && f.line == i && f.message
                    == "MD018: no space after '#' in the heading marker"@ ==> f == report
        }),
{
    let line = text::lines_of(text)[i];
    let t = text::repeated('#', n) + rest;
    let report = Finding {
        line: i as nat,
        start: encode_utf8(indent).len(),
        end: encode_utf8(indent).len() + n,
        severity: DiagnosticSeverity::Warning,
        message: "MD018: no space after '#' in the heading marker"@,
    };
    assert(line =~= indent + t);
    text::law_trim_start_takes_leading_white_space(indent, t);
    text::lemma_encode_concat(indent, t);
    lemma_hashes(n, rest);
    lemma_messages();
    lemma_on_line(text, i, report);
    assert forall|f: Finding|
        #[trigger] super::text_findings(text).contains(f) && f.line == i && f.message
            == "MD018: no space after '#' in the heading marker"@ implies f == report by {
        lemma_on_line(text, i, f);
    }
}

/// A top-level heading is reported where another stands above it; the report
/// spans its line.
pub proof fn law_top_headings_but_the_first_are_reported(text: Seq<char>, i: int)
    requires
        0 <= i < text::lines_of(text).len(),
    ensures
        ({
            let lines = text::lines_of(text);
            let report = Finding {
                line: i as nat,
                start: 0,
                end: encode_utf8(lines[i]).len(),
                severity: DiagnosticSeverity::Warning,
                message: "MD025: multiple top-level headings in the same document"@,
            };
            &&& super::text_findings(text).contains(report) <==> begins_top_heading(lines[i])
                && exists|j: int| 0 <= j < i && begins_top_heading(#[trigger] lines[j])
            &&& forall|f: Finding|
                #[trigger] super::text_findings(text).contains(f) && f.line == i && f.message
                    == "MD025: multiple top-level headings in the same document"@ ==> f == report
        }),
{
    let lines = text::lines_of(text);
    let report = Finding {
        line: i as nat,
        start: 0,
        end: encode_utf8(lines[i]).len(),
        severity: DiagnosticSeverity::Warning,
        message: "MD025: multiple top-level headings in the same document"@,
    };
    assert forall|j: int| 0 <= j <= i implies super::is_top_heading(#[trigger] lines[j])
        == begins_top_heading(lines[j]) by {
        lemma_top_heading(lines[j]);
    }
    assert(super::is_top_heading(lines[i]) == begins_top_heading(lines[i]));
    if super::heading_before(lines, i) {
        let j = choose|j: int| 0 <= j < i && super::is_top_heading(#[trigger] lines[j]);
        assert(begins_top_heading(lines[j]));
    }
    lemma_messages();
    lemma_on_line(text, i, report);
    assert forall|f: Finding|
        #[trigger] super::text_findings(text).contains(f) && f.line == i && f.message
            == "MD025: multiple top-level headings in the same document"@ implies f == report by {
        lemma_on_line(text, i, f);
    }
}

/// A run of blank lines is reported on its second line, and once: a blank line
/// is reported where the one above it is blank and the one above that is not,
/// or is not there.
pub proof fn law_blank_runs_are_reported_on_their_second_line(text: Seq<char>, i: int)
    requires
        0 <= i < text::lines_of(text).len(),
    ensures
        ({
            let lines = text::lines_of(text);
            let report = Finding {
                line: i as nat,
                start: 0,
                end: 0,
                severity: DiagnosticSeverity::Hint,
                message: "MD012: multiple consecutive blank lines"@,
            };
            &&& super::text_findings(text).contains(report) <==> i >= 1 && all_white(lines[i])
                && all_white(lines[i - 1]) && (i == 1 || !all_white(lines[i - 2]))
            &&& forall|f: Finding|
                #[trigger] super::text_findings(text).contains(f) && f.line == i && f.message
                    == "MD012: multiple consecutive blank lines"@ ==> f == report
        }),
{
    let lines = text::lines_of(text);
    let report = Finding {
        line: i as nat,
        start: 0,
        end: 0,
        severity: DiagnosticSeverity::Hint,
        message: "MD012: multiple consecutive blank lines"@,
    };
    lemma_blank(lines[i]);
    if i >= 1 {
        lemma_blank(lines[i - 1]);
    }
    if i >= 2 {
        lemma_blank(lines[i - 2]);
    }
    lemma_messages();
    lemma_on_line(text, i, report);
    assert forall|f: Finding|
        #[trigger] super::text_findings(text).contains(f) && f.line == i && f.message
            == "MD012: multiple consecutive blank lines"@ implies f == report by {
        lemma_on_line(text, i, f);
    }
}

/// Nothing is reported but these four rules, on lines of the document.
pub proof fn law_nothing_else_is_reported(text: Seq<char>, f: Finding)
    requires
        super::text_findings(text).contains(f),
    ensures
        f.line < text::lines_of(text).len(),
        f.message == "MD009: trailing whitespace"@ || f.message
            == "MD012: multiple consecutive blank lines"@ || f.message
            == "MD018: no space after '#' in the heading marker"@ || f.message
            == "MD025: multiple top-level headings in the same document"@,
{
    let lines = text::lines_of(text);
    super::lemma_findings_contain(lines, lines.len(), f);
    lemma_on_line(text, f.line as int, f);
}

/// No two reports begin at the same place, and each stands behind all that
/// begin before it.
pub proof fn law_reports_begin_one_behind_the_other(text: Seq<char>)
    ensures
        forall|j: int, k: int|
            0 <= j < k < super::text_findings(text).len() ==> (#[trigger] super::text_findings(
                text,
            )[j]).line < (#[trigger] super::text_findings(text)[k]).line || (super::text_findings(
                text,
            )[j].line == super::text_findings(text)[k].line && super::text_findings(text)[j].start
                < super::text_findings(text)[k].start),
{
    lemma_strict_order(text::lines_of(text), text::lines_of(text).len());
}

proof fn lemma_line_strict(lines: Seq<Seq<char>>, i: int)
    requires
        0 <= i < lines.len(),
    ensures
        forall|j: int, k: int|
            0 <= j < k < super::line_findings(lines, i).len() ==> (#[trigger] super::line_findings(
                lines,
                i,
            )[j]).start < (#[trigger] super::line_findings(lines, i)[k]).start,
{
    let line = lines[i];
    let n = i as nat;
    let kept = text::trimmed_end_of(line, ' ');
    let t = text::trimmed_start(line);
    let m = line.len() - t.len();
    let ha = super::is_second_blank(lines, i);
    let hb = super::is_top_heading(line) && super::heading_before(lines, i);
    let hc = super::lacks_heading_space(line);
    let hd = super::has_stray_spaces(line);
    text::lemma_trimmed_start(line);
    text::lemma_trimmed_spaces(line);
    text::lemma_byte_len_at_least(kept);
    lemma_trimmed_start_ends(line);
    if t.len() == 0 {
        assert(text::trimmed(line).len() == 0);
    } else {
        lemma_trimmed_end_stops(t);
        assert(!super::is_blank(line));
        assert(line[m] == t[0]);
        super::lemma_spaces_trimmed_behind(line, m);
        let q = kept.len() as int;
        assert(line =~= line.take(m) + t);
        text::lemma_encode_concat(line.take(m), t);
        assert(kept =~= line.take(m) + line.subrange(m, q));
        text::lemma_encode_concat(line.take(m), line.subrange(m, q));
        text::lemma_byte_len_at_least(line.subrange(m, q));
        assert(super::heading_space_finding(n, line).start < super::stray_spaces_finding(
            n,
            line,
        ).start);
    }
    assert(!(hb && hc));
    let a = super::found_if(ha, super::blank_run_finding(n));
    let b = super::found_if(hb, super::repeated_heading_finding(n, line));
    let c = super::found_if(hc, super::heading_space_finding(n, line));
    let d = super::found_if(hd, super::stray_spaces_finding(n, line));
    assert(super::line_findings(lines, i) == a + b + c + d);
}

proof fn lemma_strict_order(lines: Seq<Seq<char>>, n: nat)
    requires
        n <= lines.len(),
    ensures
        forall|j: int, k: int|
            0 <= j < k < super::findings(lines, n).len() ==> (#[trigger] super::findings(
                lines,
                n,
            )[j]).line < (#[trigger] super::findings(lines, n)[k]).line || (super::findings(
                lines,
                n,
            )[j].line == super::findings(lines, n)[k].line && super::findings(lines, n)[j].start
                < super::findings(lines, n)[k].start),
    decreases n,
{
    if n > 0 {
        let before = super::findings(lines, (n - 1) as nat);
        let here = super::line_findings(lines, n - 1);
        let all = super::findings(lines, n);
        lemma_strict_order(lines, (n - 1) as nat);
        super::lemma_findings_in_order(lines, (n - 1) as nat);
        super::lemma_line_findings(lines, n - 1);
        lemma_line_strict(lines, n - 1);
        assert forall|j: int, k: int| 0 <= j < k < all.len() implies (#[trigger] all[j]).line < (
        #[trigger] all[k]).line || (all[j].line == all[k].line && all[j].start < all[k].start) by {
            if k < before.len() {
                assert(all[j] == before[j] && all[k] == before[k]);
            } else if j < before.len() {
                assert(all[j] == before[j] && all[k] == here[k - before.len()]);
                assert(super::lies_within(before[j], lines, (n - 1) as nat));
            } else {
                assert(all[j] == here[j - before.len()] && all[k] == here[k - before.len()]);
            }
        }
    }
}

/// The diagnostics are what was found, one for one and in the same order, each
/// on a single line; of a position, the low 32 bits are kept.
pub proof fn law_diagnostics_are_what_was_found(ds: Seq<Diagnostic>, fs: Seq<Finding>, i: int)
    requires
        super::reports_all(ds, fs),
    ensures
        ds.len() == fs.len(),
        0 <= i < ds.len() ==> ds[i].start_line == fs[i].line as u32 && ds[i].end_line
            == fs[i].line as u32 && ds[i].start_char == fs[i].start as u32 && ds[i].end_char
            == fs[i].end as u32 && ds[i].severity == fs[i].severity && ds[i].message@
            == fs[i].message,
{
    if 0 <= i < ds.len() {
        assert(super::reports(ds[i], fs[i]));
    }
}

} // verus!
