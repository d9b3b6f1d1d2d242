//! A small Markdown linter that runs on the text of a buffer alone.
//!
//! It covers a few of the most common `markdownlint` rules: several top-level
//! headings (MD025), no space behind the `#`s of a heading (MD018), trailing
//! spaces (MD009) and several blank lines in a row (MD012).

use vstd::prelude::*;
use crate::text;

pub mod laws;

verus! {

/// How serious a diagnostic is.
#[derive(Debug, Clone, Copy, PartialEq, Eq, Structural)]
pub enum DiagnosticSeverity {
    Warning,
    Hint,
}

/// One complaint about a stretch of text. Lines and characters are counted
/// from zero; a character position is a byte offset into its line.
#[derive(Debug, Clone, PartialEq, Eq)]
pub struct Diagnostic {
    pub start_line: u32,
    pub start_char: u32,
    pub end_line: u32,
    pub end_char: u32,
    pub severity: DiagnosticSeverity,
    pub message: String,
}

/// What a diagnostic says, with positions of any size.
pub struct Finding {
    pub line: nat,
    pub start: nat,
    pub end: nat,
    pub severity: DiagnosticSeverity,
    pub message: Seq<char>,
}

/// Whether `d` says what `f` does. A position that does not fit in 32 bits is
/// cut down to its low ones.
pub open spec fn reports(d: Diagnostic, f: Finding) -> bool {
    &&& d.start_line == f.line as u32
    &&& d.start_char == f.start as u32
    &&& d.end_line == f.line as u32
    &&& d.end_char == f.end as u32
    &&& d.severity == f.severity
    &&& d.message@ == f.message
}

/// Number of `#`s at the head of `s`.
pub open spec fn leading_hashes(s: Seq<char>) -> nat
    decreases s.len(),
{
    if s.len() > 0 && s[0] == '#' {
        1 + leading_hashes(s.drop_first())
    } else {
        0
    }
}

/// Whether `line` is a top-level heading: `# ` behind any indentation.
pub open spec fn is_top_heading(line: Seq<char>) -> bool {
    let t = text::trimmed_start(line);
    leading_hashes(t) == 1 && t.len() > 1 && t[1] == ' '
}

/// Whether `line` begins like a heading but lacks the space that would make it
/// one: one to six `#`s and then something other than a space.
pub open spec fn lacks_heading_space(line: Seq<char>) -> bool {
    let t = text::trimmed_start(line);
    let n = leading_hashes(t);
    1 <= n <= 6 && n < t.len() && t[n as int] != ' '
}

/// Whether `line` is white space at most.
pub open spec fn is_blank(line: Seq<char>) -> bool {
    text::trimmed(line).len() == 0
}

/// Whether `line` ends in spaces, other than the two of a hard line break, and
/// is not blank.
pub open spec fn has_stray_spaces(line: Seq<char>) -> bool {
    let kept = text::trimmed_end_of(line, ' ');
    !is_blank(line) && kept.len() < line.len() && line.len() - kept.len() != 2
}

/// Whether line `i` is the second blank line of a run of them.
pub open spec fn is_second_blank(lines: Seq<Seq<char>>, i: int) -> bool {
    i >= 1 && is_blank(lines[i]) && is_blank(lines[i - 1]) && !(i >= 2 && is_blank(lines[i - 2]))
}

/// Whether one of the first `n` lines is a top-level heading.
pub open spec fn heading_before(lines: Seq<Seq<char>>, n: int) -> bool {
    exists|j: int| 0 <= j < n && is_top_heading(#[trigger] lines[j])
}

/// `f` where `found` holds, else nothing.
pub open spec fn found_if(found: bool, f: Finding) -> Seq<Finding> {
    if found {
        seq![f]
    } else {
        Seq::empty()
    }
}

pub open spec fn blank_run_finding(i: nat) -> Finding {
    Finding {
        line: i,
        start: 0,
        end: 0,
        severity: DiagnosticSeverity::Hint,
        message: "MD012: multiple consecutive blank lines"@,
    }
}

pub open spec fn repeated_heading_finding(i: nat, line: Seq<char>) -> Finding {
    Finding {
        line: i,
        start: 0,
        end: text::byte_len(line),
        severity: DiagnosticSeverity::Warning,
        message: "MD025: multiple top-level headings in the same document"@,
    }
}

/// Spans the `#`s, which begin behind the indentation of `line`.
pub open spec fn heading_space_finding(i: nat, line: Seq<char>) -> Finding {
    let t = text::trimmed_start(line);
    let start = (text::byte_len(line) - text::byte_len(t)) as nat;
    Finding {
        line: i,
        start,
        end: start + leading_hashes(t),
        severity: DiagnosticSeverity::Warning,
        message: "MD018: no space after '#' in the heading marker"@,
    }
}

/// Spans the spaces at the end of `line`.
pub open spec fn stray_spaces_finding(i: nat, line: Seq<char>) -> Finding {
    Finding {
        line: i,
        start: text::byte_len(text::trimmed_end_of(line, ' ')),
        end: text::byte_len(line),
        severity: DiagnosticSeverity::Hint,
        message: "MD009: trailing whitespace"@,
    }
}

/// What is wrong with line `i`, from left to right.
pub open spec fn line_findings(lines: Seq<Seq<char>>, i: int) -> Seq<Finding> {
    found_if(is_second_blank(lines, i), blank_run_finding(i as nat)) + found_if(
        is_top_heading(lines[i]) && heading_before(lines, i),
        repeated_heading_finding(i as nat, lines[i]),
    ) + found_if(lacks_heading_space(lines[i]), heading_space_finding(i as nat, lines[i]))
        + found_if(has_stray_spaces(lines[i]), stray_spaces_finding(i as nat, lines[i]))
}

/// What is wrong with the first `n` lines, from top to bottom.
pub open spec fn findings(lines: Seq<Seq<char>>, n: nat) -> Seq<Finding>
    decreases n,
{
    if n == 0 {
        Seq::empty()
    } else {
        findings(lines, (n - 1) as nat) + line_findings(lines, n - 1)
    }
}

/// What is wrong with `text`, in document order.
pub open spec fn text_findings(text: Seq<char>) -> Seq<Finding> {
    findings(text::lines_of(text), text::lines_of(text).len())
}

/// Whether `ds` says what `fs` does, one for one.
pub open spec fn reports_all(ds: Seq<Diagnostic>, fs: Seq<Finding>) -> bool {
    &&& ds.len() == fs.len()
    &&& forall|i: int| 0 <= i < ds.len() ==> reports(#[trigger] ds[i], fs[i])
}

/// A diagnostic on one line.
pub fn diag(
    line: usize,
    start_char: usize,
    end_char: usize,
    severity: DiagnosticSeverity,
    message: &str,
) -> (r: Diagnostic)
    ensures
        r.start_line == line as u32,
        r.start_char == start_char as u32,
        r.end_line == line as u32,
        r.end_char == end_char as u32,
        r.severity == severity,
        r.message@ == message@,
{
    Diagnostic {
        start_line: line as u32,
        start_char: start_char as u32,
        end_line: line as u32,
        end_char: end_char as u32,
        severity,
        message: message.to_owned(),
    }
}

/// Number of `#`s at the head of `s`.
fn count_hashes(s: &Vec<char>) -> (r: usize)
    ensures
        r == leading_hashes(s@),
        r <= s@.len(),
{
    let mut i: usize = 0;
    assert(s@.skip(0) =~= s@);
    while i < s.len() && s[i] == '#'
        invariant
            i <= s@.len(),
            leading_hashes(s@) == i + leading_hashes(s@.skip(i as int)),
        decreases s.len() - i,
    {
        assert(s@.skip(i as int).drop_first() =~= s@.skip(i + 1));
        i = i + 1;
    }
    i
}

/// Whether `d` is there exactly where `found` holds, and then says what `f`
/// does.
spec fn reports_if(d: Option<Diagnostic>, found: bool, f: Finding) -> bool {
    &&& d is Some <==> found
    &&& d is Some ==> reports(d->0, f)
}

/// `d` as a sequence of one or none.
spec fn as_seq(d: Option<Diagnostic>) -> Seq<Diagnostic> {
    match d {
        Some(d) => seq![d],
        None => Seq::empty(),
    }
}

proof fn lemma_reports_more(
    ds: Seq<Diagnostic>,
    fs: Seq<Finding>,
    d: Option<Diagnostic>,
    found: bool,
    f: Finding,
)
    requires
        reports_all(ds, fs),
        reports_if(d, found, f),
    ensures
        reports_all(ds + as_seq(d), fs + found_if(found, f)),
{
}

/// What the rules say of line `i` takes a report on the lines before it to one
/// on the lines up to it.
proof fn lemma_line_reported(
    lines: Seq<Seq<char>>,
    i: int,
    ds: Seq<Diagnostic>,
    blank_run: Option<Diagnostic>,
    repeated: Option<Diagnostic>,
    spacing: Option<Diagnostic>,
    stray: Option<Diagnostic>,
)
    requires
        0 <= i < lines.len(),
        reports_all(ds, findings(lines, i as nat)),
        reports_if(blank_run, is_second_blank(lines, i), blank_run_finding(i as nat)),
        reports_if(
            repeated,
            is_top_heading(lines[i]) && heading_before(lines, i),
            repeated_heading_finding(i as nat, lines[i]),
        ),
        reports_if(
            spacing,
            lacks_heading_space(lines[i]),
            heading_space_finding(i as nat, lines[i]),
        ),
        reports_if(stray, has_stray_spaces(lines[i]), stray_spaces_finding(i as nat, lines[i])),
    ensures
        reports_all(
            ds + as_seq(blank_run) + as_seq(repeated) + as_seq(spacing) + as_seq(stray),
            findings(lines, (i + 1) as nat),
        ),
{
    let n = i as nat;
    let line = lines[i];
    let f1 = blank_run_finding(n);
    let f2 = repeated_heading_finding(n, line);
    let f3 = heading_space_finding(n, line);
    let f4 = stray_spaces_finding(n, line);
    let h1 = is_second_blank(lines, i);
    let h2 = is_top_heading(line) && heading_before(lines, i);
    let h3 = lacks_heading_space(line);
    let h4 = has_stray_spaces(line);
    let fs = findings(lines, n);
    lemma_reports_more(ds, fs, blank_run, h1, f1);
    lemma_reports_more(ds + as_seq(blank_run), fs + found_if(h1, f1), repeated, h2, f2);
    let ds2 = ds + as_seq(blank_run) + as_seq(repeated);
    let fs2 = fs + found_if(h1, f1) + found_if(h2, f2);
    lemma_reports_more(ds2, fs2, spacing, h3, f3);
    lemma_reports_more(ds2 + as_seq(spacing), fs2 + found_if(h3, f3), stray, h4, f4);
    assert(fs2 + found_if(h3, f3) + found_if(h4, f4) =~= fs + line_findings(lines, i));
}

/// Appends `d`, if it is there.
fn push_some(out: &mut Vec<Diagnostic>, d: Option<Diagnostic>)
    ensures
        final(out)@ == old(out)@ + as_seq(d),
{
    if let Some(d) = d {
        out.push(d);
    }
    assert(out@ =~= old(out)@ + as_seq(d));
}

/// Whether `line` is a top-level heading.
fn heads_document(line: &str) -> (r: bool)
    ensures
        r == is_top_heading(line@),
{
    let chars = text::char_vec(text::trim_start(line));
    count_hashes(&chars) == 1 && chars.len() > 1 && chars[1] == ' '
}

/// MD018: a heading's `#`s must be followed by a space (`#Heading` is not a
/// heading in CommonMark, a common authoring slip).
fn check_heading_space(i: usize, line: &str) -> (r: Option<Diagnostic>)
    ensures
        reports_if(r, lacks_heading_space(line@), heading_space_finding(i as nat, line@)),
{
    let trimmed_start = text::trim_start(line);
    let chars = text::char_vec(trimmed_start);
    let hashes: usize = count_hashes(&chars);
    if 1 <= hashes && hashes <= 6 && hashes < chars.len() && chars[hashes] != ' ' {
        proof {
            text::lemma_trimmed_start(line@);
            text::lemma_byte_len_at_least(trimmed_start@);
        }
        let col: usize = text::len(line) - text::len(trimmed_start);
        Some(
            diag(
                i,
                col,
                col + hashes,
                DiagnosticSeverity::Warning,
                "MD018: no space after '#' in the heading marker",
            ),
        )
    } else {
        None
    }
}

/// MD009: trailing spaces, but for the two of a hard line break and for blank
/// lines.
fn check_stray_spaces(i: usize, line: &str) -> (r: Option<Diagnostic>)
    ensures
        reports_if(r, has_stray_spaces(line@), stray_spaces_finding(i as nat, line@)),
{
    let trimmed_end = text::trim_end_matches(line, ' ');
    proof {
        text::lemma_trimmed_spaces(line@);
    }
    let kept: usize = text::len(trimmed_end);
    let trailing: usize = text::len(line) - kept;
    if trailing > 0 && trailing != 2 && !text::trim(line).is_empty() {
        Some(
            diag(
                i,
                kept,
                text::len(line),
                DiagnosticSeverity::Hint,
                "MD009: trailing whitespace",
            ),
        )
    } else {
        None
    }
}

/// Lints Markdown `text` and returns one diagnostic per violation, in document
/// order.
pub fn lint(text: &str) -> (r: Vec<Diagnostic>)
    ensures
        reports_all(r@, text_findings(text@)),
{
    let lines = text::lines(text);
    let ghost all = text::lines_of(text@);
    let mut out: Vec<Diagnostic> = Vec::new();
    let mut seen_h1 = false;
    let mut blank_run_start: Option<usize> = None;
    let mut i: usize = 0;
    while i < lines.len()
        invariant
            lines.deep_view() == all,
            i <= all.len(),
            all.len() == lines@.len(),
            seen_h1 == heading_before(all, i as int),
            blank_run_start is None ==> !(i >= 1 && is_blank(all[i - 1])),
            blank_run_start is Some ==> {
                let start = blank_run_start->0 as int;
                &&& 0 <= start < i
                &&& forall|k: int| start <= k < i ==> is_blank(#[trigger] all[k])
                &&& !(start >= 1 && is_blank(all[start - 1]))
            },
            reports_all(out@, findings(all, i as nat)),
        decreases lines.len() - i,
    {
        let line: &str = lines[i];
        assert(line@ == all[i as int]) by {
            assert(lines.deep_view()[i as int] == lines@[i as int]@);
        }

        // MD012: more than one consecutive blank line.
        let mut blank_run: Option<Diagnostic> = None;
        if text::trim(line).is_empty() {
            match blank_run_start {
                None => {
                    blank_run_start = Some(i);
                },
                Some(start) => if i - start == 1 {
                    blank_run =
                    Some(
                        diag(
                            i,
                            0,
                            0,
                            DiagnosticSeverity::Hint,
                            "MD012: multiple consecutive blank lines",
                        ),
                    );
                },
            }
        } else {
            blank_run_start = None;
        }

        // MD025: more than one top-level heading in a document.
        let mut repeated: Option<Diagnostic> = None;
        if heads_document(line) {
            if seen_h1 {
                repeated =
                Some(
                    diag(
                        i,
                        0,
                        text::len(line),
                        DiagnosticSeverity::Warning,
                        "MD025: multiple top-level headings in the same document",
                    ),
                );
            }
            seen_h1 = true;
        }
        let spacing = check_heading_space(i, line);
        let stray = check_stray_spaces(i, line);
        proof {
            lemma_line_reported(all, i as int, out@, blank_run, repeated, spacing, stray);
            assert(heading_before(all, i + 1) <==> heading_before(all, i as int)
                || is_top_heading(all[i as int]));
        }
        push_some(&mut out, blank_run);
        push_some(&mut out, repeated);
        push_some(&mut out, spacing);
        push_some(&mut out, stray);
        i = i + 1;
    }
    out
}

/// Whether `a` begins no later in the document than `b`.
pub open spec fn in_order(a: Finding, b: Finding) -> bool {
    a.line < b.line || (a.line == b.line && a.start <= b.start)
}

/// Whether the span of `f` lies in one of the first `n` lines.
pub open spec fn lies_within(f: Finding, lines: Seq<Seq<char>>, n: nat) -> bool {
    f.line < n && f.start <= f.end <= text::byte_len(lines[f.line as int])
}

/// Trimming spaces off the end stops at anything else.
proof fn lemma_spaces_trimmed_behind(s: Seq<char>, k: int)
    requires
        0 <= k < s.len(),
        s[k] != ' ',
    ensures
        text::trimmed_end_of(s, ' ').len() > k,
    decreases s.len(),
{
    if s.last() == ' ' {
        lemma_spaces_trimmed_behind(s.drop_last(), k);
    }
}

/// The `#`s counted are there.
proof fn lemma_leading_hashes(s: Seq<char>)
    ensures
        leading_hashes(s) <= s.len(),
        leading_hashes(s) > 0 ==> s[0] == '#',
    decreases s.len(),
{
    if s.len() > 0 && s[0] == '#' {
        lemma_leading_hashes(s.drop_first());
    }
}

/// Where a heading lacks its space, it begins within the line and before any
/// stray spaces.
proof fn lemma_heading_span(i: nat, line: Seq<char>)
    requires
        lacks_heading_space(line),
    ensures
        heading_space_finding(i, line).end <= text::byte_len(line),
        heading_space_finding(i, line).start <= stray_spaces_finding(i, line).start,
{
    let t = text::trimmed_start(line);
    let kept = text::trimmed_end_of(line, ' ');
    text::lemma_trimmed_start(line);
    text::lemma_trimmed_spaces(line);
    lemma_leading_hashes(t);
    text::lemma_byte_len_at_least(t);
    let m = line.len() - t.len();
    let q = kept.len() as int;
    assert(line[m] == t[0]);
    lemma_spaces_trimmed_behind(line, m);
    assert(line =~= line.take(m) + t);
    text::lemma_encode_concat(line.take(m), t);
    assert(kept =~= line.take(m) + line.subrange(m, q));
    text::lemma_encode_concat(line.take(m), line.subrange(m, q));
}

/// What one line gives is in order and lies in that line.
proof fn lemma_line_findings(lines: Seq<Seq<char>>, i: int)
    requires
        0 <= i < lines.len(),
    ensures
        forall|k: int|
            0 <= k < line_findings(lines, i).len() ==> (#[trigger] line_findings(
                lines,
                i,
            )[k]).line == i && lies_within(line_findings(lines, i)[k], lines, lines.len()),
        forall|j: int, k: int|
            0 <= j <= k < line_findings(lines, i).len() ==> in_order(
                #[trigger] line_findings(lines, i)[j],
                #[trigger] line_findings(lines, i)[k],
            ),
{
    let line = lines[i];
    text::lemma_trimmed_spaces(line);
    let a = found_if(is_second_blank(lines, i), blank_run_finding(i as nat));
    let b = found_if(
        is_top_heading(line) && heading_before(lines, i),
        repeated_heading_finding(i as nat, line),
    );
    let c = found_if(lacks_heading_space(line), heading_space_finding(i as nat, line));
    let d = found_if(has_stray_spaces(line), stray_spaces_finding(i as nat, line));
    assert(line_findings(lines, i) == a + b + c + d);
    if lacks_heading_space(line) {
        lemma_heading_span(i as nat, line);
        text::lemma_trimmed_start(line);
    }
}

proof fn lemma_findings_in_order(lines: Seq<Seq<char>>, n: nat)
    requires
        n <= lines.len(),
    ensures
        forall|k: int|
            0 <= k < findings(lines, n).len() ==> lies_within(
                #[trigger] findings(lines, n)[k],
                lines,
                n,
            ),
        forall|j: int, k: int|
            0 <= j <= k < findings(lines, n).len() ==> in_order(
                #[trigger] findings(lines, n)[j],
                #[trigger] findings(lines, n)[k],
            ),
    decreases n,
{
    if n > 0 {
        let before = findings(lines, (n - 1) as nat);
        let here = line_findings(lines, n - 1);
        let all = findings(lines, n);
        lemma_findings_in_order(lines, (n - 1) as nat);
        lemma_line_findings(lines, n - 1);
        assert forall|k: int| 0 <= k < all.len() implies lies_within(
            #[trigger] all[k],
            lines,
            n,
        ) by {
            if k < before.len() {
                assert(all[k] == before[k]);
            } else {
                assert(all[k] == here[k - before.len()]);
            }
        }
        assert forall|j: int, k: int| 0 <= j <= k < all.len() implies in_order(
            #[trigger] all[j],
            #[trigger] all[k],
        ) by {
            if k < before.len() {
                assert(all[j] == before[j] && all[k] == before[k]);
            } else if j < before.len() {
                assert(all[j] == before[j] && all[k] == here[k - before.len()]);
            } else {
                assert(all[j] == here[j - before.len()] && all[k] == here[k - before.len()]);
            }
        }
    }
}

/// What is found stands in document order, and each span lies in a line of the
/// document.
pub proof fn law_document_order(text: Seq<char>)
    ensures
        forall|j: int, k: int|
            0 <= j <= k < text_findings(text).len() ==> in_order(
                #[trigger] text_findings(text)[j],
                #[trigger] text_findings(text)[k],
            ),
        forall|k: int|
            0 <= k < text_findings(text).len() ==> lies_within(
                #[trigger] text_findings(text)[k],
                text::lines_of(text),
                text::lines_of(text).len(),
            ),
{
    lemma_findings_in_order(text::lines_of(text), text::lines_of(text).len());
}

/// The diagnostics that `lint` returns stand in document order, each on one
/// line, where every line and every offset can be counted in 32 bits.
pub proof fn law_diagnostics_in_order(text: Seq<char>, ds: Seq<Diagnostic>)
    requires
        reports_all(ds, text_findings(text)),
        text::lines_of(text).len() <= 0x1_0000_0000,
        forall|i: int|
            0 <= i < text::lines_of(text).len() ==> text::byte_len(
                #[trigger] text::lines_of(text)[i],
            ) < 0x1_0000_0000,
    ensures
        forall|j: int, k: int|
            0 <= j <= k < ds.len() ==> (#[trigger] ds[j]).start_line < (
            #[trigger] ds[k]).start_line || (ds[j].start_line == ds[k].start_line
                && ds[j].start_char <= ds[k].start_char),
        forall|k: int|
            0 <= k < ds.len() ==> (#[trigger] ds[k]).start_line == ds[k].end_line
                && ds[k].start_char <= ds[k].end_char,
{
    let fs = text_findings(text);
    let lines = text::lines_of(text);
    law_document_order(text);
    assert forall|k: int| 0 <= k < ds.len() implies (#[trigger] ds[k]).start_line == fs[k].line
        && ds[k].end_line == fs[k].line && ds[k].start_char == fs[k].start && ds[k].end_char
        == fs[k].end by {
        assert(lies_within(fs[k], lines, lines.len()));
        assert(text::byte_len(lines[fs[k].line as int]) < 0x1_0000_0000);
        assert(reports(ds[k], fs[k]));
    }
    assert forall|j: int, k: int| 0 <= j <= k < ds.len() implies (#[trigger] ds[j]).start_line < (
    #[trigger] ds[k]).start_line || (ds[j].start_line == ds[k].start_line && ds[j].start_char
        <= ds[k].start_char) by {
        assert(in_order(fs[j], fs[k]));
    }
    assert forall|k: int| 0 <= k < ds.len() implies (#[trigger] ds[k]).start_line
        == ds[k].end_line && ds[k].start_char <= ds[k].end_char by {
        assert(lies_within(fs[k], lines, lines.len()));
    }
}

proof fn lemma_contains_concat(a: Seq<Finding>, b: Seq<Finding>, f: Finding)
    ensures
        (a + b).contains(f) <==> a.contains(f) || b.contains(f),
{
    if (a + b).contains(f) {
        let k = (a + b).index_of(f);
        if k < a.len() {
            assert(a[k] == f);
        } else {
            assert(b[k - a.len()] == f);
        }
    }
    if a.contains(f) {
        assert((a + b)[a.index_of(f)] == f);
    }
    if b.contains(f) {
        assert((a + b)[a.len() + b.index_of(f)] == f);
    }
}

proof fn lemma_findings_contain(lines: Seq<Seq<char>>, n: nat, f: Finding)
    requires
        n <= lines.len(),
    ensures
        findings(lines, n).contains(f) <==> (f.line < n && line_findings(
            lines,
            f.line as int,
        ).contains(f)),
    decreases n,
{
    if n > 0 {
        let here = line_findings(lines, n - 1);
        lemma_findings_contain(lines, (n - 1) as nat, f);
        lemma_contains_concat(findings(lines, (n - 1) as nat), here, f);
        lemma_line_findings(lines, n - 1);
        if here.contains(f) {
            assert(here[here.index_of(f)].line == n - 1);
        }
    }
}

/// The messages of the rules are all different.
proof fn lemma_messages_differ(i: nat, line: Seq<char>)
    ensures
        blank_run_finding(i).message != repeated_heading_finding(i, line).message,
        blank_run_finding(i).message != heading_space_finding(i, line).message,
        blank_run_finding(i).message != stray_spaces_finding(i, line).message,
        repeated_heading_finding(i, line).message != heading_space_finding(i, line).message,
        repeated_heading_finding(i, line).message != stray_spaces_finding(i, line).message,
        heading_space_finding(i, line).message != stray_spaces_finding(i, line).message,
{
    reveal_strlit("MD012: multiple consecutive blank lines");
    reveal_strlit("MD025: multiple top-level headings in the same document");
    reveal_strlit("MD018: no space after '#' in the heading marker");
    reveal_strlit("MD009: trailing whitespace");
    assert(blank_run_finding(i).message[4] == '2');
    assert(repeated_heading_finding(i, line).message[4] == '5');
    assert(heading_space_finding(i, line).message[4] == '8');
    assert(stray_spaces_finding(i, line).message[4] == '9');
}

proof fn lemma_found_if(found: bool, f: Finding, g: Finding)
    ensures
        found_if(found, f).contains(g) <==> found && f == g,
{
    if found {
        assert(found_if(found, f)[0] == f);
    }
}

/// Each rule is reported for a line where that line breaks it, and not
/// otherwise: a top-level heading behind another one, a heading without its
/// space, stray spaces, and the second line of a run of blank ones.
pub proof fn law_findings_are_the_violations(text: Seq<char>, i: int)
    requires
        0 <= i < text::lines_of(text).len(),
    ensures
        ({
            let lines = text::lines_of(text);
            let fs = text_findings(text);
            let n = i as nat;
            &&& fs.contains(blank_run_finding(n)) <==> is_second_blank(lines, i)
            &&& fs.contains(repeated_heading_finding(n, lines[i])) <==> is_top_heading(lines[i])
                && heading_before(lines, i)
            &&& fs.contains(heading_space_finding(n, lines[i])) <==> lacks_heading_space(lines[i])
            &&& fs.contains(stray_spaces_finding(n, lines[i])) <==> has_stray_spaces(lines[i])
        }),
{
    let lines = text::lines_of(text);
    let line = lines[i];
    let n = i as nat;
    let fa = blank_run_finding(n);
    let fb = repeated_heading_finding(n, line);
    let fc = heading_space_finding(n, line);
    let fd = stray_spaces_finding(n, line);
    let ha = is_second_blank(lines, i);
    let hb = is_top_heading(line) && heading_before(lines, i);
    let hc = lacks_heading_space(line);
    let hd = has_stray_spaces(line);
    let a = found_if(ha, fa);
    let b = found_if(hb, fb);
    let c = found_if(hc, fc);
    let d = found_if(hd, fd);
    lemma_messages_differ(n, line);
    assert(line_findings(lines, i) == a + b + c + d);
    assert forall|f: Finding| line_findings(lines, i).contains(f) <==> (ha && f == fa) || (hb && f
        == fb) || (hc && f == fc) || (hd && f == fd) by {
        lemma_contains_concat(a + b + c, d, f);
        lemma_contains_concat(a + b, c, f);
        lemma_contains_concat(a, b, f);
        lemma_found_if(ha, fa, f);
        lemma_found_if(hb, fb, f);
        lemma_found_if(hc, fc, f);
        lemma_found_if(hd, fd, f);
    }
    lemma_findings_contain(lines, lines.len(), fa);
    lemma_findings_contain(lines, lines.len(), fb);
    lemma_findings_contain(lines, lines.len(), fc);
    lemma_findings_contain(lines, lines.len(), fd);
}

/// Each violation is reported once: no two findings on one line have the same
/// message.
pub proof fn law_one_finding_per_violation(text: Seq<char>)
    ensures
        forall|j: int, k: int|
            0 <= j < k < text_findings(text).len() ==> (#[trigger] text_findings(text)[j]).line != (
            #[trigger] text_findings(text)[k]).line || text_findings(text)[j].message
                != text_findings(text)[k].message,
{
    lemma_findings_distinct(text::lines_of(text), text::lines_of(text).len());
}

proof fn lemma_findings_distinct(lines: Seq<Seq<char>>, n: nat)
    requires
        n <= lines.len(),
    ensures
        forall|j: int, k: int|
            0 <= j < k < findings(lines, n).len() ==> (#[trigger] findings(lines, n)[j]).line != (
            #[trigger] findings(lines, n)[k]).line || findings(lines, n)[j].message
                != findings(lines, n)[k].message,
    decreases n,
{
    if n > 0 {
        let before = findings(lines, (n - 1) as nat);
        let here = line_findings(lines, n - 1);
        let all = findings(lines, n);
        lemma_findings_distinct(lines, (n - 1) as nat);
        lemma_findings_in_order(lines, (n - 1) as nat);
        lemma_line_findings(lines, n - 1);
        lemma_messages_differ((n - 1) as nat, lines[n - 1]);
        assert forall|j: int, k: int| 0 <= j < k < all.len() implies (#[trigger] all[j]).line != (
        #[trigger] all[k]).line || all[j].message != all[k].message by {
            if k < before.len() {
                assert(all[j] == before[j] && all[k] == before[k]);
            } else if j < before.len() {
                assert(all[j] == before[j] && all[k] == here[k - before.len()]);
                assert(lies_within(before[j], lines, (n - 1) as nat));
            } else {
                assert(all[j] == here[j - before.len()] && all[k] == here[k - before.len()]);
            }
        }
    }
}

/// Whether line `i` breaks no rule.
pub open spec fn is_clean(lines: Seq<Seq<char>>, i: int) -> bool {
    &&& !is_second_blank(lines, i)
    &&& !(is_top_heading(lines[i]) && heading_before(lines, i))
    &&& !lacks_heading_space(lines[i])
    &&& !has_stray_spaces(lines[i])
}

/// A document none of whose lines breaks a rule has no findings, and only such
/// a document has none.
pub proof fn law_clean_document(text: Seq<char>)
    ensures
        text_findings(text).len() == 0 <==> forall|i: int|
            0 <= i < text::lines_of(text).len() ==> #[trigger] is_clean(text::lines_of(text), i),
{
    let lines = text::lines_of(text);
    let fs = text_findings(text);
    if fs.len() == 0 {
        assert forall|i: int| 0 <= i < lines.len() implies #[trigger] is_clean(lines, i) by {
            law_findings_are_the_violations(text, i);
        }
    } else {
        let f = fs[0];
        assert(fs.contains(f));
        lemma_findings_contain(lines, lines.len(), f);
        let i = f.line as int;
        assert(line_findings(lines, i).len() > 0);
        assert(!is_clean(lines, i));
    }
}

/// A document has at most one top-level heading exactly where none is reported
/// as repeated.
pub proof fn law_single_heading_is_not_flagged(text: Seq<char>)
    ensures
        (forall|i: int|
            0 <= i < text::lines_of(text).len() ==> !text_findings(text).contains(
                repeated_heading_finding(i as nat, #[trigger] text::lines_of(text)[i]),
            )) <==> (forall|i: int, j: int|
            0 <= i < j < text::lines_of(text).len() ==> !(is_top_heading(
                #[trigger] text::lines_of(text)[i],
            ) && is_top_heading(#[trigger] text::lines_of(text)[j]))),
{
    let lines = text::lines_of(text);
    assert forall|i: int| 0 <= i < lines.len() implies text_findings(text).contains(
        repeated_heading_finding(i as nat, #[trigger] lines[i]),
    ) == (is_top_heading(lines[i]) && heading_before(lines, i)) by {
        law_findings_are_the_violations(text, i);
    }
    if forall|i: int|
        0 <= i < lines.len() ==> !text_findings(text).contains(
            repeated_heading_finding(i as nat, #[trigger] lines[i]),
        ) {
        assert forall|i: int, j: int| 0 <= i < j < lines.len() implies !(is_top_heading(
            #[trigger] lines[i],
        ) && is_top_heading(#[trigger] lines[j])) by {
            if is_top_heading(lines[i]) {
                assert(heading_before(lines, j));
            }
        }
    }
}

/// Blank lines are reported exactly where two of them follow one another.
pub proof fn law_single_blank_line_is_not_flagged(text: Seq<char>)
    ensures
        (forall|i: int|
            0 <= i < text::lines_of(text).len() ==> !text_findings(text).contains(
                #[trigger] blank_run_finding(i as nat),
            )) <==> (forall|i: int|
            1 <= i < text::lines_of(text).len() ==> !(is_blank(
                #[trigger] text::lines_of(text)[i],
            ) && is_blank(text::lines_of(text)[i - 1]))),
{
    let lines = text::lines_of(text);
    assert forall|i: int| 0 <= i < lines.len() implies text_findings(text).contains(
        #[trigger] blank_run_finding(i as nat),
    ) == is_second_blank(lines, i) by {
        law_findings_are_the_violations(text, i);
    }
    if forall|i: int|
        0 <= i < lines.len() ==> !text_findings(text).contains(
            #[trigger] blank_run_finding(i as nat),
        ) {
        assert forall|i: int| 1 <= i < lines.len() implies !(is_blank(#[trigger] lines[i])
            && is_blank(lines[i - 1])) by {
            assert forall|k: int| 0 <= k < lines.len() implies !is_second_blank(lines, k) by {
                assert(!text_findings(text).contains(blank_run_finding(k as nat)));
            }
            lemma_no_second_blank(lines, i);
        }
    }
    if forall|i: int|
        1 <= i < lines.len() ==> !(is_blank(#[trigger] lines[i]) && is_blank(lines[i - 1])) {
        assert forall|i: int| 0 <= i < lines.len() implies !text_findings(text).contains(
            #[trigger] blank_run_finding(i as nat),
        ) by {
            if i >= 1 {
                assert(!(is_blank(lines[i]) && is_blank(lines[i - 1])));
            }
        }
    }
}

/// Two blank lines in a row lie in a run that has a second line.
proof fn lemma_no_second_blank(lines: Seq<Seq<char>>, i: int)
    requires
        1 <= i < lines.len(),
        forall|k: int| 0 <= k < lines.len() ==> !is_second_blank(lines, k),
    ensures
        !(is_blank(lines[i]) && is_blank(lines[i - 1])),
    decreases i,
{
    assert(!is_second_blank(lines, i));
    if i >= 2 {
        lemma_no_second_blank(lines, i - 1);
    }
}

} // verus!
