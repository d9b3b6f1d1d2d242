//! EditorConfig's section globs: character classes, wildcards and brace
//! alternatives.

use vstd::prelude::*;
use vstd::slice::slice_subrange;
use crate::braces;
use crate::text;

pub mod laws;

verus! {

/// Where the members of the class at the head of `p` begin: behind `[` or `[!`.
pub open spec fn class_start(p: Seq<char>) -> int {
    if p.len() > 1 && p[1] == '!' {
        2
    } else {
        1
    }
}

/// Position of the `]` that closes the class at the head of `p`.
pub open spec fn class_end(p: Seq<char>) -> Option<int> {
    let start = class_start(p);
    let end = start + text::find_char(p.skip(start), ']');
    if end < p.len() {
        Some(end)
    } else {
        None
    }
}

/// Whether `c` is a member of the class body `set`, a list of single
/// characters and of ranges `a-z`.
pub open spec fn in_set(set: Seq<char>, c: char) -> bool
    decreases set.len(),
{
    if set.len() == 0 {
        false
    } else if set.len() > 2 && set[1] == '-' {
        set[0] <= c <= set[2] || in_set(set.skip(3), c)
    } else {
        c == set[0] || in_set(set.skip(1), c)
    }
}

/// Whether the class at the head of `p`, which closes at `end`, admits `c`.
/// No class admits `/`.
pub open spec fn class_admits(p: Seq<char>, end: int, c: char) -> bool {
    let start = class_start(p);
    c != '/' && in_set(p.subrange(start, end), c) != (start == 2)
}

/// Number of pattern characters that the head of `p`, other than a `*`, takes
/// up: a whole class, or one character.
pub open spec fn head_len(p: Seq<char>) -> int {
    if p[0] == '[' && class_end(p) is Some {
        class_end(p)->0 + 1
    } else {
        1
    }
}

/// Whether the head of `p`, other than a `*`, matches the character `c`.
pub open spec fn head_takes(p: Seq<char>, c: char) -> bool {
    if p[0] == '?' {
        c != '/'
    } else if p[0] == '[' && class_end(p) is Some {
        class_admits(p, class_end(p)->0, c)
    } else {
        c == p[0]
    }
}

/// Whether the glob `p`, free of braces, matches the whole of `t`.
///
/// `*` stands for any run of characters without `/`, `**` for any run at all,
/// and `**/` also for nothing; `?` is one character other than `/`; `[..]` is
/// one character of a class, `[!..]` one outside it, and a `[` that is never
/// closed is itself. Any other character is itself.
pub open spec fn glob_matches(p: Seq<char>, t: Seq<char>) -> bool
    decreases p.len(),
{
    if p.len() == 0 {
        t.len() == 0
    } else if p[0] == '*' && p.len() > 1 && p[1] == '*' {
        let rest = p.skip(2);
        ||| rest.len() > 0 && rest[0] == '/' && glob_matches(rest.skip(1), t)
        ||| exists|i: int| 0 <= i <= t.len() && glob_matches(rest, #[trigger] t.skip(i))
    } else if p[0] == '*' {
        exists|i: int|
            0 <= i <= t.len() && !t.take(i).contains('/') && glob_matches(
                p.skip(1),
                #[trigger] t.skip(i),
            )
    } else {
        t.len() > 0 && head_takes(p, t[0]) && glob_matches(p.skip(head_len(p)), t.skip(1))
    }
}

/// Whether `c` is a member of the class body `set`.
fn set_contains(set: &[char], c: char) -> (r: bool)
    ensures
        r == in_set(set@, c),
{
    let mut i: usize = 0;
    assert(set@.skip(0) =~= set@);
    while i < set.len()
        invariant
            i <= set@.len(),
            in_set(set@, c) == in_set(set@.skip(i as int), c),
        decreases set.len() - i,
    {
        let ghost tail = set@.skip(i as int);
        if set.len() - i > 2 && set[i + 1] == '-' {
            if set[i] <= c && c <= set[i + 2] {
                return true;
            }
            assert(tail.skip(3) =~= set@.skip(i + 3));
            i = i + 3;
        } else {
            if c == set[i] {
                return true;
            }
            assert(tail.skip(1) =~= set@.skip(i + 1));
            i = i + 1;
        }
    }
    false
}

/// Position of the `]` that closes the class at the head of `p`, if one does.
fn find_class_end(p: &[char]) -> (r: Option<usize>)
    requires
        p@.len() > 0,
    ensures
        r is Some <==> class_end(p@) is Some,
        r is Some ==> r->0 == class_end(p@)->0 && class_start(p@) <= r->0 < p@.len(),
{
    let start: usize = if p.len() > 1 && p[1] == '!' {
        2
    } else {
        1
    };
    let n: usize = find_in(p, start, ']');
    if n < p.len() {
        Some(n)
    } else {
        None
    }
}

/// Position of the first `c` in `s` at or behind `start`; the length of `s`
/// where there is none.
fn find_in(s: &[char], start: usize, c: char) -> (r: usize)
    requires
        start <= s@.len(),
    ensures
        r == start + text::find_char(s@.skip(start as int), c),
        r <= s@.len(),
{
    let tail = slice_subrange(s, start, s.len());
    assert(tail@ =~= s@.skip(start as int));
    start + text::find(tail, c)
}

/// Whether the class at the head of `p`, which closes at `end`, admits `c`.
pub fn match_class(p: &[char], end: usize, c: char) -> (r: bool)
    requires
        class_start(p@) <= end < p@.len(),
    ensures
        r == class_admits(p@, end as int, c),
{
    let negated = p[1] == '!';
    let start: usize = if negated {
        2
    } else {
        1
    };
    c != '/' && set_contains(slice_subrange(p, start, end), c) != negated
}

/// Whether `row[j]` tells, for every `j`, if `p` matches `t` from `j` on.
spec fn is_row(p: Seq<char>, t: Seq<char>, row: Seq<bool>) -> bool {
    &&& row.len() == t.len() + 1
    &&& forall|j: int| 0 <= j <= t.len() ==> #[trigger] row[j] == glob_matches(p, t.skip(j))
}

/// `*` takes nothing, or one character other than `/` and then whatever it
/// would take from there.
proof fn lemma_star_step(p: Seq<char>, t: Seq<char>)
    requires
        p.len() > 0,
        p[0] == '*',
        !(p.len() > 1 && p[1] == '*'),
    ensures
        glob_matches(p, t) <==> (glob_matches(p.skip(1), t) || (t.len() > 0 && t[0] != '/'
            && glob_matches(p, t.skip(1)))),
{
    let rest = p.skip(1);
    assert(t.skip(0) =~= t);
    if glob_matches(p, t) {
        let i = choose|i: int|
            0 <= i <= t.len() && !t.take(i).contains('/') && glob_matches(
                rest,
                #[trigger] t.skip(i),
            );
        if i > 0 {
            assert(t.take(i)[0] == t[0]);
            assert(t.skip(1).skip(i - 1) =~= t.skip(i));
            assert(glob_matches(rest, t.skip(1).skip(i - 1)));
            assert(!t.skip(1).take(i - 1).contains('/')) by {
                assert forall|k: int| 0 <= k < i - 1 implies #[trigger] t.skip(1).take(i - 1)[k] != '/' by {
                    assert(t.take(i)[k + 1] == t.skip(1).take(i - 1)[k]);
                }
            }
        }
    }
    if glob_matches(rest, t) {
        assert(glob_matches(rest, t.skip(0)));
        assert(!t.take(0).contains('/'));
    }
    if t.len() > 0 && t[0] != '/' && glob_matches(p, t.skip(1)) {
        let i = choose|i: int|
            0 <= i <= t.skip(1).len() && !t.skip(1).take(i).contains('/')
                && glob_matches(rest, #[trigger] t.skip(1).skip(i));
        assert(t.skip(1).skip(i) =~= t.skip(i + 1));
        assert(glob_matches(rest, t.skip(i + 1)));
        assert(!t.take(i + 1).contains('/')) by {
            assert forall|k: int| 0 <= k < i + 1 implies #[trigger] t.take(i + 1)[k] != '/' by {
                if k > 0 {
                    assert(t.skip(1).take(i)[k - 1] == t.take(i + 1)[k]);
                }
            }
        }
    }
}

/// Whether `rest` matches `t` from some position on.
spec fn matches_some_tail(rest: Seq<char>, t: Seq<char>) -> bool {
    exists|i: int| 0 <= i <= t.len() && glob_matches(rest, #[trigger] t.skip(i))
}

/// A tail of `t` is `t` itself or a tail of what follows its first character.
proof fn lemma_tail_step(rest: Seq<char>, t: Seq<char>)
    ensures
        matches_some_tail(rest, t) <==> (glob_matches(rest, t) || (t.len() > 0
            && matches_some_tail(rest, t.skip(1)))),
{
    assert(t.skip(0) =~= t);
    if matches_some_tail(rest, t) {
        let i = choose|i: int| 0 <= i <= t.len() && glob_matches(rest, #[trigger] t.skip(i));
        if i > 0 {
            assert(t.skip(1).skip(i - 1) =~= t.skip(i));
            assert(glob_matches(rest, t.skip(1).skip(i - 1)));
        }
    }
    if glob_matches(rest, t) {
        assert(glob_matches(rest, t.skip(0)));
    }
    if t.len() > 0 && matches_some_tail(rest, t.skip(1)) {
        let i = choose|i: int|
            0 <= i <= t.skip(1).len() && glob_matches(rest, #[trigger] t.skip(1).skip(i));
        assert(t.skip(1).skip(i) =~= t.skip(i + 1));
        assert(glob_matches(rest, t.skip(i + 1)));
    }
}

/// The row of a pattern `*rest`, from the row of `rest`.
fn star_row(p: &[char], t: &[char], next: &Vec<bool>) -> (r: Vec<bool>)
    requires
        p@.len() > 0,
        p@[0] == '*',
        !(p@.len() > 1 && p@[1] == '*'),
        is_row(p@.skip(1), t@, next@),
    ensures
        is_row(p@, t@, r@),
{
    let mut r = next.clone();
    let mut j: usize = t.len();
    proof {
        lemma_star_step(p@, t@.skip(j as int));
    }
    while j > 0
        invariant
            j <= t@.len(),
            r@.len() == t@.len() + 1,
            p@.len() > 0,
            p@[0] == '*',
            !(p@.len() > 1 && p@[1] == '*'),
            forall|k: int|
                j <= k <= t@.len() ==> #[trigger] r@[k] == glob_matches(p@, t@.skip(k)),
            forall|k: int|
                0 <= k < j ==> #[trigger] r@[k] == glob_matches(p@.skip(1), t@.skip(k)),
        decreases j,
    {
        j = j - 1;
        let hit = r[j] || (t[j] != '/' && r[j + 1]);
        proof {
            lemma_star_step(p@, t@.skip(j as int));
            assert(t@.skip(j as int).skip(1) =~= t@.skip(j + 1));
        }
        r.set(j, hit);
    }
    r
}

/// The row of a pattern `**rest`, from the rows of `rest` and, where `rest`
/// begins with `/`, of what follows that.
fn double_star_row(p: &[char], t: &[char], next: &Vec<bool>, behind_slash: Option<&Vec<bool>>) -> (r:
    Vec<bool>)
    requires
        p@.len() > 1,
        p@[0] == '*',
        p@[1] == '*',
        is_row(p@.skip(2), t@, next@),
        behind_slash is Some <==> p@.len() > 2 && p@[2] == '/',
        behind_slash is Some ==> is_row(p@.skip(3), t@, behind_slash->0@),
    ensures
        is_row(p@, t@, r@),
{
    let mut r = next.clone();
    let mut j: usize = t.len();
    let ghost rest = p@.skip(2);
    proof {
        lemma_tail_step(rest, t@.skip(j as int));
    }
    while j > 0
        invariant
            j <= t@.len(),
            r@.len() == t@.len() + 1,
            forall|k: int|
                j <= k <= t@.len() ==> #[trigger] r@[k] == matches_some_tail(rest, t@.skip(k)),
            forall|k: int| 0 <= k < j ==> #[trigger] r@[k] == glob_matches(rest, t@.skip(k)),
        decreases j,
    {
        j = j - 1;
        let hit = r[j] || r[j + 1];
        proof {
            lemma_tail_step(rest, t@.skip(j as int));
            assert(t@.skip(j as int).skip(1) =~= t@.skip(j + 1));
        }
        r.set(j, hit);
    }
    if let Some(skipped) = behind_slash {
        assert(rest.skip(1) =~= p@.skip(3));
        while j < r.len()
            invariant
                j <= t@.len() + 1,
                r@.len() == t@.len() + 1,
                skipped@.len() == t@.len() + 1,
                rest == p@.skip(2),
                rest.skip(1) == p@.skip(3),
                p@.len() > 2,
                p@[0] == '*',
                p@[1] == '*',
                p@[2] == '/',
                is_row(p@.skip(3), t@, skipped@),
                forall|k: int|
                    0 <= k < j ==> #[trigger] r@[k] == glob_matches(p@, t@.skip(k)),
                forall|k: int|
                    j <= k <= t@.len() ==> #[trigger] r@[k] == matches_some_tail(
                        rest,
                        t@.skip(k),
                    ),
            decreases t@.len() + 1 - j,
        {
            let hit = r[j] || skipped[j];
            r.set(j, hit);
            j = j + 1;
        }
    }
    r
}

/// The row of a pattern whose head takes one character, from the row of what
/// follows the head. `end` is where the class at the head closes, if it is one.
fn single_row(p: &[char], t: &[char], end: Option<usize>, next: &Vec<bool>) -> (r: Vec<bool>)
    requires
        p@.len() > 0,
        p@[0] != '*',
        end is Some <==> p@[0] == '[' && class_end(p@) is Some,
        end is Some ==> end->0 == class_end(p@)->0 && class_start(p@) <= end->0 < p@.len(),
        is_row(p@.skip(head_len(p@)), t@, next@),
    ensures
        is_row(p@, t@, r@),
{
    let mut r: Vec<bool> = Vec::new();
    let mut j: usize = 0;
    while j < t.len()
        invariant
            p@.len() > 0,
            p@[0] != '*',
            end is Some <==> p@[0] == '[' && class_end(p@) is Some,
            end is Some ==> end->0 == class_end(p@)->0 && class_start(p@) <= end->0 < p@.len(),
            is_row(p@.skip(head_len(p@)), t@, next@),
            j <= t@.len(),
            r@.len() == j,
            forall|k: int| 0 <= k < j ==> #[trigger] r@[k] == glob_matches(p@, t@.skip(k)),
        decreases t.len() - j,
    {
        let c = t[j];
        let taken = match end {
            Some(e) => match_class(p, e, c),
            None => if p[0] == '?' {
                c != '/'
            } else {
                c == p[0]
            },
        };
        assert(t@.skip(j as int).skip(1) =~= t@.skip(j + 1));
        r.push(taken && next[j + 1]);
        j = j + 1;
    }
    r.push(false);
    r
}

/// The row of a pattern `p` that is not empty, from `later`, the rows of its
/// proper tails, shortest first.
fn match_row(p: &[char], t: &[char], later: &Vec<Vec<bool>>) -> (r: Vec<bool>)
    requires
        p@.len() > 0,
        later@.len() == p@.len(),
        forall|k: int|
            0 <= k < p@.len() ==> is_row(p@.skip(p@.len() - k), t@, #[trigger] later@[k]@),
    ensures
        is_row(p@, t@, r@),
{
    let m: usize = p.len();
    if p[0] == '*' {
        if m > 1 && p[1] == '*' {
            let behind_slash = if m > 2 && p[2] == '/' {
                Some(&later[m - 3])
            } else {
                None
            };
            double_star_row(p, t, &later[m - 2], behind_slash)
        } else {
            star_row(p, t, &later[m - 1])
        }
    } else if p[0] == '[' {
        let end = find_class_end(p);
        match end {
            Some(e) => single_row(p, t, end, &later[m - 1 - e]),
            None => single_row(p, t, end, &later[m - 1]),
        }
    } else {
        single_row(p, t, None, &later[m - 1])
    }
}

/// Whether the glob `p`, free of braces, matches the whole of `t`.
///
/// The answers for every tail of `p` against every tail of `t` are tabulated,
/// shortest pattern first, and each is worked out once: a pattern of many
/// wildcards costs no more than another of its length.
pub fn glob_match(p: &[char], t: &[char]) -> (r: bool)
    ensures
        r == glob_matches(p@, t@),
{
    let mut bottom: Vec<bool> = Vec::new();
    let mut j: usize = 0;
    while j < t.len()
        invariant
            j <= t@.len(),
            bottom@.len() == j,
            forall|k: int| 0 <= k < j ==> !#[trigger] bottom@[k],
        decreases t.len() - j,
    {
        bottom.push(false);
        j = j + 1;
    }
    bottom.push(true);
    let mut rows: Vec<Vec<bool>> = Vec::new();
    rows.push(bottom);
    let mut i: usize = p.len();
    while i > 0
        invariant
            i <= p@.len(),
            rows@.len() == p@.len() - i + 1,
            forall|k: int|
                0 <= k < rows@.len() ==> is_row(p@.skip(p@.len() - k), t@, #[trigger] rows@[k]@),
        decreases i,
    {
        i = i - 1;
        let tail = slice_subrange(p, i, p.len());
        proof {
            assert forall|k: int| 0 <= k < tail@.len() implies is_row(
                tail@.skip(tail@.len() - k),
                t@,
                #[trigger] rows@[k]@,
            ) by {
                assert(tail@.skip(tail@.len() - k) =~= p@.skip(p@.len() - k));
            }
        }
        let row = match_row(tail, t, &rows);
        assert(tail@ =~= p@.skip(i as int));
        rows.push(row);
    }
    assert(p@.skip(0) =~= p@);
    assert(t@.skip(0) =~= t@);
    rows[p.len()][0]
}

/// The glob of a section header, relative to the directory of its file: one
/// without a `/` may match at any depth, and a leading `/` only says that the
/// glob is relative to that directory.
pub open spec fn anchored(glob: Seq<char>) -> Seq<char> {
    if glob.len() > 0 && glob[0] == '/' {
        glob.skip(1)
    } else if glob.contains('/') {
        glob
    } else {
        seq!['*', '*', '/'] + glob
    }
}

/// Whether one of the patterns that `pattern` stands for matches `rel`.
pub open spec fn some_expansion_matches(pattern: Seq<char>, rel: Seq<char>) -> bool {
    exists|i: int|
        0 <= i < braces::expansions(pattern).len() && glob_matches(
            #[trigger] braces::expansions(pattern)[i],
            rel,
        )
}

/// Whether the section `[glob]` applies to `rel`, a path relative to the
/// directory of the section's file.
pub open spec fn section_applies(glob: Seq<char>, rel: Seq<char>) -> bool {
    some_expansion_matches(anchored(glob), rel)
}

/// Whether the section `[glob]` applies to `rel`, a path relative to the
/// directory of the section's file.
pub fn section_matches(glob: &str, rel: &str) -> (r: bool)
    ensures
        r == section_applies(glob@, rel@),
{
    let chars = text::char_vec(glob);
    let slash: usize = text::find(chars.as_slice(), '/');
    let mut pattern: String = String::new();
    proof {
        text::lemma_find_char(glob@, '/');
        reveal_strlit("**/");
    }
    if slash == 0 && chars.len() > 0 {
        pattern.append(text::split_at_char(glob, 1).1);
    } else if slash < chars.len() {
        pattern.append(glob);
    } else {
        pattern.append("**/");
        pattern.append(glob);
    }
    assert(pattern@ =~= anchored(glob@));
    let expanded = braces::expand_braces(pattern.as_str());
    let target = text::char_vec(rel);
    let mut i: usize = 0;
    while i < expanded.len()
        invariant
            i <= expanded@.len(),
            target@ == rel@,
            expanded.deep_view() == braces::expansions(anchored(glob@)),
            forall|k: int|
                0 <= k < i ==> !glob_matches(
                    #[trigger] braces::expansions(anchored(glob@))[k],
                    rel@,
                ),
        decreases expanded.len() - i,
    {
        let concrete = text::char_vec(expanded[i].as_str());
        assert(expanded.deep_view()[i as int] == expanded@[i as int]@);
        if glob_match(concrete.as_slice(), target.as_slice()) {
            return true;
        }
        i = i + 1;
    }
    false
}

/// A pattern without wildcards or classes matches itself and nothing else.
pub proof fn law_literal_matches_itself(p: Seq<char>, t: Seq<char>)
    requires
        !p.contains('*'),
        !p.contains('?'),
        !p.contains('['),
    ensures
        glob_matches(p, t) <==> p == t,
    decreases p.len(),
{
    if p.len() > 0 {
        let rest = p.skip(1);
        assert(p.contains(p[0]));
        assert forall|c: char| !p.contains(c) implies !rest.contains(c) by {
            if rest.contains(c) {
                let i = rest.index_of(c);
                assert(p[i + 1] == c);
            }
        }
        if t.len() > 0 {
            law_literal_matches_itself(rest, t.skip(1));
            assert(p =~= seq![p[0]] + rest);
            assert(t =~= seq![t[0]] + t.skip(1));
            if p == t {
                assert(rest =~= t.skip(1));
            }
        }
    } else if t.len() == 0 {
        assert(p =~= t);
    }
}

/// `*` alone matches whatever holds no `/`.
pub proof fn law_star_stops_at_slash(t: Seq<char>)
    ensures
        glob_matches(seq!['*'], t) <==> !t.contains('/'),
{
    let p = seq!['*'];
    assert(p.skip(1) =~= Seq::empty());
    assert(t.take(t.len() as int) =~= t);
    if glob_matches(p, t) {
        let i = choose|i: int|
            0 <= i <= t.len() && !t.take(i).contains('/') && glob_matches(
                p.skip(1),
                #[trigger] t.skip(i),
            );
        assert(i == t.len());
    }
    if !t.contains('/') {
        assert(glob_matches(p.skip(1), t.skip(t.len() as int)));
    }
}

/// `**` alone matches anything.
pub proof fn law_double_star_matches_anything(t: Seq<char>)
    ensures
        glob_matches(seq!['*', '*'], t),
{
    assert(seq!['*', '*'].skip(2) =~= Seq::empty());
    assert(glob_matches(seq!['*', '*'].skip(2), t.skip(t.len() as int)));
}

/// `**/p` matches what `p` matches, behind any number of directories, none
/// included.
pub proof fn law_double_star_slash(p: Seq<char>, t: Seq<char>)
    ensures
        glob_matches(seq!['*', '*', '/'] + p, t) <==> (glob_matches(p, t) || exists|i: int|
            0 <= i < t.len() && #[trigger] t[i] == '/' && glob_matches(p, t.skip(i + 1))),
{
    let whole = seq!['*', '*', '/'] + p;
    let rest = whole.skip(2);
    assert(rest =~= seq!['/'] + p);
    assert(rest.skip(1) =~= p);
    assert forall|i: int| 0 <= i <= t.len() implies glob_matches(rest, #[trigger] t.skip(i)) == (i
        < t.len() && t[i] == '/' && glob_matches(p, t.skip(i + 1))) by {
        let tail = t.skip(i);
        if i < t.len() {
            assert(tail[0] == t[i]);
            assert(tail.skip(1) =~= t.skip(i + 1));
        }
    }
    if glob_matches(whole, t) && !glob_matches(p, t) {
        let i = choose|i: int| 0 <= i <= t.len() && glob_matches(rest, #[trigger] t.skip(i));
        assert(t[i] == '/');
    }
    if exists|i: int| 0 <= i < t.len() && #[trigger] t[i] == '/' && glob_matches(p, t.skip(i + 1)) {
        let i = choose|i: int|
            0 <= i < t.len() && #[trigger] t[i] == '/' && glob_matches(p, t.skip(i + 1));
        assert(glob_matches(rest, t.skip(i)));
    }
}

/// Whether `p` holds `**` anywhere.
pub open spec fn has_double_star(p: Seq<char>) -> bool {
    exists|i: int| 0 <= i < p.len() - 1 && #[trigger] p[i] == '*' && p[i + 1] == '*'
}

/// Only a `/` or a `**` in a pattern can match a `/`.
pub proof fn law_slash_needs_slash_or_double_star(p: Seq<char>, t: Seq<char>)
    requires
        !p.contains('/'),
        !has_double_star(p),
        glob_matches(p, t),
    ensures
        !t.contains('/'),
    decreases p.len(),
{
    if p.len() > 0 {
        if p[0] == '*' {
            assert(!(p.len() > 1 && p[1] == '*')) by {
                if p.len() > 1 && p[1] == '*' {
                    assert(p[0] == '*' && p[0int + 1] == '*');
                }
            }
            let i = choose|i: int|
                0 <= i <= t.len() && !t.take(i).contains('/') && glob_matches(
                    p.skip(1),
                    #[trigger] t.skip(i),
                );
            lemma_tail_has_no_slash(p, 1);
            law_slash_needs_slash_or_double_star(p.skip(1), t.skip(i));
            if t.contains('/') {
                let k = t.index_of('/');
                if k < i {
                    assert(t.take(i)[k] == '/');
                } else {
                    assert(t.skip(i)[k - i] == '/');
                }
            }
        } else {
            let n = head_len(p);
            assert(p.contains(p[0]));
            if p[0] == '[' && class_end(p) is Some {
                assert(n <= p.len());
            }
            lemma_tail_has_no_slash(p, n);
            law_slash_needs_slash_or_double_star(p.skip(n), t.skip(1));
            if t.contains('/') {
                let k = t.index_of('/');
                if k > 0 {
                    assert(t.skip(1)[k - 1] == '/');
                }
            }
        }
    }
}

proof fn lemma_tail_has_no_slash(p: Seq<char>, n: int)
    requires
        0 <= n <= p.len(),
        !p.contains('/'),
        !has_double_star(p),
    ensures
        !p.skip(n).contains('/'),
        !has_double_star(p.skip(n)),
{
    let rest = p.skip(n);
    if rest.contains('/') {
        let i = rest.index_of('/');
        assert(p[i + n] == '/');
    }
    if has_double_star(rest) {
        let i = choose|i: int|
            0 <= i < rest.len() - 1 && #[trigger] rest[i] == '*' && rest[i + 1] == '*';
        assert(p[i + n] == '*' && p[(i + n) + 1] == '*');
    }
}

/// `[set]` and `[!set]` part the characters other than `/` between them.
pub proof fn law_negated_class_is_complement(set: Seq<char>, c: char)
    requires
        !set.contains(']'),
        !(set.len() > 0 && set[0] == '!'),
        c != '/',
    ensures
        glob_matches(seq!['['] + set + seq![']'], seq![c]) == in_set(set, c),
        glob_matches(seq!['[', '!'] + set + seq![']'], seq![c]) == !in_set(set, c),
{
    let t = seq![c];
    assert(t.skip(1) =~= Seq::empty());
    let p = seq!['['] + set + seq![']'];
    let q = seq!['[', '!'] + set + seq![']'];
    assert(p.skip(1) =~= set + seq![']']);
    assert(q.skip(2) =~= set + seq![']']);
    assert(text::find_char(set + seq![']'], ']') == set.len()) by {
        let s = set + seq![']'];
        text::lemma_find_char(s, ']');
        let n = text::find_char(s, ']') as int;
        assert(s[set.len() as int] == ']');
        if n < set.len() {
            assert(set[n] == ']');
        }
    }
    assert(class_start(p) == 1);
    assert(class_start(q) == 2);
    assert(p.subrange(1, set.len() as int + 1) =~= set);
    assert(q.subrange(2, set.len() as int + 2) =~= set);
    assert(class_end(p) == Some(set.len() as int + 1));
    assert(class_end(q) == Some(set.len() as int + 2));
    assert(p.skip(head_len(p)) =~= Seq::empty());
    assert(q.skip(head_len(q)) =~= Seq::empty());
    assert(glob_matches(Seq::empty(), t.skip(1)));
    assert(glob_matches(p, t) == head_takes(p, c));
    assert(glob_matches(q, t) == head_takes(q, c));
}

/// Where the file name begins in the relative path `rel`: behind its last `/`.
pub open spec fn name_start(rel: Seq<char>) -> int
    decreases rel.len(),
{
    if rel.len() == 0 {
        0
    } else if rel.last() == '/' {
        rel.len() as int
    } else {
        name_start(rel.drop_last())
    }
}

/// The last name of the relative path `rel`.
pub open spec fn file_name(rel: Seq<char>) -> Seq<char> {
    rel.skip(name_start(rel))
}

proof fn lemma_name_start(rel: Seq<char>)
    ensures
        0 <= name_start(rel) <= rel.len(),
        name_start(rel) > 0 ==> rel[name_start(rel) - 1] == '/',
        forall|k: int| name_start(rel) <= k < rel.len() ==> rel[k] != '/',
    decreases rel.len(),
{
    if rel.len() > 0 && rel.last() != '/' {
        let front = rel.drop_last();
        lemma_name_start(front);
        assert forall|k: int| name_start(rel) <= k < rel.len() implies rel[k] != '/' by {
            if k < front.len() {
                assert(front[k] == rel[k]);
            }
        }
    }
}

/// A glob without a `/` applies to a file wherever it lies: it is held against
/// the file's name alone. (`**` may reach across directories all the same.)
pub proof fn law_bare_glob_is_held_against_the_name(glob: Seq<char>, rel: Seq<char>)
    requires
        !glob.contains('/'),
    ensures
        some_expansion_matches(glob, file_name(rel)) ==> section_applies(glob, rel),
        (forall|i: int|
            0 <= i < braces::expansions(glob).len() ==> !has_double_star(
                #[trigger] braces::expansions(glob)[i],
            )) ==> (section_applies(glob, rel) <==> some_expansion_matches(glob, file_name(rel))),
{
    let prefix = seq!['*', '*', '/'];
    let plain = braces::expansions(glob);
    let whole = braces::expansions(anchored(glob));
    let start = name_start(rel);
    lemma_name_start(rel);
    assert(!prefix.contains('{'));
    braces::law_prefix_is_kept(prefix, glob);
    assert(whole == braces::with_prefix(prefix, plain));
    if some_expansion_matches(glob, file_name(rel)) {
        let i = choose|i: int|
            0 <= i < plain.len() && glob_matches(#[trigger] plain[i], file_name(rel));
        law_double_star_slash(plain[i], rel);
        if start > 0 {
            assert(rel[start - 1] == '/' && glob_matches(plain[i], rel.skip((start - 1) + 1)));
        } else {
            assert(rel.skip(0) =~= rel);
        }
        assert(whole[i] == prefix + plain[i]);
        assert(glob_matches(whole[i], rel));
    }
    if section_applies(glob, rel) && (forall|i: int|
        0 <= i < plain.len() ==> !has_double_star(#[trigger] plain[i])) {
        let i = choose|i: int| 0 <= i < whole.len() && glob_matches(#[trigger] whole[i], rel);
        assert(whole[i] == prefix + plain[i]);
        law_double_star_slash(plain[i], rel);
        assert(!plain[i].contains('/')) by {
            braces::law_expansions_add_nothing(glob, '/');
        }
        let k = if glob_matches(plain[i], rel) {
            0
        } else {
            (choose|k: int|
                0 <= k < rel.len() && #[trigger] rel[k] == '/' && glob_matches(
                    plain[i],
                    rel.skip(k + 1),
                )) + 1
        };
        assert(rel.skip(0) =~= rel);
        assert(glob_matches(plain[i], rel.skip(k)));
        law_slash_needs_slash_or_double_star(plain[i], rel.skip(k));
        if k < start {
            assert(rel.skip(k)[start - 1 - k] == '/');
        }
        assert(k == start);
    }
}

/// A glob that holds a `/` is relative to the directory of its file, and a
/// leading `/` says no more than that.
pub proof fn law_leading_slash_only_anchors(glob: Seq<char>, rel: Seq<char>)
    ensures
        section_applies(seq!['/'] + glob, rel) <==> some_expansion_matches(glob, rel),
        glob.contains('/') && glob[0] != '/' ==> (section_applies(glob, rel) <==> section_applies(
            seq!['/'] + glob,
            rel,
        )),
{
    assert((seq!['/'] + glob).skip(1) =~= glob);
}

} // verus!
