//! Brace alternatives: `*.{js,ts}` stands for `*.js` and `*.ts`.

use vstd::prelude::*;
use crate::text;

verus! {

/// How `c` changes the nesting depth.
pub open spec fn nesting(c: char) -> int {
    if c == '{' {
        1
    } else if c == '}' {
        -1
    } else {
        0
    }
}

/// Number of opening braces in `s` less the number of closing ones.
pub open spec fn depth(s: Seq<char>) -> int
    decreases s.len(),
{
    if s.len() == 0 {
        0
    } else {
        depth(s.drop_last()) + nesting(s.last())
    }
}

/// Whether the brace that opens at `open` is closed by the one at `close`.
pub open spec fn closes(s: Seq<char>, open: int, close: int) -> bool {
    &&& 0 <= open < close < s.len()
    &&& depth(s.subrange(open, close + 1)) == 0
    &&& forall|k: int| open <= k < close ==> depth(#[trigger] s.subrange(open, k + 1)) > 0
}

/// Where the brace that opens at `open` is closed.
pub open spec fn closing_brace(s: Seq<char>, open: int) -> Option<int> {
    if exists|k: int| closes(s, open, k) {
        Some(choose|k: int| closes(s, open, k))
    } else {
        None
    }
}

/// `parts` with `head` put before the first of them.
pub open spec fn prepend(head: Seq<char>, parts: Seq<Seq<char>>) -> Seq<Seq<char>> {
    seq![head + parts[0]] + parts.drop_first()
}

/// The parts of `body` between its commas outside any braces, where `body`
/// begins inside `level` open ones.
pub open spec fn split_alternatives(body: Seq<char>, level: int) -> Seq<Seq<char>>
    decreases body.len(),
{
    if body.len() == 0 {
        seq![Seq::empty()]
    } else {
        let parts = split_alternatives(body.drop_first(), level + nesting(body[0]));
        if body[0] == ',' && level == 0 {
            seq![Seq::empty()] + parts
        } else {
            prepend(seq![body[0]], parts)
        }
    }
}

/// `s` with the braces at `open` and `close`, and what they enclose, replaced
/// by each alternative in turn.
pub open spec fn alternatives(s: Seq<char>, open: int, close: int) -> Seq<Seq<char>> {
    split_alternatives(s.subrange(open + 1, close), 0).map_values(
        |part: Seq<char>| s.take(open) + part + s.skip(close + 1),
    )
}

/// The concrete patterns that `s` stands for. Its first brace pair is replaced
/// by each of its alternatives, and the outcome is expanded again; where the
/// first brace is never closed, `s` stands for itself.
pub open spec fn expansions(s: Seq<char>) -> Seq<Seq<char>>
    decreases s.len(), 1int, 0nat,
{
    let open = text::find_char(s, '{') as int;
    match closing_brace(s, open) {
        None => seq![s],
        Some(close) => all_expansions(alternatives(s, open, close), s.len()),
    }
}

/// The expansions of each of `patterns` in turn, all of them shorter than
/// `bound`.
pub open spec fn all_expansions(patterns: Seq<Seq<char>>, bound: nat) -> Seq<Seq<char>>
    decreases bound, 0int, patterns.len(),
    when forall|i: int| 0 <= i < patterns.len() ==> (#[trigger] patterns[i]).len() < bound
{
    if patterns.len() == 0 {
        Seq::empty()
    } else {
        expansions(patterns[0]) + all_expansions(patterns.drop_first(), bound)
    }
}

/// A brace is closed in one place only.
proof fn lemma_closes_unique(s: Seq<char>, open: int, a: int, b: int)
    requires
        closes(s, open, a),
        closes(s, open, b),
    ensures
        a == b,
{
    if a < b {
        assert(depth(s.subrange(open, a + 1)) > 0);
    } else if b < a {
        assert(depth(s.subrange(open, b + 1)) > 0);
    }
}

/// There is at least one part, and none is longer than the whole.
proof fn lemma_split_lengths(body: Seq<char>, level: int)
    ensures
        split_alternatives(body, level).len() > 0,
        forall|i: int|
            0 <= i < split_alternatives(body, level).len() ==> (#[trigger] split_alternatives(
                body,
                level,
            )[i]).len() <= body.len(),
    decreases body.len(),
{
    if body.len() > 0 {
        let next = level + nesting(body[0]);
        let parts = split_alternatives(body.drop_first(), next);
        lemma_split_lengths(body.drop_first(), next);
        let all = split_alternatives(body, level);
        assert forall|i: int| 0 <= i < all.len() implies (#[trigger] all[i]).len() <= body.len() by {
            if body[0] == ',' && level == 0 {
                if i > 0 {
                    assert(all[i] == parts[i - 1]);
                }
            } else if i > 0 {
                assert(all[i] == parts[i]);
            } else {
                assert(all[0] == seq![body[0]] + parts[0]);
            }
        }
    }
}

/// Every alternative is shorter than the pattern it comes from.
proof fn lemma_alternatives_shorter(s: Seq<char>, open: int, close: int)
    requires
        0 <= open < close < s.len(),
    ensures
        alternatives(s, open, close).len() > 0,
        forall|i: int|
            0 <= i < alternatives(s, open, close).len() ==> (#[trigger] alternatives(
                s,
                open,
                close,
            )[i]).len() < s.len(),
{
    let body = s.subrange(open + 1, close);
    let parts = split_alternatives(body, 0);
    lemma_split_lengths(body, 0);
    assert forall|i: int| 0 <= i < alternatives(s, open, close).len() implies (
    #[trigger] alternatives(s, open, close)[i]).len() < s.len() by {
        assert(parts[i].len() <= body.len());
    }
}

/// Where the brace that opens at `open` is closed, if it is.
fn find_close(s: &[char], open: usize) -> (r: Option<usize>)
    requires
        open < s@.len(),
        s@[open as int] == '{',
    ensures
        r is Some <==> closing_brace(s@, open as int) is Some,
        r is Some ==> r->0 == closing_brace(s@, open as int)->0 && closes(
            s@,
            open as int,
            r->0 as int,
        ),
{
    let mut level: usize = 0;
    let mut i: usize = open;
    while i < s.len()
        invariant
            open <= i <= s@.len(),
            open < s@.len(),
            s@[open as int] == '{',
            level == depth(s@.subrange(open as int, i as int)),
            level <= i - open,
            i > open ==> level > 0,
            forall|k: int|
                open <= k < i ==> depth(#[trigger] s@.subrange(open as int, k + 1)) > 0,
        decreases s.len() - i,
    {
        let c = s[i];
        assert(s@.subrange(open as int, i + 1).drop_last() =~= s@.subrange(open as int, i as int));
        if c == '{' {
            level = level + 1;
        } else if c == '}' {
            level = level - 1;
            if level == 0 {
                proof {
                    assert(closes(s@, open as int, i as int));
                    let k = choose|k: int| closes(s@, open as int, k);
                    lemma_closes_unique(s@, open as int, i as int, k);
                }
                return Some(i);
            }
        }
        i = i + 1;
    }
    proof {
        assert forall|k: int| !closes(s@, open as int, k) by {
            if open < k < s@.len() {
                assert(depth(s@.subrange(open as int, k + 1)) > 0);
            }
        }
    }
    None
}

/// Depth is counted from either end.
proof fn lemma_depth_split(a: Seq<char>, b: Seq<char>)
    ensures
        depth(a + b) == depth(a) + depth(b),
    decreases b.len(),
{
    if b.len() == 0 {
        assert(a + b =~= a);
    } else {
        lemma_depth_split(a, b.drop_last());
        assert((a + b).drop_last() =~= a + b.drop_last());
    }
}

/// What a brace pair encloses never closes more braces than it has opened.
proof fn lemma_body_balanced(s: Seq<char>, open: int, close: int)
    requires
        closes(s, open, close),
        s[open] == '{',
    ensures
        forall|k: int|
            0 <= k <= close - open - 1 ==> depth(
                #[trigger] s.subrange(open + 1, close).take(k),
            ) >= 0,
{
    let body = s.subrange(open + 1, close);
    assert forall|k: int| 0 <= k <= close - open - 1 implies depth(#[trigger] body.take(k)) >= 0 by {
        let upto = s.subrange(open, open + k + 1);
        assert(depth(upto) > 0);
        assert(upto =~= seq!['{'] + body.take(k));
        lemma_depth_split(seq!['{'], body.take(k));
        assert(seq!['{'].drop_last() =~= Seq::<char>::empty());
        assert(depth(seq!['{'].drop_last()) == 0);
    }
}

/// Putting two strings before the first part is putting their concatenation.
proof fn lemma_prepend_twice(a: Seq<char>, b: Seq<char>, parts: Seq<Seq<char>>)
    requires
        parts.len() > 0,
    ensures
        prepend(a, prepend(b, parts)) == prepend(a + b, parts),
{
    assert(a + (b + parts[0]) =~= (a + b) + parts[0]);
    assert(prepend(a, prepend(b, parts)) =~= prepend(a + b, parts));
}

/// The parts of `body` between its commas outside any braces.
fn split_parts(body: &str) -> (r: Vec<&str>)
    requires
        forall|k: int| 0 <= k <= body@.len() ==> depth(#[trigger] body@.take(k)) >= 0,
    ensures
        r.deep_view() == split_alternatives(body@, 0),
{
    let chars = text::char_vec(body);
    let mut r: Vec<&str> = Vec::new();
    let mut rest: &str = body;
    let mut start: usize = 0;
    let mut level: usize = 0;
    let mut i: usize = 0;
    let ghost all = split_alternatives(body@, 0);
    proof {
        assert(body@.skip(0) =~= body@);
        lemma_split_lengths(body@, 0);
        assert(body@.subrange(0, 0) + all[0] =~= all[0]);
        assert(prepend(body@.subrange(0, 0), all) =~= all);
        assert(r.deep_view() + all =~= all);
    }
    while i < chars.len()
        invariant
            chars@ == body@,
            start <= i <= body@.len(),
            rest@ == body@.skip(start as int),
            level == depth(body@.take(i as int)),
            level <= i,
            forall|k: int| 0 <= k <= body@.len() ==> depth(#[trigger] body@.take(k)) >= 0,
            r.deep_view() + prepend(
                body@.subrange(start as int, i as int),
                split_alternatives(body@.skip(i as int), level as int),
            ) == all,
        decreases chars.len() - i,
    {
        let c = chars[i];
        let ghost cur = body@.subrange(start as int, i as int);
        let ghost before = r.deep_view();
        let ghost tail = body@.skip(i as int);
        let ghost next = split_alternatives(body@.skip(i + 1), level + nesting(c));
        proof {
            assert(tail.drop_first() =~= body@.skip(i + 1));
            assert(body@.take(i + 1).drop_last() =~= body@.take(i as int));
            lemma_split_lengths(body@.skip(i + 1), level + nesting(c));
        }
        if c == ',' && level == 0 {
            let (part, after) = text::split_at_char(rest, i - start);
            r.push(part);
            rest = text::split_at_char(after, 1).1;
            start = i + 1;
            proof {
                assert(part@ =~= cur);
                assert(rest@ =~= body@.skip(start as int));
                assert(r.deep_view() =~= before + seq![cur]);
                assert(body@.subrange(i + 1, i + 1) + next[0] =~= next[0]);
                assert(prepend(body@.subrange(i + 1, i + 1), next) =~= next);
                assert(cur + Seq::<char>::empty() =~= cur);
                assert(prepend(cur, seq![Seq::<char>::empty()] + next) =~= seq![cur] + next);
                assert(r.deep_view() + next =~= before + (seq![cur] + next));
            }
        } else {
            if c == '{' {
                level = level + 1;
            } else if c == '}' {
                assert(depth(body@.take(i + 1)) >= 0);
                level = level - 1;
            }
            proof {
                lemma_prepend_twice(cur, seq![c], next);
                assert(cur + seq![c] =~= body@.subrange(start as int, i + 1));
            }
        }
        i = i + 1;
    }
    r.push(rest);
    proof {
        let cur = body@.subrange(start as int, i as int);
        assert(rest@ =~= cur);
        assert(cur + Seq::<char>::empty() =~= cur);
        assert(prepend(cur, seq![Seq::<char>::empty()]) =~= seq![cur]);
    }
    r
}

/// Expands the brace alternatives of `pattern` into concrete patterns, nested
/// ones included.
pub fn expand_braces(pattern: &str) -> (r: Vec<String>)
    ensures
        r.deep_view() == expansions(pattern@),
    decreases pattern@.len(),
{
    let chars = text::char_vec(pattern);
    let open: usize = text::find(chars.as_slice(), '{');
    let mut r: Vec<String> = Vec::new();
    let close: Option<usize> = if open < chars.len() {
        proof {
            text::lemma_find_char(pattern@, '{');
        }
        find_close(chars.as_slice(), open)
    } else {
        None
    };
    match close {
        None => {
            r.push(pattern.to_owned());
            assert(r.deep_view() =~= seq![pattern@]);
            r
        },
        Some(close) => {
            let (prefix, from_open) = text::split_at_char(pattern, open);
            let inner = text::split_at_char(from_open, 1).1;
            let (body, from_close) = text::split_at_char(inner, close - open - 1);
            let suffix = text::split_at_char(from_close, 1).1;
            let ghost alts = alternatives(pattern@, open as int, close as int);
            let ghost bound = pattern@.len();
            proof {
                assert(body@ =~= pattern@.subrange(open + 1, close as int));
                assert(suffix@ =~= pattern@.skip(close + 1));
                lemma_alternatives_shorter(pattern@, open as int, close as int);
                lemma_body_balanced(pattern@, open as int, close as int);
            }
            let parts = split_parts(body);
            let mut i: usize = 0;
            proof {
                assert(alts.skip(0) =~= alts);
                assert(r.deep_view() + all_expansions(alts, bound) =~= all_expansions(
                    alts,
                    bound,
                ));
            }
            while i < parts.len()
                invariant
                    i <= parts@.len(),
                    prefix@ == pattern@.take(open as int),
                    suffix@ == pattern@.skip(close + 1),
                    parts.deep_view() == split_alternatives(
                        pattern@.subrange(open + 1, close as int),
                        0,
                    ),
                    alts == alternatives(pattern@, open as int, close as int),
                    alts.len() == parts@.len(),
                    bound == pattern@.len(),
                    forall|k: int| 0 <= k < alts.len() ==> (#[trigger] alts[k]).len() < bound,
                    r.deep_view() + all_expansions(alts.skip(i as int), bound) == all_expansions(
                        alts,
                        bound,
                    ),
                decreases parts.len() - i,
            {
                let mut whole: String = prefix.to_owned();
                whole.append(parts[i]);
                whole.append(suffix);
                assert(whole@ == alts[i as int]) by {
                    assert(parts.deep_view()[i as int] == parts@[i as int]@);
                }
                let mut expanded = expand_braces(whole.as_str());
                let ghost before = r.deep_view();
                let ghost added = expanded.deep_view();
                r.append(&mut expanded);
                proof {
                    let rest = alts.skip(i as int);
                    assert(rest.drop_first() =~= alts.skip(i + 1));
                    assert forall|k: int| 0 <= k < rest.len() implies (#[trigger] rest[k]).len()
                        < bound by {
                        assert(rest[k] == alts[i + k]);
                    }
                    assert(r.deep_view() =~= before + added);
                    assert(before + (added + all_expansions(rest.drop_first(), bound)) =~= (before
                        + added) + all_expansions(rest.drop_first(), bound));
                }
                i = i + 1;
            }
            proof {
                assert(alts.skip(i as int) =~= Seq::empty());
                assert(all_expansions(alts.skip(i as int), bound) =~= Seq::empty());
                assert(r.deep_view() + Seq::empty() =~= r.deep_view());
            }
            r
        },
    }
}

/// A pattern without an opening brace stands for itself.
pub proof fn law_plain_pattern_stands_for_itself(s: Seq<char>)
    requires
        !s.contains('{'),
    ensures
        expansions(s) == seq![s],
{
    text::lemma_find_char(s, '{');
    assert(forall|k: int| !closes(s, s.len() as int, k));
}

/// `p` has no brace pair left to expand: its first brace is never closed.
pub open spec fn is_concrete(p: Seq<char>) -> bool {
    closing_brace(p, text::find_char(p, '{') as int) is None
}

/// Every pattern stands for at least one, and none of those has a brace pair
/// left to expand, however deeply the pairs were nested.
pub proof fn law_expansions_are_concrete(s: Seq<char>)
    ensures
        expansions(s).len() > 0,
        forall|i: int| 0 <= i < expansions(s).len() ==> is_concrete(#[trigger] expansions(s)[i]),
    decreases s.len(), 1int, 0nat,
{
    let open = text::find_char(s, '{') as int;
    if let Some(close) = closing_brace(s, open) {
        lemma_alternatives_shorter(s, open, close);
        lemma_all_expansions_concrete(alternatives(s, open, close), s.len());
    }
}

proof fn lemma_all_expansions_concrete(patterns: Seq<Seq<char>>, bound: nat)
    requires
        forall|i: int| 0 <= i < patterns.len() ==> (#[trigger] patterns[i]).len() < bound,
    ensures
        patterns.len() > 0 ==> all_expansions(patterns, bound).len() > 0,
        forall|i: int|
            0 <= i < all_expansions(patterns, bound).len() ==> is_concrete(
                #[trigger] all_expansions(patterns, bound)[i],
            ),
    decreases bound, 0int, patterns.len(),
{
    if patterns.len() > 0 {
        let first = expansions(patterns[0]);
        let rest = all_expansions(patterns.drop_first(), bound);
        law_expansions_are_concrete(patterns[0]);
        lemma_all_expansions_concrete(patterns.drop_first(), bound);
        let all = all_expansions(patterns, bound);
        assert(all == first + rest);
        assert forall|i: int| 0 <= i < all.len() implies is_concrete(#[trigger] all[i]) by {
            if i < first.len() {
                assert(all[i] == first[i]);
            } else {
                assert(all[i] == rest[i - first.len()]);
            }
        }
    }
}

/// `parts` with commas between them.
pub open spec fn comma_joined(parts: Seq<Seq<char>>) -> Seq<char>
    decreases parts.len(),
{
    if parts.len() == 0 {
        Seq::empty()
    } else if parts.len() == 1 {
        parts[0]
    } else {
        parts[0] + seq![','] + comma_joined(parts.drop_first())
    }
}

/// Splitting loses nothing: the parts with commas between them are the whole.
pub proof fn law_alternatives_rejoin(body: Seq<char>, level: int)
    ensures
        comma_joined(split_alternatives(body, level)) == body,
    decreases body.len(),
{
    if body.len() == 0 {
        assert(comma_joined(split_alternatives(body, level)) =~= body);
    } else {
        let tail = body.drop_first();
        let next = level + nesting(body[0]);
        let parts = split_alternatives(tail, next);
        let all = split_alternatives(body, level);
        law_alternatives_rejoin(tail, next);
        lemma_split_lengths(tail, next);
        assert(body =~= seq![body[0]] + tail);
        if body[0] == ',' && level == 0 {
            assert(all.drop_first() =~= parts);
            assert(comma_joined(all) =~= body);
        } else {
            assert(all.drop_first() =~= parts.drop_first());
            if parts.len() > 1 {
                assert(comma_joined(all) =~= seq![body[0]] + comma_joined(parts));
            }
        }
    }
}

/// Whether `s`, begun inside `level` open braces, closes just those: never more
/// than are open, and all of them in the end.
pub open spec fn closes_levels(s: Seq<char>, level: int) -> bool {
    &&& level + depth(s) == 0
    &&& forall|k: int| 0 <= k <= s.len() ==> level + depth(#[trigger] s.take(k)) >= 0
}

/// Whether every brace in `s` has its partner in `s`.
pub open spec fn is_balanced(s: Seq<char>) -> bool {
    closes_levels(s, 0)
}

/// Whether every comma in `s` stands inside braces of `s`.
pub open spec fn commas_enclosed(s: Seq<char>) -> bool {
    forall|k: int| 0 <= k < s.len() && s[k] == ',' ==> depth(#[trigger] s.take(k)) != 0
}

/// The depth of a prefix, counted from the second character.
proof fn lemma_depth_step(s: Seq<char>, k: int)
    requires
        0 <= k < s.len(),
    ensures
        depth(s.take(k + 1)) == nesting(s[0]) + depth(s.drop_first().take(k)),
{
    assert(s.take(k + 1) =~= seq![s[0]] + s.drop_first().take(k));
    lemma_depth_split(seq![s[0]], s.drop_first().take(k));
    assert(seq![s[0]].drop_last() =~= Seq::<char>::empty());
    assert(depth(seq![s[0]].drop_last()) == 0);
}

/// A stretch without a comma of its own stays in one part.
proof fn lemma_split_behind(head: Seq<char>, rest: Seq<char>, level: int)
    requires
        forall|k: int|
            0 <= k < head.len() && head[k] == ',' ==> level + depth(#[trigger] head.take(k)) != 0,
    ensures
        split_alternatives(head + rest, level) == prepend(
            head,
            split_alternatives(rest, level + depth(head)),
        ),
    decreases head.len(),
{
    let inner = split_alternatives(rest, level + depth(head));
    lemma_split_lengths(rest, level + depth(head));
    if head.len() == 0 {
        assert(head + rest =~= rest);
        assert(head + inner[0] =~= inner[0]);
        assert(prepend(head, inner) =~= inner);
    } else {
        let tail = head.drop_first();
        let next = level + nesting(head[0]);
        assert forall|k: int| 0 <= k < tail.len() && tail[k] == ',' implies next + depth(
            #[trigger] tail.take(k),
        ) != 0 by {
            lemma_depth_step(head, k);
            assert(head[k + 1] == ',');
            assert(level + depth(head.take(k + 1)) != 0);
        }
        lemma_depth_step(head, head.len() - 1);
        assert(head.take(head.len() as int) =~= head);
        assert(tail.take(tail.len() as int) =~= tail);
        lemma_split_behind(tail, rest, next);
        assert((head + rest).drop_first() =~= tail + rest);
        assert(head[0] == ',' ==> level != 0) by {
            assert(depth(head.take(0)) == 0);
        }
        lemma_prepend_twice(seq![head[0]], tail, inner);
        assert(seq![head[0]] + tail =~= head);
    }
}

/// Splitting recovers parts whose braces are balanced and whose commas stand
/// inside them.
pub proof fn law_balanced_parts_split(parts: Seq<Seq<char>>)
    requires
        parts.len() > 0,
        forall|i: int|
            0 <= i < parts.len() ==> is_balanced(#[trigger] parts[i]) && commas_enclosed(parts[i]),
    ensures
        split_alternatives(comma_joined(parts), 0) == parts,
    decreases parts.len(),
{
    let first = parts[0];
    let others = parts.drop_first();
    assert(is_balanced(first) && commas_enclosed(first));
    if parts.len() == 1 {
        lemma_split_behind(first, Seq::empty(), 0);
        assert(first + Seq::<char>::empty() =~= first);
        assert(prepend(first, seq![Seq::<char>::empty()]) =~= parts);
    } else {
        assert forall|i: int| 0 <= i < others.len() implies is_balanced(#[trigger] others[i])
            && commas_enclosed(others[i]) by {
            assert(others[i] == parts[i + 1]);
        }
        law_balanced_parts_split(others);
        let rest = seq![','] + comma_joined(others);
        lemma_split_behind(first, rest, 0);
        assert(rest.drop_first() =~= comma_joined(others));
        assert(comma_joined(parts) =~= first + rest);
        assert(first + Seq::<char>::empty() =~= first);
        assert(prepend(first, seq![Seq::<char>::empty()] + others) =~= parts);
    }
}

/// What closes the open braces, and then a balanced stretch, closes them too.
proof fn lemma_closes_levels_concat(a: Seq<char>, b: Seq<char>, level: int)
    requires
        closes_levels(a, level),
        is_balanced(b),
    ensures
        closes_levels(a + b, level),
{
    let whole = a + b;
    lemma_depth_split(a, b);
    assert forall|k: int| 0 <= k <= whole.len() implies level + depth(#[trigger] whole.take(k))
        >= 0 by {
        if k <= a.len() {
            assert(whole.take(k) =~= a.take(k));
        } else {
            assert(whole.take(k) =~= a + b.take(k - a.len()));
            lemma_depth_split(a, b.take(k - a.len()));
        }
    }
}

/// One character put before what closes the braces it leaves open.
proof fn lemma_closes_levels_cons(c: char, s: Seq<char>, level: int)
    requires
        level >= 0,
        closes_levels(s, level + nesting(c)),
    ensures
        closes_levels(seq![c] + s, level),
{
    let whole = seq![c] + s;
    assert(whole.drop_first() =~= s);
    assert(whole.take(whole.len() as int) =~= whole);
    assert(s.take(s.len() as int) =~= s);
    lemma_depth_step(whole, s.len() as int);
    assert forall|k: int| 0 <= k <= whole.len() implies level + depth(#[trigger] whole.take(k))
        >= 0 by {
        if k > 0 {
            lemma_depth_step(whole, k - 1);
            assert(level + nesting(c) + depth(s.take(k - 1)) >= 0);
        }
    }
}

/// Balanced parts with commas between them are balanced.
proof fn lemma_joined_balanced(parts: Seq<Seq<char>>)
    requires
        forall|i: int| 0 <= i < parts.len() ==> is_balanced(#[trigger] parts[i]),
    ensures
        is_balanced(comma_joined(parts)),
    decreases parts.len(),
{
    if parts.len() > 1 {
        let others = parts.drop_first();
        assert forall|i: int| 0 <= i < others.len() implies is_balanced(#[trigger] others[i]) by {
            assert(others[i] == parts[i + 1]);
        }
        lemma_joined_balanced(others);
        lemma_closes_levels_cons(',', comma_joined(others), 0);
        assert(is_balanced(parts[0]));
        lemma_closes_levels_concat(parts[0], seq![','] + comma_joined(others), 0);
        assert(parts[0] + (seq![','] + comma_joined(others)) =~= comma_joined(parts));
    } else if parts.len() == 1 {
        assert(is_balanced(parts[0]));
    }
}

/// Expanding patterns in turn is putting their expansions one behind another.
proof fn lemma_all_expansions_flatten(patterns: Seq<Seq<char>>, bound: nat)
    requires
        forall|i: int| 0 <= i < patterns.len() ==> (#[trigger] patterns[i]).len() < bound,
    ensures
        all_expansions(patterns, bound) == patterns.map_values(
            |p: Seq<char>| expansions(p),
        ).flatten(),
    decreases patterns.len(),
{
    let each = patterns.map_values(|p: Seq<char>| expansions(p));
    if patterns.len() > 0 {
        let others = patterns.drop_first();
        lemma_all_expansions_flatten(others, bound);
        assert(each.drop_first() =~= others.map_values(|p: Seq<char>| expansions(p)));
        assert(each.first() == expansions(patterns[0]));
    }
}

/// `prefix{a,b,..}suffix` stands for what `prefix a suffix`, `prefix b suffix`
/// and so on stand for, in that order. The alternatives may hold braces of
/// their own, and commas inside those.
pub proof fn law_alternatives_expand(
    prefix: Seq<char>,
    parts: Seq<Seq<char>>,
    suffix: Seq<char>,
)
    requires
        !prefix.contains('{'),
        parts.len() > 0,
        forall|i: int|
            0 <= i < parts.len() ==> is_balanced(#[trigger] parts[i]) && commas_enclosed(parts[i]),
    ensures
        ({
            let pattern = prefix + seq!['{'] + comma_joined(parts) + seq!['}'] + suffix;
            let each = |part: Seq<char>| expansions(prefix + part + suffix);
            expansions(pattern) == parts.map_values(each).flatten()
        }),
{
    let body = comma_joined(parts);
    let pattern = prefix + seq!['{'] + body + seq!['}'] + suffix;
    let open = prefix.len() as int;
    let close = open + body.len() + 1;
    lemma_joined_balanced(parts);
    assert(body.take(body.len() as int) =~= body);
    assert(text::find_char(pattern, '{') == open) by {
        text::lemma_find_char(pattern, '{');
        let n = text::find_char(pattern, '{') as int;
        assert(pattern[open] == '{');
        if n < open {
            assert(prefix[n] == '{');
        }
    }
    assert(seq!['{'].drop_last() =~= Seq::<char>::empty());
    assert(depth(seq!['{']) == 1) by {
        assert(depth(seq!['{'].drop_last()) == 0);
    }
    assert forall|k: int| open <= k < close implies depth(#[trigger] pattern.subrange(open, k + 1))
        > 0 by {
        assert(pattern.subrange(open, k + 1) =~= seq!['{'] + body.take(k - open));
        lemma_depth_split(seq!['{'], body.take(k - open));
    }
    assert(depth(pattern.subrange(open, close + 1)) == 0) by {
        let whole = pattern.subrange(open, close + 1);
        assert(whole.drop_last() =~= seq!['{'] + body.take(body.len() as int));
        lemma_depth_split(seq!['{'], body.take(body.len() as int));
    }
    assert(closes(pattern, open, close));
    let k = choose|k: int| closes(pattern, open, k);
    lemma_closes_unique(pattern, open, close, k);
    law_balanced_parts_split(parts);
    assert(pattern.subrange(open + 1, close) =~= body);
    assert(pattern.take(open) =~= prefix);
    assert(pattern.skip(close + 1) =~= suffix);
    let alts = alternatives(pattern, open, close);
    assert(closing_brace(pattern, open) == Some(close));
    lemma_alternatives_shorter(pattern, open, close);
    assert(text::find_char(pattern, '{') as int == open);
    assert(closing_brace(pattern, text::find_char(pattern, '{') as int) == Some(close));
    assert(expansions(pattern) == all_expansions(alts, pattern.len()));
    lemma_all_expansions_flatten(alts, pattern.len());
    assert(alts.map_values(|p: Seq<char>| expansions(p)) =~= parts.map_values(
        |part: Seq<char>| expansions(prefix + part + suffix),
    ));
}

/// `patterns` with `prefix` put before each of them.
pub open spec fn with_prefix(prefix: Seq<char>, patterns: Seq<Seq<char>>) -> Seq<Seq<char>> {
    patterns.map_values(|p: Seq<char>| prefix + p)
}

/// What stands before the first brace stands before every expansion.
pub proof fn law_prefix_is_kept(prefix: Seq<char>, s: Seq<char>)
    requires
        !prefix.contains('{'),
    ensures
        expansions(prefix + s) == with_prefix(prefix, expansions(s)),
    decreases s.len(), 1int, 0nat,
{
    let whole = prefix + s;
    let shift = prefix.len() as int;
    let open = text::find_char(s, '{') as int;
    text::lemma_find_char(s, '{');
    assert(text::find_char(whole, '{') == shift + open) by {
        text::lemma_find_char(whole, '{');
        let n = text::find_char(whole, '{') as int;
        if n < shift {
            assert(prefix[n] == '{');
        } else if n < shift + open {
            assert(s[n - shift] == '{');
        } else if n > shift + open {
            assert(whole[shift + open] == s[open]);
        }
    }
    let at = shift + open;
    assert forall|k: int| closes(whole, at, shift + k) == #[trigger] closes(s, open, k) by {
        lemma_closes_shifted(prefix, s, open, k);
    }
    if exists|k: int| closes(s, open, k) {
        let close = closing_brace(s, open)->0;
        assert(closes(s, open, close));
        assert(closes(whole, shift + open, shift + close));
        let c = closing_brace(whole, shift + open)->0;
        lemma_closes_unique(whole, shift + open, shift + close, c);
        let alts = alternatives(s, open, close);
        let longer = alternatives(whole, shift + open, c);
        assert(whole.subrange(shift + open + 1, c) =~= s.subrange(open + 1, close));
        assert forall|i: int| 0 <= i < alts.len() implies #[trigger] longer[i] == prefix + alts[i] by {
            assert(longer[i] =~= prefix + alts[i]);
        }
        assert(longer =~= with_prefix(prefix, alts));
        lemma_alternatives_shorter(s, open, close);
        lemma_prefix_kept_all(prefix, alts, s.len(), whole.len());
    } else {
        assert forall|k: int| !closes(whole, at, k) by {
            assert(closes(whole, at, shift + (k - shift)) == closes(s, open, k - shift));
        }
        assert(seq![whole] =~= with_prefix(prefix, seq![s]));
    }
}

/// A brace pair is one wherever it stands.
proof fn lemma_closes_shifted(prefix: Seq<char>, s: Seq<char>, open: int, k: int)
    requires
        0 <= open,
    ensures
        closes(prefix + s, prefix.len() + open, prefix.len() + k) == closes(s, open, k),
{
    let whole = prefix + s;
    let shift = prefix.len() as int;
    if open < k < s.len() {
        assert(whole.subrange(shift + open, shift + k + 1) =~= s.subrange(open, k + 1));
        if closes(s, open, k) {
            assert forall|j: int| shift + open <= j < shift + k implies depth(
                #[trigger] whole.subrange(shift + open, j + 1),
            ) > 0 by {
                assert(whole.subrange(shift + open, j + 1) =~= s.subrange(open, j - shift + 1));
                assert(depth(s.subrange(open, (j - shift) + 1)) > 0);
            }
        }
        if closes(whole, shift + open, shift + k) {
            assert forall|j: int| open <= j < k implies depth(#[trigger] s.subrange(open, j + 1))
                > 0 by {
                assert(whole.subrange(shift + open, (shift + j) + 1) =~= s.subrange(open, j + 1));
                assert(depth(whole.subrange(shift + open, (shift + j) + 1)) > 0);
            }
        }
    }
}

proof fn lemma_prefix_kept_all(
    prefix: Seq<char>,
    patterns: Seq<Seq<char>>,
    bound: nat,
    longer_bound: nat,
)
    requires
        !prefix.contains('{'),
        longer_bound == prefix.len() + bound,
        forall|i: int| 0 <= i < patterns.len() ==> (#[trigger] patterns[i]).len() < bound,
    ensures
        all_expansions(with_prefix(prefix, patterns), longer_bound) == with_prefix(
            prefix,
            all_expansions(patterns, bound),
        ),
    decreases bound, 0int, patterns.len(),
{
    let longer = with_prefix(prefix, patterns);
    assert forall|i: int| 0 <= i < longer.len() implies (#[trigger] longer[i]).len()
        < longer_bound by {
        assert(longer[i] == prefix + patterns[i]);
    }
    if patterns.len() > 0 {
        law_prefix_is_kept(prefix, patterns[0]);
        lemma_prefix_kept_all(prefix, patterns.drop_first(), bound, longer_bound);
        assert(longer.drop_first() =~= with_prefix(prefix, patterns.drop_first()));
        assert(with_prefix(
            prefix,
            expansions(patterns[0]) + all_expansions(patterns.drop_first(), bound),
        ) =~= with_prefix(prefix, expansions(patterns[0])) + with_prefix(
            prefix,
            all_expansions(patterns.drop_first(), bound),
        ));
    } else {
        assert(all_expansions(longer, longer_bound) =~= with_prefix(
            prefix,
            all_expansions(patterns, bound),
        ));
    }
}

/// Each of `heads` before each of `tails`, in order.
pub open spec fn products(heads: Seq<Seq<char>>, tails: Seq<Seq<char>>) -> Seq<Seq<char>>
    decreases heads.len(),
{
    if heads.len() == 0 {
        Seq::empty()
    } else {
        with_prefix(heads[0], tails) + products(heads.drop_first(), tails)
    }
}

proof fn lemma_products_concat(a: Seq<Seq<char>>, b: Seq<Seq<char>>, tails: Seq<Seq<char>>)
    ensures
        products(a + b, tails) == products(a, tails) + products(b, tails),
    decreases a.len(),
{
    if a.len() == 0 {
        assert(a + b =~= b);
        assert(products(a, tails) + products(b, tails) =~= products(b, tails));
    } else {
        lemma_products_concat(a.drop_first(), b, tails);
        assert((a + b).drop_first() =~= a.drop_first() + b);
        assert(products(a + b, tails) =~= products(a, tails) + products(b, tails));
    }
}

/// Without opening braces the depth only falls.
proof fn lemma_depth_without_opening(s: Seq<char>)
    requires
        !s.contains('{'),
    ensures
        depth(s) <= 0,
    decreases s.len(),
{
    if s.len() > 0 {
        assert(s.contains(s[s.len() - 1]));
        let front = s.drop_last();
        assert(!front.contains('{')) by {
            if front.contains('{') {
                assert(s[front.index_of('{')] == '{');
            }
        }
        lemma_depth_without_opening(front);
    }
}

/// The first position from `k` on behind which no brace that opened at `open`
/// or later is open any more.
proof fn lemma_find_closing(s: Seq<char>, open: int, k: int) -> (close: int)
    requires
        0 <= open < k < s.len(),
        depth(s.subrange(open, s.len() as int)) == 0,
        forall|j: int| open <= j < s.len() ==> depth(#[trigger] s.subrange(open, j + 1)) >= 0,
        forall|j: int| open <= j < k ==> depth(#[trigger] s.subrange(open, j + 1)) > 0,
    ensures
        closes(s, open, close),
    decreases s.len() - k,
{
    if depth(s.subrange(open, k + 1)) == 0 {
        k
    } else {
        assert(depth(s.subrange(open, k + 1)) > 0);
        if k + 1 == s.len() {
            assert(s.subrange(open, k + 1) =~= s.subrange(open, s.len() as int));
            k
        } else {
            lemma_find_closing(s, open, k + 1)
        }
    }
}

/// In a balanced pattern nothing is open where its first brace opens, and that
/// brace is closed.
proof fn lemma_balanced_closes(s: Seq<char>)
    requires
        is_balanced(s),
        s.contains('{'),
    ensures
        ({
            let open = text::find_char(s, '{') as int;
            &&& 0 <= open < s.len()
            &&& s[open] == '{'
            &&& !s.take(open).contains('{')
            &&& depth(s.take(open)) == 0
            &&& exists|k: int| closes(s, open, k)
        }),
{
    let open = text::find_char(s, '{') as int;
    text::lemma_find_char(s, '{');
    let before = s.take(open);
    lemma_depth_without_opening(before);
    assert(depth(before) == 0);
    assert forall|j: int| open <= j < s.len() implies depth(#[trigger] s.subrange(open, j + 1))
        == depth(s.take(j + 1)) by {
        assert(s.take(j + 1) =~= before + s.subrange(open, j + 1));
        lemma_depth_split(before, s.subrange(open, j + 1));
    }
    assert forall|j: int| open <= j < s.len() implies depth(#[trigger] s.subrange(open, j + 1))
        >= 0 by {
        assert(depth(s.take(j + 1)) >= 0);
    }
    let last = s.len() - 1;
    assert(s.take(last + 1) =~= s);
    assert(depth(s.subrange(open, last + 1)) == depth(s.take(last + 1)));
    assert(s.subrange(open, open + 1) =~= seq!['{']);
    assert(seq!['{'].drop_last() =~= Seq::<char>::empty());
    assert(depth(seq!['{']) == 1) by {
        assert(depth(seq!['{'].drop_last()) == 0);
    }
    assert(open < last);
    let close = lemma_find_closing(s, open, open + 1);
}

/// The parts of a balanced body are balanced; the first closes what the body
/// began inside of.
proof fn lemma_split_balanced(body: Seq<char>, level: int)
    requires
        closes_levels(body, level),
    ensures
        closes_levels(split_alternatives(body, level)[0], level),
        forall|i: int|
            1 <= i < split_alternatives(body, level).len() ==> is_balanced(
                #[trigger] split_alternatives(body, level)[i],
            ),
    decreases body.len(),
{
    let all = split_alternatives(body, level);
    if body.len() == 0 {
        assert(all[0] =~= body);
    } else {
        let tail = body.drop_first();
        let next = level + nesting(body[0]);
        let parts = split_alternatives(tail, next);
        assert(level >= 0) by {
            assert(level + depth(body.take(0)) >= 0);
        }
        assert(closes_levels(tail, next)) by {
            assert(body.take(body.len() as int) =~= body);
            assert(tail.take(tail.len() as int) =~= tail);
            lemma_depth_step(body, tail.len() as int);
            assert forall|k: int| 0 <= k <= tail.len() implies next + depth(#[trigger] tail.take(k))
                >= 0 by {
                lemma_depth_step(body, k);
                assert(level + depth(body.take(k + 1)) >= 0);
            }
        }
        lemma_split_balanced(tail, next);
        lemma_split_lengths(tail, next);
        if body[0] == ',' && level == 0 {
            assert(closes_levels(all[0], 0)) by {
                assert(all[0] =~= Seq::empty());
                assert forall|k: int| 0 <= k <= all[0].len() implies depth(#[trigger] all[0].take(k))
                    >= 0 by {
                    assert(all[0].take(k) =~= Seq::empty());
                }
            }
            assert forall|i: int| 1 <= i < all.len() implies is_balanced(#[trigger] all[i]) by {
                assert(all[i] == parts[i - 1]);
            }
        } else {
            lemma_closes_levels_cons(body[0], parts[0], level);
            assert(all[0] == seq![body[0]] + parts[0]);
            assert forall|i: int| 1 <= i < all.len() implies is_balanced(#[trigger] all[i]) by {
                assert(all[i] == parts[i]);
            }
        }
    }
}

/// The alternatives of a balanced pattern are balanced.
proof fn lemma_alternatives_balanced(s: Seq<char>, open: int, close: int)
    requires
        is_balanced(s),
        closes(s, open, close),
        s[open] == '{',
        depth(s.take(open)) == 0,
    ensures
        forall|i: int|
            0 <= i < alternatives(s, open, close).len() ==> is_balanced(
                #[trigger] alternatives(s, open, close)[i],
            ),
{
    let prefix = s.take(open);
    let body = s.subrange(open + 1, close);
    let suffix = s.skip(close + 1);
    let group = s.subrange(open, close + 1);
    assert(is_balanced(prefix)) by {
        assert forall|k: int| 0 <= k <= prefix.len() implies depth(#[trigger] prefix.take(k)) >= 0 by {
            assert(prefix.take(k) =~= s.take(k));
        }
    }
    assert(is_balanced(body)) by {
        lemma_body_balanced(s, open, close);
        let upto = s.subrange(open, (close - 1) + 1);
        assert(depth(upto) > 0);
        assert(group.drop_last() =~= upto);
        assert(upto =~= seq!['{'] + body);
        lemma_depth_split(seq!['{'], body);
        assert(seq!['{'].drop_last() =~= Seq::<char>::empty());
        assert(depth(seq!['{'].drop_last()) == 0);
        assert(body.take(body.len() as int) =~= body);
    }
    assert(is_balanced(suffix)) by {
        assert(s.take(close + 1) =~= prefix + group);
        lemma_depth_split(prefix, group);
        assert forall|k: int| 0 <= k <= suffix.len() implies depth(#[trigger] suffix.take(k))
            == depth(s.take(close + 1 + k)) by {
            assert(s.take(close + 1 + k) =~= s.take(close + 1) + suffix.take(k));
            lemma_depth_split(s.take(close + 1), suffix.take(k));
        }
        assert forall|k: int| 0 <= k <= suffix.len() implies depth(#[trigger] suffix.take(k)) >= 0 by {
            assert(depth(s.take(close + 1 + k)) >= 0);
        }
        assert(suffix.take(suffix.len() as int) =~= suffix);
        assert(s.take(s.len() as int) =~= s);
        assert(depth(suffix.take(suffix.len() as int)) == depth(s.take(s.len() as int)));
    }
    lemma_split_balanced(body, 0);
    let parts = split_alternatives(body, 0);
    let alts = alternatives(s, open, close);
    assert forall|i: int| 0 <= i < alts.len() implies is_balanced(#[trigger] alts[i]) by {
        assert(is_balanced(parts[i]));
        lemma_closes_levels_concat(prefix, parts[i], 0);
        lemma_closes_levels_concat(prefix + parts[i], suffix, 0);
        assert(alts[i] == prefix + parts[i] + suffix);
    }
}

/// A pattern behind a balanced one expands on its own: what the two stand for
/// together is each expansion of the first before each of the second, in
/// order.
pub proof fn law_balanced_prefix_distributes(a: Seq<char>, b: Seq<char>)
    requires
        is_balanced(a),
    ensures
        expansions(a + b) == products(expansions(a), expansions(b)),
    decreases a.len(), 1int, 0nat,
{
    let whole = a + b;
    let tails = expansions(b);
    if !a.contains('{') {
        law_plain_pattern_stands_for_itself(a);
        law_prefix_is_kept(a, b);
        assert(seq![a].drop_first() =~= Seq::<Seq<char>>::empty());
        assert(products(seq![a].drop_first(), tails) =~= Seq::empty());
        assert(products(seq![a], tails) =~= with_prefix(a, tails));
    } else {
        let open = text::find_char(a, '{') as int;
        lemma_balanced_closes(a);
        let close = closing_brace(a, open)->0;
        assert(closes(a, open, close));
        assert(text::find_char(whole, '{') == open) by {
            text::lemma_find_char(a, '{');
            text::lemma_find_char(whole, '{');
            let n = text::find_char(whole, '{') as int;
            assert(whole[open] == '{');
            if n < open {
                assert(a[n] == '{');
            }
        }
        assert(closes(whole, open, close)) by {
            assert(whole.subrange(open, close + 1) =~= a.subrange(open, close + 1));
            assert forall|k: int| open <= k < close implies depth(
                #[trigger] whole.subrange(open, k + 1),
            ) > 0 by {
                assert(whole.subrange(open, k + 1) =~= a.subrange(open, k + 1));
            }
        }
        let c = choose|k: int| closes(whole, open, k);
        lemma_closes_unique(whole, open, close, c);
        assert(closing_brace(whole, text::find_char(whole, '{') as int) == Some(close));
        let alts = alternatives(a, open, close);
        let longer = alternatives(whole, open, close);
        assert(whole.subrange(open + 1, close) =~= a.subrange(open + 1, close));
        assert forall|i: int| 0 <= i < alts.len() implies #[trigger] longer[i] == alts[i] + b by {
            assert(longer[i] =~= alts[i] + b);
        }
        assert(longer =~= with_suffix(alts, b));
        lemma_alternatives_shorter(a, open, close);
        lemma_alternatives_shorter(whole, open, close);
        lemma_alternatives_balanced(a, open, close);
        lemma_distributes_all(alts, b, a.len(), whole.len());
        assert(expansions(whole) == all_expansions(longer, whole.len()));
        assert(expansions(a) == all_expansions(alts, a.len()));
    }
}

/// `patterns` with `suffix` put behind each of them.
spec fn with_suffix(patterns: Seq<Seq<char>>, suffix: Seq<char>) -> Seq<Seq<char>> {
    patterns.map_values(|p: Seq<char>| p + suffix)
}

proof fn lemma_distributes_all(
    patterns: Seq<Seq<char>>,
    b: Seq<char>,
    bound: nat,
    longer_bound: nat,
)
    requires
        longer_bound == bound + b.len(),
        forall|i: int| 0 <= i < patterns.len() ==> (#[trigger] patterns[i]).len() < bound,
        forall|i: int| 0 <= i < patterns.len() ==> is_balanced(#[trigger] patterns[i]),
    ensures
        all_expansions(with_suffix(patterns, b), longer_bound) == products(
            all_expansions(patterns, bound),
            expansions(b),
        ),
    decreases bound, 0int, patterns.len(),
{
    let longer = with_suffix(patterns, b);
    let tails = expansions(b);
    assert forall|i: int| 0 <= i < longer.len() implies (#[trigger] longer[i]).len()
        < longer_bound by {
        assert(longer[i] == patterns[i] + b);
    }
    if patterns.len() > 0 {
        let rest = patterns.drop_first();
        law_balanced_prefix_distributes(patterns[0], b);
        lemma_distributes_all(rest, b, bound, longer_bound);
        assert(longer.drop_first() =~= with_suffix(rest, b));
        lemma_products_concat(expansions(patterns[0]), all_expansions(rest, bound), tails);
    } else {
        assert(all_expansions(longer, longer_bound) =~= products(
            all_expansions(patterns, bound),
            tails,
        ));
    }
}

/// A part holds only characters of the whole.
proof fn lemma_split_adds_nothing(body: Seq<char>, level: int, c: char)
    requires
        !body.contains(c),
    ensures
        forall|i: int|
            0 <= i < split_alternatives(body, level).len() ==> !(#[trigger] split_alternatives(
                body,
                level,
            )[i]).contains(c),
    decreases body.len(),
{
    if body.len() > 0 {
        let tail = body.drop_first();
        let next = level + nesting(body[0]);
        let parts = split_alternatives(tail, next);
        let all = split_alternatives(body, level);
        assert(!tail.contains(c)) by {
            if tail.contains(c) {
                let k = tail.index_of(c);
                assert(body[k + 1] == c);
            }
        }
        lemma_split_adds_nothing(tail, next, c);
        lemma_split_lengths(tail, next);
        assert(body.contains(body[0]));
        assert forall|i: int| 0 <= i < all.len() implies !(#[trigger] all[i]).contains(c) by {
            if body[0] == ',' && level == 0 {
                if i > 0 {
                    assert(all[i] == parts[i - 1]);
                }
            } else if i > 0 {
                assert(all[i] == parts[i]);
            } else {
                assert(all[0] == seq![body[0]] + parts[0]);
                assert(!parts[0].contains(c));
                if all[0].contains(c) {
                    let k = all[0].index_of(c);
                    if k > 0 {
                        assert(parts[0][k - 1] == c);
                    }
                }
            }
        }
    }
}

/// An expansion holds only characters of the pattern.
pub proof fn law_expansions_add_nothing(s: Seq<char>, c: char)
    requires
        !s.contains(c),
    ensures
        forall|i: int|
            0 <= i < expansions(s).len() ==> !(#[trigger] expansions(s)[i]).contains(c),
    decreases s.len(), 1int, 0nat,
{
    let open = text::find_char(s, '{') as int;
    if let Some(close) = closing_brace(s, open) {
        let alts = alternatives(s, open, close);
        let body = s.subrange(open + 1, close);
        let parts = split_alternatives(body, 0);
        assert(!body.contains(c)) by {
            if body.contains(c) {
                let k = body.index_of(c);
                assert(s[k + open + 1] == c);
            }
        }
        lemma_split_adds_nothing(body, 0, c);
        assert forall|i: int| 0 <= i < alts.len() implies !(#[trigger] alts[i]).contains(c) by {
            assert(!parts[i].contains(c));
            assert(alts[i] == s.take(open) + parts[i] + s.skip(close + 1));
            if alts[i].contains(c) {
                let k = alts[i].index_of(c);
                if k < open {
                    assert(s[k] == c);
                } else if k < open + parts[i].len() {
                    assert(parts[i][k - open] == c);
                } else {
                    assert(s[k - open - parts[i].len() + close + 1] == c);
                }
            }
        }
        lemma_alternatives_shorter(s, open, close);
        lemma_all_expansions_add_nothing(alts, s.len(), c);
        assert(expansions(s) == all_expansions(alts, s.len()));
    } else {
        assert(expansions(s) == seq![s]);
    }
}

proof fn lemma_all_expansions_add_nothing(patterns: Seq<Seq<char>>, bound: nat, c: char)
    requires
        forall|i: int| 0 <= i < patterns.len() ==> (#[trigger] patterns[i]).len() < bound,
        forall|i: int| 0 <= i < patterns.len() ==> !(#[trigger] patterns[i]).contains(c),
    ensures
        forall|i: int|
            0 <= i < all_expansions(patterns, bound).len() ==> !(#[trigger] all_expansions(
                patterns,
                bound,
            )[i]).contains(c),
    decreases bound, 0int, patterns.len(),
{
    if patterns.len() > 0 {
        let first = expansions(patterns[0]);
        let rest = all_expansions(patterns.drop_first(), bound);
        law_expansions_add_nothing(patterns[0], c);
        lemma_all_expansions_add_nothing(patterns.drop_first(), bound, c);
        let all = all_expansions(patterns, bound);
        assert(all == first + rest);
        assert forall|i: int| 0 <= i < all.len() implies !(#[trigger] all[i]).contains(c) by {
            if i < first.len() {
                assert(all[i] == first[i]);
            } else {
                assert(all[i] == rest[i - first.len()]);
            }
        }
    }
}

/// Braces alone nest: the depth is the number of `{` less the number of `}`,
/// whatever else stands between them.
pub proof fn law_depth_counts_braces(s: Seq<char>)
    ensures
        depth(s) == s.to_multiset().count('{') - s.to_multiset().count('}'),
    decreases s.len(),
{
    broadcast use vstd::seq_lib::group_to_multiset_ensures;

    if s.len() > 0 {
        law_depth_counts_braces(s.drop_last());
        assert(s.drop_last().push(s.last()) =~= s);
    }
}

/// A brace that nothing closes is itself, and so is whatever stands behind it.
pub proof fn law_unclosed_brace_stands_for_itself(prefix: Seq<char>, rest: Seq<char>)
    requires
        !prefix.contains('{'),
        forall|k: int| 0 <= k <= rest.len() ==> depth(#[trigger] rest.take(k)) >= 0,
    ensures
        expansions(prefix + seq!['{'] + rest) == seq![prefix + seq!['{'] + rest],
{
    let s = prefix + seq!['{'] + rest;
    let open = prefix.len() as int;
    assert(forall|k: int| 0 <= k < open ==> s[k] == prefix[k]);
    text::lemma_first_at(s, '{', open);
    assert(seq!['{'].drop_last() =~= Seq::<char>::empty());
    assert(depth(seq!['{'].drop_last()) == 0);
    assert forall|k: int| !closes(s, open, k) by {
        if open < k < s.len() {
            assert(s.subrange(open, k + 1) =~= seq!['{'] + rest.take(k - open));
            lemma_depth_split(seq!['{'], rest.take(k - open));
        }
    }
}

} // verus!
