//! What each construct of a section's glob matches, stated on the characters
//! of the pattern and of the path.

use vstd::prelude::*;
use crate::braces;
use crate::text;

verus! {

/// The empty pattern matches nothing but the empty text.
pub proof fn law_empty_pattern_matches_empty_text(t: Seq<char>)
    ensures
        super::glob_matches(Seq::empty(), t) <==> t == Seq::<char>::empty(),
{
    if t.len() == 0 {
        assert(t =~= Seq::empty());
    }
}

/// A character that is no wildcard and opens no class matches itself.
pub proof fn law_plain_character_matches_itself(c: char, rest: Seq<char>, t: Seq<char>)
    requires
        c != '*',
        c != '?',
        c != '[',
    ensures
        super::glob_matches(seq![c] + rest, t) <==> t.len() > 0 && t[0] == c
            && super::glob_matches(rest, t.skip(1)),
{
    assert((seq![c] + rest).skip(1) =~= rest);
}

/// `?` matches one character, which may be any but `/`.
pub proof fn law_question_mark_matches_one_character(rest: Seq<char>, t: Seq<char>)
    ensures
        super::glob_matches(seq!['?'] + rest, t) <==> t.len() > 0 && t[0] != '/'
            && super::glob_matches(rest, t.skip(1)),
{
    assert((seq!['?'] + rest).skip(1) =~= rest);
}

/// `*` matches any stretch of text without a `/`, the empty one included.
pub proof fn law_star_matches_within_a_name(rest: Seq<char>, t: Seq<char>)
    requires
        !(rest.len() > 0 && rest[0] == '*'),
    ensures
        super::glob_matches(seq!['*'] + rest, t) <==> exists|a: Seq<char>, b: Seq<char>|
            t == a + b && !#[trigger] a.contains('/') && #[trigger] super::glob_matches(rest, b),
{
    let p = seq!['*'] + rest;
    assert(p.skip(1) =~= rest);
    if super::glob_matches(p, t) {
        let i = choose|i: int|
            0 <= i <= t.len() && !t.take(i).contains('/') && super::glob_matches(
                p.skip(1),
                #[trigger] t.skip(i),
            );
        assert(t =~= t.take(i) + t.skip(i));
        assert(!t.take(i).contains('/') && super::glob_matches(rest, t.skip(i)));
    }
    if exists|a: Seq<char>, b: Seq<char>|
        t == a + b && !#[trigger] a.contains('/') && #[trigger] super::glob_matches(rest, b) {
        let (a, b) = choose|a: Seq<char>, b: Seq<char>|
            t == a + b && !#[trigger] a.contains('/') && #[trigger] super::glob_matches(rest, b);
        assert(t.take(a.len() as int) =~= a);
        assert(t.skip(a.len() as int) =~= b);
        assert(super::glob_matches(p.skip(1), t.skip(a.len() as int)));
    }
}

/// `**` matches any stretch of text at all. (`**/` also matches nothing:
/// `law_double_star_slash` says of it what this says of `**`.)
pub proof fn law_double_star_crosses_directories(rest: Seq<char>, t: Seq<char>)
    requires
        !(rest.len() > 0 && rest[0] == '/'),
    ensures
        super::glob_matches(seq!['*', '*'] + rest, t) <==> exists|a: Seq<char>, b: Seq<char>|
            t == #[trigger] (a + b) && super::glob_matches(rest, b),
{
    let p = seq!['*', '*'] + rest;
    assert(p.skip(2) =~= rest);
    if super::glob_matches(p, t) {
        let i = choose|i: int|
            0 <= i <= t.len() && super::glob_matches(p.skip(2), #[trigger] t.skip(i));
        assert(t =~= t.take(i) + t.skip(i));
    }
    if exists|a: Seq<char>, b: Seq<char>|
        t == #[trigger] (a + b) && super::glob_matches(rest, b) {
        let (a, b) = choose|a: Seq<char>, b: Seq<char>|
            t == #[trigger] (a + b) && super::glob_matches(rest, b);
        assert(t.skip(a.len() as int) =~= b);
        assert(super::glob_matches(p.skip(2), t.skip(a.len() as int)));
    }
}

/// A `[` that nothing closes matches itself.
pub proof fn law_unclosed_bracket_matches_itself(rest: Seq<char>, t: Seq<char>)
    requires
        !rest.contains(']'),
    ensures
        super::glob_matches(seq!['['] + rest, t) <==> t.len() > 0 && t[0] == '['
            && super::glob_matches(rest, t.skip(1)),
{
    let p = seq!['['] + rest;
    let start = super::class_start(p);
    let tail = p.skip(start);
    assert(p.skip(1) =~= rest);
    text::lemma_find_char(tail, ']');
    if tail.contains(']') {
        let i = tail.index_of(']');
        assert(rest[i + start - 1] == ']');
    }
    assert(super::class_end(p) is None);
}

/// What a class at the head of a pattern does, over the membership in its body.
proof fn lemma_class_head(negated: bool, set: Seq<char>, rest: Seq<char>, t: Seq<char>)
    requires
        !set.contains(']'),
        !negated ==> !(set.len() > 0 && set[0] == '!'),
    ensures
        ({
            let p = (if negated {
                seq!['[', '!']
            } else {
                seq!['[']
            }) + set + seq![']'] + rest;
            super::glob_matches(p, t) <==> t.len() > 0 && t[0] != '/' && (super::in_set(set, t[0])
                != negated) && super::glob_matches(rest, t.skip(1))
        }),
{
    let open = if negated {
        seq!['[', '!']
    } else {
        seq!['[']
    };
    let p = open + set + seq![']'] + rest;
    let start = open.len() as int;
    let end = start + set.len();
    let tail = p.skip(start);
    assert(super::class_start(p) == start);
    assert(tail =~= set + seq![']'] + rest);
    assert(forall|k: int| 0 <= k < set.len() ==> tail[k] == set[k]);
    text::lemma_first_at(tail, ']', set.len() as int);
    assert(super::class_end(p) == Some(end));
    assert(p.subrange(start, end) =~= set);
    assert(p.skip(end + 1) =~= rest);
}

/// A class takes one character off the text, and what follows it matches the
/// rest. It never takes a `/`, whatever its body.
pub proof fn law_class_takes_one_character(set: Seq<char>, rest: Seq<char>, t: Seq<char>)
    requires
        !set.contains(']'),
    ensures
        super::glob_matches(seq!['['] + set + seq![']'] + rest, t) <==> t.len() > 0
            && super::glob_matches(seq!['['] + set + seq![']'], t.take(1)) && super::glob_matches(
            rest,
            t.skip(1),
        ),
        super::glob_matches(seq!['['] + set + seq![']'] + rest, t) ==> t[0] != '/',
{
    let none = Seq::<char>::empty();
    let negated = set.len() > 0 && set[0] == '!';
    let body = if negated {
        set.skip(1)
    } else {
        set
    };
    let open = if negated {
        seq!['[', '!']
    } else {
        seq!['[']
    };
    assert(!body.contains(']')) by {
        if body.contains(']') {
            let i = body.index_of(']');
            assert(set[i + (set.len() - body.len())] == ']');
        }
    }
    assert(seq!['['] + set =~= open + body);
    assert(seq!['['] + set + seq![']'] + none =~= seq!['['] + set + seq![']']);
    lemma_class_head(negated, body, rest, t);
    if t.len() > 0 {
        lemma_class_head(negated, body, none, t.take(1));
        assert(t.take(1).skip(1) =~= none);
    }
}

/// The class `[a-b]` matches the characters from `a` to `b`, both included,
/// and `[!a-b]` the others; neither matches `/`.
pub proof fn law_range_holds_both_ends(a: char, b: char, c: char)
    requires
        a != ']',
        b != ']',
    ensures
        a != '!' ==> (super::glob_matches(seq!['[', a, '-', b, ']'], seq![c]) <==> a <= c && c <= b
            && c != '/'),
        super::glob_matches(seq!['[', '!', a, '-', b, ']'], seq![c]) <==> (c < a || b < c) && c
            != '/',
{
    let set = seq![a, '-', b];
    let none = Seq::<char>::empty();
    assert(set.skip(3) =~= none);
    assert(super::in_set(set, c) <==> a <= c <= b) by {
        assert(!super::in_set(set.skip(3), c));
    }
    assert(seq![c].skip(1) =~= none);
    assert(super::glob_matches(none, none));
    lemma_class_head(true, set, none, seq![c]);
    assert(seq!['[', '!'] + set + seq![']'] + none =~= seq!['[', '!', a, '-', b, ']']);
    if a != '!' {
        lemma_class_head(false, set, none, seq![c]);
        assert(seq!['['] + set + seq![']'] + none =~= seq!['[', a, '-', b, ']']);
    }
}

/// A class of single characters matches those, and with `!` in front the
/// others; neither matches `/`.
pub proof fn law_single_characters_are_the_members(set: Seq<char>, c: char)
    requires
        !set.contains(']'),
        !set.contains('-'),
    ensures
        !(set.len() > 0 && set[0] == '!') ==> (super::glob_matches(
            seq!['['] + set + seq![']'],
            seq![c],
        ) <==> set.contains(c) && c != '/'),
        super::glob_matches(seq!['[', '!'] + set + seq![']'], seq![c]) <==> !set.contains(c) && c
            != '/',
{
    let none = Seq::<char>::empty();
    lemma_singles(set, c);
    assert(seq![c].skip(1) =~= none);
    assert(super::glob_matches(none, none));
    lemma_class_head(true, set, none, seq![c]);
    assert(seq!['[', '!'] + set + seq![']'] + none =~= seq!['[', '!'] + set + seq![']']);
    if !(set.len() > 0 && set[0] == '!') {
        lemma_class_head(false, set, none, seq![c]);
        assert(seq!['['] + set + seq![']'] + none =~= seq!['['] + set + seq![']']);
    }
}

proof fn lemma_singles(set: Seq<char>, c: char)
    requires
        !set.contains('-'),
    ensures
        super::in_set(set, c) <==> set.contains(c),
    decreases set.len(),
{
    if set.len() > 0 {
        let rest = set.skip(1);
        assert(!rest.contains('-')) by {
            if rest.contains('-') {
                assert(set[rest.index_of('-') + 1] == '-');
            }
        }
        lemma_singles(rest, c);
        if set.len() > 1 {
            assert(set.contains(set[1]));
        }
        if set.contains(c) && c != set[0] {
            let i = set.index_of(c);
            assert(rest[i - 1] == c);
        }
        if rest.contains(c) {
            assert(set[rest.index_of(c) + 1] == c);
        }
        assert(set.contains(set[0]));
    }
}

/// A member of a character class, as written.
pub enum Member {
    One(char),
    Range(char, char),
}

/// Whether `c` is the character, or lies in the range, ends included.
pub open spec fn covers(member: Member, c: char) -> bool {
    match member {
        Member::One(x) => c == x,
        Member::Range(a, b) => a <= c && c <= b,
    }
}

/// How a member is written: `x`, or `a-b`.
pub open spec fn member_text(member: Member) -> Seq<char> {
    match member {
        Member::One(x) => seq![x],
        Member::Range(a, b) => seq![a, '-', b],
    }
}

/// How members are written, one behind the other.
pub open spec fn members_text(members: Seq<Member>) -> Seq<char>
    decreases members.len(),
{
    if members.len() == 0 {
        Seq::empty()
    } else {
        member_text(members[0]) + members_text(members.drop_first())
    }
}

/// Whether no member begins with a `-` that would make a range of the one
/// before it: behind a single character, a `-` stands alone and last.
pub open spec fn stand_apart(members: Seq<Member>) -> bool {
    forall|i: int|
        1 <= i < members.len() && member_text(#[trigger] members[i])[0] == '-' && members[i
            - 1] is One ==> i == members.len() - 1 && members[i] is One
}

/// A class of any characters and ranges matches what one of them covers, and
/// with `!` in front what none does; neither matches `/`.
pub proof fn law_class_holds_its_members(members: Seq<Member>, c: char)
    requires
        stand_apart(members),
        !members_text(members).contains(']'),
    ensures
        !(members.len() > 0 && member_text(members[0])[0] == '!') ==> (super::glob_matches(
            seq!['['] + members_text(members) + seq![']'],
            seq![c],
        ) <==> c != '/' && exists|i: int| 0 <= i < members.len() && covers(#[trigger] members[i], c)),
        super::glob_matches(seq!['[', '!'] + members_text(members) + seq![']'], seq![c]) <==> c
            != '/' && forall|i: int| 0 <= i < members.len() ==> !covers(#[trigger] members[i], c),
{
    let none = Seq::<char>::empty();
    let set = members_text(members);
    lemma_members(members, c);
    assert(seq![c].skip(1) =~= none);
    assert(super::glob_matches(none, none));
    lemma_class_head(true, set, none, seq![c]);
    assert(seq!['[', '!'] + set + seq![']'] + none =~= seq!['[', '!'] + set + seq![']']);
    if !(members.len() > 0 && member_text(members[0])[0] == '!') {
        lemma_class_head(false, set, none, seq![c]);
        assert(seq!['['] + set + seq![']'] + none =~= seq!['['] + set + seq![']']);
    }
}

proof fn lemma_members(members: Seq<Member>, c: char)
    requires
        stand_apart(members),
    ensures
        super::in_set(members_text(members), c) <==> exists|i: int|
            0 <= i < members.len() && covers(#[trigger] members[i], c),
    decreases members.len(),
{
    if members.len() > 0 {
        let set = members_text(members);
        let others = members.drop_first();
        let tail = members_text(others);
        assert forall|i: int|
            1 <= i < others.len() && member_text(#[trigger] others[i])[0] == '-' && others[i
                - 1] is One implies i == others.len() - 1 && others[i] is One by {
            assert(others[i] == members[i + 1]);
        }
        lemma_members(others, c);
        match members[0] {
            Member::One(x) => {
                assert(set.skip(1) =~= tail);
                if others.len() > 0 {
                    assert(others[0] == members[1]);
                    assert(set[1] == member_text(members[1])[0]);
                    if set[1] == '-' {
                        assert(others.len() == 1);
                        assert(members_text(others.drop_first()) =~= Seq::empty());
                    }
                }
            },
            Member::Range(a, b) => {
                assert(set.skip(3) =~= tail);
            },
        }
        if exists|i: int| 0 <= i < others.len() && covers(#[trigger] others[i], c) {
            let i = choose|i: int| 0 <= i < others.len() && covers(#[trigger] others[i], c);
            assert(covers(members[i + 1], c));
        }
        if exists|i: int| 0 <= i < members.len() && covers(#[trigger] members[i], c) {
            let i = choose|i: int| 0 <= i < members.len() && covers(#[trigger] members[i], c);
            if i > 0 {
                assert(covers(others[i - 1], c));
            } else {
                assert(covers(members[0], c));
            }
        }
        if covers(members[0], c) {
            assert(exists|i: int| 0 <= i < members.len() && covers(#[trigger] members[i], c));
        }
    }
}

/// Whether a class admits a character is told by its body alone, whatever
/// stands behind that.
pub proof fn law_class_admits_what_its_members_cover(
    members: Seq<Member>,
    behind: Seq<char>,
    c: char,
)
    requires
        stand_apart(members),
    ensures
        !(members.len() > 0 && member_text(members[0])[0] == '!') && !(members.len() == 0
            && behind.len() > 0 && behind[0] == '!') ==> (super::class_admits(
            seq!['['] + members_text(members) + behind,
            1 + members_text(members).len() as int,
            c,
        ) <==> c != '/' && exists|i: int| 0 <= i < members.len() && covers(#[trigger] members[i], c)),
        super::class_admits(
            seq!['[', '!'] + members_text(members) + behind,
            2 + members_text(members).len() as int,
            c,
        ) <==> c != '/' && forall|i: int| 0 <= i < members.len() ==> !covers(#[trigger] members[i], c),
{
    let set = members_text(members);
    let p = seq!['['] + set + behind;
    let q = seq!['[', '!'] + set + behind;
    lemma_members(members, c);
    assert(p.subrange(1, 1 + set.len() as int) =~= set);
    assert(q.subrange(2, 2 + set.len() as int) =~= set);
}

/// A section applies to a path where one of the patterns that its glob stands
/// for matches. A glob that holds a `/` is held against the whole path, a
/// leading `/` being no part of it. One without is held against the path and
/// against what stands behind any `/` in it.
pub proof fn law_section_is_held_against_the_path(glob: Seq<char>, rel: Seq<char>)
    ensures
        super::section_applies(seq!['/'] + glob, rel) <==> exists|i: int|
            0 <= i < braces::expansions(glob).len() && super::glob_matches(
                #[trigger] braces::expansions(glob)[i],
                rel,
            ),
        glob.contains('/') && glob[0] != '/' ==> (super::section_applies(glob, rel) <==> exists|
            i: int,
        |
            0 <= i < braces::expansions(glob).len() && super::glob_matches(
                #[trigger] braces::expansions(glob)[i],
                rel,
            )),
        !glob.contains('/') ==> (super::section_applies(glob, rel) <==> exists|i: int|
            0 <= i < braces::expansions(glob).len() && (super::glob_matches(
                #[trigger] braces::expansions(glob)[i],
                rel,
            ) || exists|k: int|
                0 <= k < rel.len() && #[trigger] rel[k] == '/' && super::glob_matches(
                    braces::expansions(glob)[i],
                    rel.skip(k + 1),
                ))),
{
    assert((seq!['/'] + glob).skip(1) =~= glob);
    if !glob.contains('/') {
        let prefix = seq!['*', '*', '/'];
        let plain = braces::expansions(glob);
        let whole = braces::expansions(super::anchored(glob));
        assert(!prefix.contains('{'));
        if glob.len() > 0 {
            assert(glob.contains(glob[0]));
        }
        braces::law_prefix_is_kept(prefix, glob);
        assert(whole == braces::with_prefix(prefix, plain));
        assert forall|i: int| 0 <= i < plain.len() implies super::glob_matches(whole[i], rel) == (
        super::glob_matches(#[trigger] plain[i], rel) || exists|k: int|
            0 <= k < rel.len() && #[trigger] rel[k] == '/' && super::glob_matches(
                plain[i],
                rel.skip(k + 1),
            )) by {
            assert(whole[i] == prefix + plain[i]);
            super::law_double_star_slash(plain[i], rel);
        }
        if super::section_applies(glob, rel) {
            let i = choose|i: int|
                0 <= i < whole.len() && super::glob_matches(#[trigger] whole[i], rel);
            assert(super::glob_matches(plain[i], rel) || exists|k: int|
                0 <= k < rel.len() && #[trigger] rel[k] == '/' && super::glob_matches(
                    plain[i],
                    rel.skip(k + 1),
                ));
        }
    }
}

} // verus!
