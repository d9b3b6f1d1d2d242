//! String primitives, specified over the characters of the string.
//!
//! A `&str` is viewed as a `Seq<char>`; its byte length is the length of the
//! UTF-8 encoding of that sequence. Substrings are cut at byte offsets that
//! are proved to lie between two characters.

use vstd::prelude::*;
use vstd::string::*;
use vstd::utf8::*;

verus! {

/// Number of bytes that `s` occupies in UTF-8.
pub open spec fn byte_len(s: Seq<char>) -> nat {
    encode_utf8(s).len()
}

/// Encoding distributes over concatenation.
pub proof fn lemma_encode_concat(a: Seq<char>, b: Seq<char>)
    ensures
        encode_utf8(a + b) == encode_utf8(a) + encode_utf8(b),
        byte_len(a + b) == byte_len(a) + byte_len(b),
    decreases a.len(),
{
    if a.len() == 0 {
        assert(a + b =~= b);
        assert(encode_utf8(a) =~= seq![]);
        assert(encode_utf8(a) + encode_utf8(b) =~= encode_utf8(b));
    } else {
        lemma_encode_concat(a.drop_first(), b);
        assert((a + b).drop_first() =~= a.drop_first() + b);
        assert(encode_utf8(a + b) =~= encode_utf8(a) + encode_utf8(b));
    }
}

/// A string of one character is as long as that character's encoding.
proof fn lemma_byte_len_one(c: char)
    ensures
        byte_len(seq![c]) == encode_scalar(c as u32).len(),
{
    assert(seq![c].drop_first() =~= seq![]);
    assert(encode_utf8(seq![c].drop_first()).len() == 0);
}

/// The encoding of a prefix ends at a character boundary of the whole.
proof fn lemma_prefix_boundary(a: Seq<char>, b: Seq<char>)
    ensures
        is_char_boundary(encode_utf8(a + b), byte_len(a) as int),
    decreases a.len(),
{
    encode_utf8_valid_utf8(a + b);
    if a.len() > 0 {
        let whole = a + b;
        let bytes = encode_utf8(whole);
        encode_utf8_first_scalar(whole);
        assert(whole.drop_first() =~= a.drop_first() + b);
        assert(pop_first_scalar(bytes) =~= encode_utf8(a.drop_first() + b));
        lemma_prefix_boundary(a.drop_first(), b);
        lemma_encode_concat(a, b);
        assert(byte_len(a) == encode_scalar(a[0] as u32).len() + byte_len(a.drop_first()));
    }
}

/// Different character sequences have different encodings.
proof fn lemma_encode_injective(a: Seq<char>, b: Seq<char>)
    requires
        encode_utf8(a) == encode_utf8(b),
    ensures
        a == b,
{
    encode_utf8_decode_utf8(a);
    encode_utf8_decode_utf8(b);
}

/// The characters of `s`, in order.
pub fn char_vec(s: &str) -> (r: Vec<char>)
    ensures
        r@ == s@,
{
    let mut r: Vec<char> = Vec::new();
    for c in it: s.chars()
        invariant
            it.seq() == s@,
            r@ == s@.take(it.index() as int),
    {
        r.push(c);
    }
    r
}

/// Number of bytes in the UTF-8 encoding of `c`.
fn char_width(c: char) -> (r: usize)
    ensures
        r == encode_scalar(c as u32).len(),
{
    let v: u32 = c as u32;
    if v <= 0x7f {
        1
    } else if v <= 0x7ff {
        2
    } else if v <= 0xffff {
        3
    } else {
        4
    }
}

/// Number of bytes that `s` occupies.
pub fn len(s: &str) -> (r: usize)
    ensures
        r == byte_len(s@),
{
    s.as_bytes().len()
}

/// Cuts `s` after its first `n` characters.
pub fn split_at_char(s: &str, n: usize) -> (r: (&str, &str))
    requires
        n <= s@.len(),
    ensures
        r.0@ == s@.take(n as int),
        r.1@ == s@.skip(n as int),
{
    let total: usize = s.as_bytes().len();
    let mut rest = s.chars();
    let mut offset: usize = 0;
    let mut i: usize = 0;
    while i < n
        invariant
            i <= n <= s@.len(),
            vstd::std_specs::iter::IteratorSpec::remaining(&rest) == s@.skip(i as int),
            offset == byte_len(s@.take(i as int)),
            total == byte_len(s@),
        decreases n - i,
    {
        let next = rest.next();
        proof {
            let c = s@[i as int];
            assert(s@.take(i + 1) + s@.skip(i + 1) =~= s@);
            lemma_encode_concat(s@.take(i + 1), s@.skip(i + 1));
            assert(s@.take(i + 1) =~= s@.take(i as int) + seq![c]);
            lemma_encode_concat(s@.take(i as int), seq![c]);
            lemma_byte_len_one(c);
            assert(s@.skip(i as int).drop_first() =~= s@.skip(i + 1));
        }
        if let Some(c) = next {
            offset = offset + char_width(c);
        }
        i = i + 1;
    }
    proof {
        lemma_prefix_boundary(s@.take(n as int), s@.skip(n as int));
        assert(s@.take(n as int) + s@.skip(n as int) =~= s@);
    }
    let r = s.split_at(offset);
    proof {
        lemma_encode_concat(s@.take(n as int), s@.skip(n as int));
        assert(r.0.spec_bytes() =~= encode_utf8(s@.take(n as int)));
        assert(r.1.spec_bytes() =~= encode_utf8(s@.skip(n as int)));
        lemma_encode_injective(r.0@, s@.take(n as int));
        lemma_encode_injective(r.1@, s@.skip(n as int));
    }
    r
}

/// The Unicode property `White_Space`.
pub open spec fn is_white_space(c: char) -> bool {
    ||| '\u{9}' <= c <= '\u{d}'
    ||| c == ' '
    ||| c == '\u{85}'
    ||| c == '\u{a0}'
    ||| c == '\u{1680}'
    ||| '\u{2000}' <= c <= '\u{200a}'
    ||| c == '\u{2028}'
    ||| c == '\u{2029}'
    ||| c == '\u{202f}'
    ||| c == '\u{205f}'
    ||| c == '\u{3000}'
}

/// Whether `c` is Unicode white space.
pub fn is_whitespace(c: char) -> (r: bool)
    ensures
        r == is_white_space(c),
{
    ('\u{9}' <= c && c <= '\u{d}') || c == ' ' || c == '\u{85}' || c == '\u{a0}' || c == '\u{1680}'
        || ('\u{2000}' <= c && c <= '\u{200a}') || c == '\u{2028}' || c == '\u{2029}' || c
        == '\u{202f}' || c == '\u{205f}' || c == '\u{3000}'
}

/// `s` without its leading white space.
pub open spec fn trimmed_start(s: Seq<char>) -> Seq<char>
    decreases s.len(),
{
    if s.len() > 0 && is_white_space(s[0]) {
        trimmed_start(s.drop_first())
    } else {
        s
    }
}

/// `s` without its trailing white space.
pub open spec fn trimmed_end(s: Seq<char>) -> Seq<char>
    decreases s.len(),
{
    if s.len() > 0 && is_white_space(s.last()) {
        trimmed_end(s.drop_last())
    } else {
        s
    }
}

/// `s` without white space at either end.
pub open spec fn trimmed(s: Seq<char>) -> Seq<char> {
    trimmed_end(trimmed_start(s))
}

/// `s` without its trailing copies of `c`.
pub open spec fn trimmed_end_of(s: Seq<char>, c: char) -> Seq<char>
    decreases s.len(),
{
    if s.len() > 0 && s.last() == c {
        trimmed_end_of(s.drop_last(), c)
    } else {
        s
    }
}

/// `s` without its leading white space.
pub fn trim_start(s: &str) -> (r: &str)
    ensures
        r@ == trimmed_start(s@),
{
    let chars = char_vec(s);
    let mut i: usize = 0;
    assert(s@.skip(0) =~= s@);
    while i < chars.len() && is_whitespace(chars[i])
        invariant
            chars@ == s@,
            i <= s@.len(),
            trimmed_start(s@) == trimmed_start(s@.skip(i as int)),
        decreases chars.len() - i,
    {
        assert(s@.skip(i as int).drop_first() =~= s@.skip(i + 1));
        i = i + 1;
    }
    split_at_char(s, i).1
}

/// `s` without its trailing white space.
pub fn trim_end(s: &str) -> (r: &str)
    ensures
        r@ == trimmed_end(s@),
{
    let chars = char_vec(s);
    let mut n: usize = chars.len();
    assert(s@.take(n as int) =~= s@);
    while n > 0 && is_whitespace(chars[n - 1])
        invariant
            chars@ == s@,
            n <= s@.len(),
            trimmed_end(s@) == trimmed_end(s@.take(n as int)),
        decreases n,
    {
        assert(s@.take(n as int).drop_last() =~= s@.take(n - 1));
        n = n - 1;
    }
    split_at_char(s, n).0
}

/// `s` without white space at either end.
pub fn trim(s: &str) -> (r: &str)
    ensures
        r@ == trimmed(s@),
{
    trim_end(trim_start(s))
}

/// `s` without its trailing copies of `c`.
pub fn trim_end_matches(s: &str, c: char) -> (r: &str)
    ensures
        r@ == trimmed_end_of(s@, c),
{
    let chars = char_vec(s);
    let mut n: usize = chars.len();
    assert(s@.take(n as int) =~= s@);
    while n > 0 && chars[n - 1] == c
        invariant
            chars@ == s@,
            n <= s@.len(),
            trimmed_end_of(s@, c) == trimmed_end_of(s@.take(n as int), c),
        decreases n,
    {
        assert(s@.take(n as int).drop_last() =~= s@.take(n - 1));
        n = n - 1;
    }
    split_at_char(s, n).0
}

/// No character takes less than a byte.
pub proof fn lemma_byte_len_at_least(s: Seq<char>)
    ensures
        byte_len(s) >= s.len(),
    decreases s.len(),
{
    if s.len() > 0 {
        lemma_byte_len_at_least(s.drop_first());
    }
}

/// Trimming the front leaves a tail.
pub proof fn lemma_trimmed_start(s: Seq<char>)
    ensures
        trimmed_start(s).len() <= s.len(),
        trimmed_start(s) == s.skip(s.len() - trimmed_start(s).len()),
        byte_len(trimmed_start(s)) <= byte_len(s),
    decreases s.len(),
{
    if s.len() > 0 && is_white_space(s[0]) {
        lemma_trimmed_start(s.drop_first());
        assert(trimmed_start(s) =~= s.skip(s.len() - trimmed_start(s).len()));
    } else {
        assert(s.skip(0) =~= s);
    }
}

/// Trimming spaces off the end leaves a prefix, shorter by a byte for each.
pub proof fn lemma_trimmed_spaces(s: Seq<char>)
    ensures
        trimmed_end_of(s, ' ').len() <= s.len(),
        trimmed_end_of(s, ' ') == s.take(trimmed_end_of(s, ' ').len() as int),
        byte_len(s) - byte_len(trimmed_end_of(s, ' ')) == s.len() - trimmed_end_of(s, ' ').len(),
    decreases s.len(),
{
    if s.len() > 0 && s.last() == ' ' {
        lemma_trimmed_spaces(s.drop_last());
        assert(s =~= s.drop_last() + seq![' ']);
        lemma_encode_concat(s.drop_last(), seq![' ']);
        lemma_byte_len_one(' ');
        assert(trimmed_end_of(s, ' ') =~= s.take(trimmed_end_of(s, ' ').len() as int));
    } else {
        assert(s.take(s.len() as int) =~= s);
    }
}

/// Position of the first `c` in `s`; the length of `s` where there is none.
pub open spec fn find_char(s: Seq<char>, c: char) -> nat
    decreases s.len(),
{
    if s.len() == 0 || s[0] == c {
        0
    } else {
        1 + find_char(s.drop_first(), c)
    }
}

/// What makes a position the one of the first `c`.
pub proof fn lemma_find_char(s: Seq<char>, c: char)
    ensures
        find_char(s, c) <= s.len(),
        find_char(s, c) < s.len() ==> s[find_char(s, c) as int] == c,
        forall|k: int| 0 <= k < find_char(s, c) ==> s[k] != c,
        s.contains(c) <==> find_char(s, c) < s.len(),
    decreases s.len(),
{
    if s.len() > 0 && s[0] != c {
        let t = s.drop_first();
        lemma_find_char(t, c);
        assert forall|k: int| 0 <= k < find_char(s, c) implies s[k] != c by {
            if k > 0 {
                assert(s[k] == t[k - 1]);
            }
        }
        if s.contains(c) {
            let i = s.index_of(c);
            assert(t[i - 1] == c);
        }
    }
}

/// Position of the first `c` in `s`; the number of characters of `s` where
/// there is none.
pub fn find(s: &[char], c: char) -> (r: usize)
    ensures
        r == find_char(s@, c),
        r <= s@.len(),
        s@.contains(c) <==> r < s@.len(),
{
    let mut i: usize = 0;
    assert(s@.skip(0) =~= s@);
    while i < s.len() && s[i] != c
        invariant
            i <= s@.len(),
            find_char(s@, c) == i + find_char(s@.skip(i as int), c),
        decreases s.len() - i,
    {
        assert(s@.skip(i as int).drop_first() =~= s@.skip(i + 1));
        i = i + 1;
    }
    proof {
        lemma_find_char(s@, c);
    }
    i
}

/// `line` without one trailing carriage return.
pub open spec fn without_cr(line: Seq<char>) -> Seq<char> {
    if line.len() > 0 && line.last() == '\r' {
        line.drop_last()
    } else {
        line
    }
}

/// The lines of `s`. A line ends at `\n`, or at `\r\n`, and the ending is not
/// part of it; the last line need not have one.
pub open spec fn lines_of(s: Seq<char>) -> Seq<Seq<char>>
    decreases s.len(),
{
    let n = find_char(s, '\n') as int;
    if s.len() == 0 {
        Seq::empty()
    } else if n >= s.len() {
        seq![s]
    } else {
        seq![without_cr(s.take(n))] + lines_of(s.skip(n + 1))
    }
}

/// The lines of `text`.
pub fn lines(text: &str) -> (r: Vec<&str>)
    ensures
        r.deep_view() == lines_of(text@),
{
    let chars = char_vec(text);
    let mut r: Vec<&str> = Vec::new();
    let mut rest: &str = text;
    let mut start: usize = 0;
    assert(text@.skip(0) =~= text@);
    assert(r.deep_view() + lines_of(text@) =~= lines_of(text@));
    while start < chars.len()
        invariant
            chars@ == text@,
            start <= text@.len(),
            rest@ == text@.skip(start as int),
            r.deep_view() + lines_of(rest@) == lines_of(text@),
        decreases chars.len() - start,
    {
        let n: usize = find(vstd::slice::slice_subrange(chars.as_slice(), start, chars.len()), '\n');
        let ghost before = r.deep_view();
        let ghost tail = rest@;
        if n == chars.len() - start {
            r.push(rest);
            rest = split_at_char(rest, n).1;
            start = chars.len();
            assert(r.deep_view() =~= before + seq![tail]);
            assert(lines_of(rest@) =~= Seq::empty());
        } else {
            let (line, after) = split_at_char(rest, n);
            let kept: &str = if n > 0 && chars[start + n - 1] == '\r' {
                split_at_char(line, n - 1).0
            } else {
                line
            };
            r.push(kept);
            rest = split_at_char(after, 1).1;
            start = start + n + 1;
            assert(kept@ =~= without_cr(tail.take(n as int)));
            assert(rest@ =~= tail.skip(n + 1));
            assert(r.deep_view() =~= before + seq![kept@]);
        }
        assert(r.deep_view() + lines_of(rest@) =~= before + lines_of(tail));
    }
    assert(lines_of(rest@) =~= Seq::empty());
    assert(r.deep_view() + lines_of(rest@) =~= r.deep_view());
    r
}

/// `c`, in lower case where it is an ASCII letter.
pub open spec fn ascii_lower(c: char) -> char {
    if 'A' <= c <= 'Z' {
        (c as u32 + 32) as char
    } else {
        c
    }
}

/// `s` with its ASCII letters in lower case.
pub open spec fn ascii_lowered(s: Seq<char>) -> Seq<char> {
    s.map_values(|c: char| ascii_lower(c))
}

/// Whether `a` and `b` differ at most in the case of ASCII letters.
pub open spec fn same_ignoring_case(a: Seq<char>, b: Seq<char>) -> bool {
    ascii_lowered(a) == ascii_lowered(b)
}

/// `c`, in lower case where it is an ASCII letter.
pub fn lower_char(c: char) -> (r: char)
    ensures
        r == ascii_lower(c),
{
    if 'A' <= c && c <= 'Z' {
        (c as u8 + 32) as char
    } else {
        c
    }
}

/// Whether `a` and `b` differ at most in the case of ASCII letters.
pub fn eq_ignore_ascii_case(a: &str, b: &str) -> (r: bool)
    ensures
        r == same_ignoring_case(a@, b@),
{
    let x = char_vec(a);
    let y = char_vec(b);
    if x.len() != y.len() {
        assert(ascii_lowered(a@).len() != ascii_lowered(b@).len());
        return false;
    }
    let mut i: usize = 0;
    while i < x.len()
        invariant
            x@ == a@,
            y@ == b@,
            x@.len() == y@.len(),
            i <= x@.len(),
            forall|k: int| 0 <= k < i ==> ascii_lower(#[trigger] a@[k]) == ascii_lower(b@[k]),
        decreases x.len() - i,
    {
        if lower_char(x[i]) != lower_char(y[i]) {
            assert(ascii_lowered(a@)[i as int] != ascii_lowered(b@)[i as int]);
            return false;
        }
        i = i + 1;
    }
    assert(ascii_lowered(a@) =~= ascii_lowered(b@));
    true
}

/// Whether `a` and `b` are the same string.
pub fn str_eq(a: &str, b: &str) -> (r: bool)
    ensures
        r == (a@ == b@),
{
    let x = char_vec(a);
    let y = char_vec(b);
    if x.len() != y.len() {
        return false;
    }
    let mut i: usize = 0;
    while i < x.len()
        invariant
            x@ == a@,
            y@ == b@,
            x@.len() == y@.len(),
            i <= x@.len(),
            forall|k: int| 0 <= k < i ==> a@[k] == b@[k],
        decreases x.len() - i,
    {
        if x[i] != y[i] {
            return false;
        }
        i = i + 1;
    }
    assert(a@ =~= b@);
    true
}

/// `s` with its ASCII letters in lower case.
pub fn to_ascii_lowercase(s: &str) -> (r: String)
    ensures
        r@ == ascii_lowered(s@),
{
    let chars = char_vec(s);
    let alphabet: &str = "abcdefghijklmnopqrstuvwxyz";
    proof {
        reveal_strlit("abcdefghijklmnopqrstuvwxyz");
    }
    let mut r: String = String::new();
    let mut rest: &str = s;
    let mut i: usize = 0;
    while i < chars.len()
        invariant
            chars@ == s@,
            i <= s@.len(),
            rest@ == s@.skip(i as int),
            r@ == ascii_lowered(s@.take(i as int)),
            alphabet@.len() == 26,
            forall|k: int| 0 <= k < 26 ==> #[trigger] alphabet@[k] == (97 + k) as char,
        decreases chars.len() - i,
    {
        let (first, after) = split_at_char(rest, 1);
        let c = chars[i];
        if 'A' <= c && c <= 'Z' {
            let n: usize = (c as u32 - 'A' as u32) as usize;
            let letter = split_at_char(split_at_char(alphabet, n).1, 1).0;
            r.append(letter);
            assert(letter@ =~= seq![alphabet@[n as int]]);
        } else {
            r.append(first);
        }
        rest = after;
        i = i + 1;
        assert(rest@ =~= s@.skip(i as int));
        assert(r@ =~= ascii_lowered(s@.take(i as int)));
    }
    assert(s@.take(i as int) =~= s@);
    r
}

/// `n` copies of `c`.
pub open spec fn repeated(c: char, n: nat) -> Seq<char> {
    Seq::new(n, |_i: int| c)
}

/// The characters that are white space, by code point, and no others.
pub proof fn law_white_space(c: char)
    ensures
        is_white_space(c) <==> set![
            0x9u32,
            0xau32,
            0xbu32,
            0xcu32,
            0xdu32,
            0x20u32,
            0x85u32,
            0xa0u32,
            0x1680u32,
            0x2000u32,
            0x2001u32,
            0x2002u32,
            0x2003u32,
            0x2004u32,
            0x2005u32,
            0x2006u32,
            0x2007u32,
            0x2008u32,
            0x2009u32,
            0x200au32,
            0x2028u32,
            0x2029u32,
            0x202fu32,
            0x205fu32,
            0x3000u32
        ].contains(c as u32),
{
}

/// Trimming the front takes off white space, all of it and nothing else.
pub proof fn law_trim_start_takes_leading_white_space(before: Seq<char>, kept: Seq<char>)
    requires
        forall|i: int| 0 <= i < before.len() ==> is_white_space(#[trigger] before[i]),
        kept.len() > 0 ==> !is_white_space(kept[0]),
    ensures
        trimmed_start(before + kept) == kept,
    decreases before.len(),
{
    if before.len() == 0 {
        assert(before + kept =~= kept);
    } else {
        let rest = before.drop_first();
        assert forall|i: int| 0 <= i < rest.len() implies is_white_space(#[trigger] rest[i]) by {
            assert(rest[i] == before[i + 1]);
        }
        assert(is_white_space(before[0]));
        law_trim_start_takes_leading_white_space(rest, kept);
        assert((before + kept).drop_first() =~= rest + kept);
    }
}

/// Trimming the end takes off white space, all of it and nothing else.
pub proof fn law_trim_end_takes_trailing_white_space(kept: Seq<char>, behind: Seq<char>)
    requires
        forall|i: int| 0 <= i < behind.len() ==> is_white_space(#[trigger] behind[i]),
        kept.len() > 0 ==> !is_white_space(kept.last()),
    ensures
        trimmed_end(kept + behind) == kept,
    decreases behind.len(),
{
    if behind.len() == 0 {
        assert(kept + behind =~= kept);
    } else {
        let rest = behind.drop_last();
        assert forall|i: int| 0 <= i < rest.len() implies is_white_space(#[trigger] rest[i]) by {
            assert(rest[i] == behind[i]);
        }
        assert(is_white_space(behind[behind.len() - 1]));
        law_trim_end_takes_trailing_white_space(kept, rest);
        assert((kept + behind).drop_last() =~= kept + rest);
    }
}

/// Trimming takes white space off both ends, and leaves what stands inside.
pub proof fn law_trim_takes_white_space_at_both_ends(
    before: Seq<char>,
    kept: Seq<char>,
    behind: Seq<char>,
)
    requires
        forall|i: int| 0 <= i < before.len() ==> is_white_space(#[trigger] before[i]),
        forall|i: int| 0 <= i < behind.len() ==> is_white_space(#[trigger] behind[i]),
        kept.len() > 0 ==> !is_white_space(kept[0]) && !is_white_space(kept.last()),
    ensures
        trimmed(before + kept + behind) == kept,
{
    if kept.len() > 0 {
        assert(before + kept + behind =~= before + (kept + behind));
        law_trim_start_takes_leading_white_space(before, kept + behind);
        law_trim_end_takes_trailing_white_space(kept, behind);
    } else {
        let whole = before + kept + behind;
        assert forall|i: int| 0 <= i < whole.len() implies is_white_space(#[trigger] whole[i]) by {
            if i < before.len() {
                assert(whole[i] == before[i]);
            } else {
                assert(whole[i] == behind[i - before.len()]);
            }
        }
        assert(whole + Seq::<char>::empty() =~= whole);
        law_trim_start_takes_leading_white_space(whole, Seq::empty());
    }
}

/// Trimming one character off the end takes off every copy of it there, and
/// nothing else.
pub proof fn law_trim_end_matches_takes_copies(kept: Seq<char>, c: char, n: nat)
    requires
        kept.len() > 0 ==> kept.last() != c,
    ensures
        trimmed_end_of(kept + repeated(c, n), c) == kept,
    decreases n,
{
    let whole = kept + repeated(c, n);
    if n == 0 {
        assert(whole =~= kept);
    } else {
        law_trim_end_matches_takes_copies(kept, c, (n - 1) as nat);
        assert(whole.drop_last() =~= kept + repeated(c, (n - 1) as nat));
    }
}

/// A line ends at the first `\n`, or at the `\r\n` that this belongs to, and
/// the lines behind it are those of the rest. Nothing ends the last line but
/// the end of the text, and a text that ends in `\n` has no empty line there.
pub proof fn law_lines_end_at_newlines(line: Seq<char>, rest: Seq<char>)
    requires
        !line.contains('\n'),
    ensures
        lines_of(Seq::empty()) == Seq::<Seq<char>>::empty(),
        line.len() > 0 ==> lines_of(line) == seq![line],
        !(line.len() > 0 && line.last() == '\r') ==> lines_of(line + seq!['\n'] + rest)
            == seq![line] + lines_of(rest),
        lines_of(line + seq!['\r', '\n'] + rest) == seq![line] + lines_of(rest),
{
    lemma_find_char(line, '\n');
    let a = line + seq!['\n'] + rest;
    lemma_first_at(a, '\n', line.len() as int);
    assert(a.take(line.len() as int) =~= line);
    assert(a.skip(line.len() as int + 1) =~= rest);
    let b = line + seq!['\r', '\n'] + rest;
    lemma_first_at(b, '\n', line.len() as int + 1);
    assert(b.take(line.len() as int + 1) =~= line + seq!['\r']);
    assert(without_cr(line + seq!['\r']) =~= line);
    assert(b.skip(line.len() as int + 2) =~= rest);
}

/// A position that holds `c` and has none before it is the one of the first.
pub proof fn lemma_first_at(s: Seq<char>, c: char, n: int)
    requires
        0 <= n < s.len(),
        s[n] == c,
        forall|k: int| 0 <= k < n ==> s[k] != c,
    ensures
        find_char(s, c) == n,
{
    lemma_find_char(s, c);
    assert(s.contains(c));
}

/// Two strings are the same but for case where each pair of characters is the
/// same, or one of the pair is an ASCII capital and the other its small letter.
pub proof fn law_case_of_ascii_letters_alone_is_ignored(a: Seq<char>, b: Seq<char>)
    ensures
        same_ignoring_case(a, b) <==> a.len() == b.len() && forall|i: int|
            0 <= i < a.len() ==> #[trigger] a[i] == b[i] || ('A' <= a[i] <= 'Z' && b[i] as int
                == a[i] as int + 32) || ('A' <= b[i] <= 'Z' && a[i] as int == b[i] as int + 32),
{
    let x = ascii_lowered(a);
    let y = ascii_lowered(b);
    if x == y {
        assert(x.len() == a.len() && y.len() == b.len());
        assert forall|i: int| 0 <= i < a.len() implies #[trigger] a[i] == b[i] || ('A' <= a[i]
            <= 'Z' && b[i] as int == a[i] as int + 32) || ('A' <= b[i] <= 'Z' && a[i] as int
            == b[i] as int + 32) by {
            assert(x[i] == y[i]);
            lemma_same_letter(a[i], b[i]);
        }
    }
    if a.len() == b.len() && forall|i: int|
        0 <= i < a.len() ==> #[trigger] a[i] == b[i] || ('A' <= a[i] <= 'Z' && b[i] as int
            == a[i] as int + 32) || ('A' <= b[i] <= 'Z' && a[i] as int == b[i] as int + 32) {
        assert forall|i: int| 0 <= i < x.len() implies x[i] == y[i] by {
            assert(a[i] == b[i] || ('A' <= a[i] <= 'Z' && b[i] as int == a[i] as int + 32) || ('A'
                <= b[i] <= 'Z' && a[i] as int == b[i] as int + 32));
            lemma_same_letter(a[i], b[i]);
        }
        assert(x =~= y);
    }
}

proof fn lemma_same_letter(a: char, b: char)
    ensures
        ascii_lower(a) == ascii_lower(b) <==> a == b || ('A' <= a <= 'Z' && b as int == a as int
            + 32) || ('A' <= b <= 'Z' && a as int == b as int + 32),
{
}

/// Lower case moves the ASCII capitals to their small letters, each in its
/// place, and changes nothing else.
pub proof fn law_lower_case_changes_ascii_capitals_alone(s: Seq<char>)
    ensures
        ascii_lowered(s).len() == s.len(),
        forall|i: int|
            0 <= i < s.len() ==> if 'A' <= #[trigger] s[i] <= 'Z' {
                ascii_lowered(s)[i] as int == s[i] as int + 32
            } else {
                ascii_lowered(s)[i] == s[i]
            },
{
}

} // verus!
