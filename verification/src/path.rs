//! File paths as lists of components, and a collection of texts keyed by them.

use vstd::prelude::*;
use crate::text;

verus! {

/// A path, as its components. The root directory is the component `/`.
#[derive(Debug)]
pub struct FilePath {
    pub components: Vec<String>,
}

impl View for FilePath {
    type V = Seq<Seq<char>>;

    open spec fn view(&self) -> Seq<Seq<char>> {
        self.components.deep_view()
    }
}

/// The components named in `s`, which is what is left of a path behind its
/// root. Empty names are dropped, and so is `.`, but for one that begins a
/// relative path.
pub open spec fn names_in(s: Seq<char>, begins_path: bool) -> Seq<Seq<char>>
    decreases s.len(),
{
    let n = text::find_char(s, '/') as int;
    let name = if n < s.len() {
        s.take(n)
    } else {
        s
    };
    let rest = if n < s.len() {
        names_in(s.skip(n + 1), false)
    } else {
        Seq::empty()
    };
    if name.len() == 0 || (name == seq!['.'] && !begins_path) {
        rest
    } else {
        seq![name] + rest
    }
}

/// The components of the path written `s`.
pub open spec fn components_of(s: Seq<char>) -> Seq<Seq<char>> {
    if s.len() > 0 && s[0] == '/' {
        seq![seq!['/']] + names_in(s.skip(1), false)
    } else {
        names_in(s, true)
    }
}

/// The directory that holds `p`. The root has none, nor has the empty path.
pub open spec fn parent_of(p: Seq<Seq<char>>) -> Option<Seq<Seq<char>>> {
    if p.len() == 0 || p.last() == seq!['/'] {
        None
    } else {
        Some(p.drop_last())
    }
}

/// `names` with `/` between them.
pub open spec fn slash_joined(names: Seq<Seq<char>>) -> Seq<char>
    decreases names.len(),
{
    if names.len() == 0 {
        Seq::empty()
    } else if names.len() == 1 {
        names[0]
    } else {
        slash_joined(names.drop_last()) + seq!['/'] + names.last()
    }
}

/// `path` relative to `dir`, with `/` between the names, where it lies in it.
pub open spec fn relative_to(dir: Seq<Seq<char>>, path: Seq<Seq<char>>) -> Option<Seq<char>> {
    if dir.is_prefix_of(path) {
        Some(slash_joined(path.skip(dir.len() as int)))
    } else {
        None
    }
}

impl FilePath {
    /// The path written `s`, with `/` between its components.
    pub fn new(s: &str) -> (r: FilePath)
        ensures
            r@ == components_of(s@),
    {
        let chars = text::char_vec(s);
        let mut components: Vec<String> = Vec::new();
        let mut rest: &str = s;
        let mut start: usize = 0;
        let mut begins_path = true;
        if chars.len() > 0 && chars[0] == '/' {
            components.push("/".to_owned());
            rest = text::split_at_char(s, 1).1;
            start = 1;
            begins_path = false;
            proof {
                reveal_strlit("/");
                assert("/"@ =~= seq!['/']);
                assert(components.deep_view() =~= seq![seq!['/']]);
            }
        } else {
            assert(s@.skip(0) =~= s@);
            assert(components.deep_view() + names_in(s@, true) =~= names_in(s@, true));
        }
        let mut done = false;
        while !done
            invariant
                chars@ == s@,
                start <= s@.len(),
                rest@ == s@.skip(start as int),
                !done ==> components.deep_view() + names_in(rest@, begins_path) == components_of(s@),
                done ==> components.deep_view() == components_of(s@),
            decreases (s@.len() - start) + if done {
                0int
            } else {
                1int
            },
        {
            let n: usize = text::find(
                vstd::slice::slice_subrange(chars.as_slice(), start, chars.len()),
                '/',
            );
            let (name, after) = text::split_at_char(rest, n);
            let ghost before = components.deep_view();
            let ghost tail = rest@;
            let ghost lead = begins_path;
            let dot = n == 1 && chars[start] == '.';
            proof {
                assert(tail.take(tail.len() as int) =~= tail);
                assert((name@ == seq!['.']) <==> dot) by {
                    if dot {
                        assert(name@ =~= seq!['.']);
                    } else if name@ == seq!['.'] {
                        assert(name@.len() == 1);
                        assert(name@[0] == chars@[start as int]);
                    }
                }
            }
            if n > 0 && !(dot && !begins_path) {
                components.push(name.to_owned());
                assert(components.deep_view() =~= before + seq![name@]);
            }
            if n < chars.len() - start {
                rest = text::split_at_char(after, 1).1;
                start = start + n + 1;
                begins_path = false;
                assert(rest@ =~= tail.skip(n + 1));
                assert(components.deep_view() + names_in(rest@, false) =~= before + names_in(
                    tail,
                    lead,
                ));
            } else {
                done = true;
                assert(components.deep_view() =~= before + names_in(tail, lead));
            }
        }
        FilePath { components }
    }

    /// The path with these components.
    pub fn from_components(components: Vec<String>) -> (r: FilePath)
        ensures
            r@ == components.deep_view(),
    {
        FilePath { components }
    }

    /// The first `n` components.
    fn prefix(&self, n: usize) -> (r: FilePath)
        requires
            n <= self@.len(),
        ensures
            r@ == self@.take(n as int),
    {
        let mut components: Vec<String> = Vec::new();
        let mut i: usize = 0;
        while i < n
            invariant
                i <= n <= self@.len(),
                components.deep_view() == self@.take(i as int),
            decreases n - i,
        {
            let ghost before = components.deep_view();
            components.push(self.components[i].clone());
            proof {
                assert(components.deep_view() =~= before.push(self.components@[i as int]@));
                assert(self@[i as int] == self.components@[i as int]@);
                assert(components.deep_view() =~= self@.take(i + 1));
            }
            i = i + 1;
        }
        FilePath { components }
    }

    /// A copy of this path.
    pub fn duplicate(&self) -> (r: FilePath)
        ensures
            r@ == self@,
    {
        assert(self@.take(self@.len() as int) =~= self@);
        self.prefix(self.components.len())
    }

    /// The directory that holds this path, if any does.
    pub fn parent(&self) -> (r: Option<FilePath>)
        ensures
            r is Some <==> parent_of(self@) is Some,
            r is Some ==> r->0@ == parent_of(self@)->0,
    {
        let n: usize = self.components.len();
        proof {
            reveal_strlit("/");
            assert("/"@ =~= seq!['/']);
        }
        if n == 0 || text::str_eq(self.components[n - 1].as_str(), "/") {
            None
        } else {
            assert(self@.take(n - 1) =~= self@.drop_last());
            Some(self.prefix(n - 1))
        }
    }

    /// This path with `name` behind it.
    pub fn join(&self, name: &str) -> (r: FilePath)
        ensures
            r@ == self@.push(name@),
    {
        let mut r = self.duplicate();
        r.components.push(name.to_owned());
        assert(r@ =~= self@.push(name@));
        r
    }

    /// Whether this path begins with the components of `dir`.
    pub fn starts_with(&self, dir: &FilePath) -> (r: bool)
        ensures
            r == dir@.is_prefix_of(self@),
    {
        if dir.components.len() > self.components.len() {
            return false;
        }
        let mut i: usize = 0;
        while i < dir.components.len()
            invariant
                i <= dir@.len() <= self@.len(),
                forall|k: int| 0 <= k < i ==> dir@[k] == self@[k],
            decreases dir@.len() - i,
        {
            assert(dir@[i as int] == dir.components@[i as int]@);
            assert(self@[i as int] == self.components@[i as int]@);
            if !text::str_eq(dir.components[i].as_str(), self.components[i].as_str()) {
                assert(self@.subrange(0, dir@.len() as int)[i as int] != dir@[i as int]);
                return false;
            }
            i = i + 1;
        }
        assert(dir@ =~= self@.subrange(0, dir@.len() as int));
        true
    }

    /// Whether this path and `other` have the same components.
    pub fn same_as(&self, other: &FilePath) -> (r: bool)
        ensures
            r == (self@ == other@),
    {
        let r = self.components.len() == other.components.len() && self.starts_with(other);
        assert(self@.subrange(0, self@.len() as int) =~= self@);
        r
    }
}

/// `path` relative to `config_dir`, with `/` separators. `None` when it does
/// not lie in that directory at all.
pub fn relative_slash_path(config_dir: &FilePath, path: &FilePath) -> (r: Option<String>)
    ensures
        r is Some <==> relative_to(config_dir@, path@) is Some,
        r is Some ==> r->0@ == relative_to(config_dir@, path@)->0,
{
    if !path.starts_with(config_dir) {
        return None;
    }
    let start: usize = config_dir.components.len();
    let ghost names = path@.skip(start as int);
    let mut r: String = String::new();
    let mut i: usize = start;
    proof {
        reveal_strlit("/");
        assert("/"@ =~= seq!['/']);
    }
    while i < path.components.len()
        invariant
            start <= i <= path@.len(),
            path@.len() == path.components@.len(),
            names == path@.skip(start as int),
            "/"@ == seq!['/'],
            r@ == slash_joined(names.take(i - start)),
        decreases path@.len() - i,
    {
        let ghost upto = names.take(i + 1 - start);
        assert(upto.drop_last() =~= names.take(i - start));
        if i > start {
            r.append("/");
        }
        r.append(path.components[i].as_str());
        assert(upto.last() == path.components@[i as int]@);
        assert(r@ =~= slash_joined(upto));
        i = i + 1;
    }
    assert(names.take(i - start) =~= names);
    Some(r)
}

/// Texts keyed by path; putting a text under a path replaces the one there.
#[derive(Debug)]
pub struct ConfigFiles {
    entries: Vec<(FilePath, String)>,
}

/// What `entries` hold, the later of two under one path counting.
spec fn entries_map(entries: Seq<(FilePath, String)>) -> Map<Seq<Seq<char>>, Seq<char>>
    decreases entries.len(),
{
    if entries.len() == 0 {
        Map::empty()
    } else {
        entries_map(entries.drop_last()).insert(entries.last().0@, entries.last().1@)
    }
}

impl View for ConfigFiles {
    type V = Map<Seq<Seq<char>>, Seq<char>>;

    closed spec fn view(&self) -> Map<Seq<Seq<char>>, Seq<char>> {
        entries_map(self.entries@)
    }
}

impl ConfigFiles {
    /// No texts.
    pub fn new() -> (r: ConfigFiles)
        ensures
            r@ == Map::<Seq<Seq<char>>, Seq<char>>::empty(),
    {
        ConfigFiles { entries: Vec::new() }
    }

    /// Puts `text` under `path`.
    pub fn insert(&mut self, path: FilePath, text: String)
        ensures
            final(self)@ == old(self)@.insert(path@, text@),
    {
        self.entries.push((path, text));
        assert(self.entries@.drop_last() =~= old(self).entries@);
    }

    /// The text under `path`, if there is one.
    pub fn get(&self, path: &FilePath) -> (r: Option<&String>)
        ensures
            r is Some <==> self@.contains_key(path@),
            r is Some ==> r->0@ == self@[path@],
    {
        let mut n: usize = self.entries.len();
        assert(self.entries@.take(n as int) =~= self.entries@);
        while n > 0
            invariant
                n <= self.entries@.len(),
                self@.contains_key(path@) == entries_map(self.entries@.take(n as int)).contains_key(
                    path@,
                ),
                self@.contains_key(path@) ==> self@[path@] == entries_map(
                    self.entries@.take(n as int),
                )[path@],
            decreases n,
        {
            let ghost upto = self.entries@.take(n as int);
            assert(upto.drop_last() =~= self.entries@.take(n - 1));
            if self.entries[n - 1].0.same_as(path) {
                return Some(&self.entries[n - 1].1);
            }
            n = n - 1;
        }
        None
    }
}

/// A path relative to its directory holds every component behind that
/// directory, in order, with one `/` between two neighbours; the directory
/// itself comes to nothing.
pub proof fn law_relative_path_holds_every_component(
    dir: Seq<Seq<char>>,
    name: Seq<char>,
    a: Seq<Seq<char>>,
    b: Seq<Seq<char>>,
)
    ensures
        relative_to(dir, dir) == Some(Seq::<char>::empty()),
        relative_to(dir, dir.push(name)) == Some(name),
        a.len() > 0 && b.len() > 0 ==> relative_to(dir, dir + a + b) == Some(
            relative_to(dir, dir + a)->0 + seq!['/'] + relative_to(dir, dir + b)->0,
        ),
{
    lemma_relative_behind(dir, Seq::empty());
    assert(dir + Seq::<Seq<char>>::empty() =~= dir);
    lemma_relative_behind(dir, seq![name]);
    assert(dir + seq![name] =~= dir.push(name));
    lemma_relative_behind(dir, a);
    lemma_relative_behind(dir, b);
    lemma_relative_behind(dir, a + b);
    assert(dir + (a + b) =~= dir + a + b);
    if a.len() > 0 && b.len() > 0 {
        lemma_joined_in_two(a, b);
    }
}

/// There is a path relative to `dir` where the path begins with the components
/// of `dir`, and nowhere else.
pub proof fn law_relative_path_needs_the_directory(dir: Seq<Seq<char>>, path: Seq<Seq<char>>)
    ensures
        relative_to(dir, path) is Some <==> exists|names: Seq<Seq<char>>|
            path == #[trigger] (dir + names),
{
    if relative_to(dir, path) is Some {
        let names = path.skip(dir.len() as int);
        assert(path.subrange(0, dir.len() as int) == dir);
        assert(path =~= dir + names);
    }
    if exists|names: Seq<Seq<char>>| path == #[trigger] (dir + names) {
        let names = choose|names: Seq<Seq<char>>| path == #[trigger] (dir + names);
        lemma_relative_behind(dir, names);
    }
}

proof fn lemma_relative_behind(dir: Seq<Seq<char>>, names: Seq<Seq<char>>)
    ensures
        relative_to(dir, dir + names) == Some(slash_joined(names)),
{
    let path = dir + names;
    assert(path.subrange(0, dir.len() as int) =~= dir);
    assert(path.skip(dir.len() as int) =~= names);
}

proof fn lemma_joined_in_two(a: Seq<Seq<char>>, b: Seq<Seq<char>>)
    requires
        a.len() > 0,
        b.len() > 0,
    ensures
        slash_joined(a + b) == slash_joined(a) + seq!['/'] + slash_joined(b),
    decreases b.len(),
{
    let whole = a + b;
    if b.len() == 1 {
        assert(whole.drop_last() =~= a);
    } else {
        lemma_joined_in_two(a, b.drop_last());
        assert(whole.drop_last() =~= a + b.drop_last());
        assert(slash_joined(whole) =~= slash_joined(a) + seq!['/'] + slash_joined(b));
    }
}

/// The directory that holds a path is the path without its last name. The root
/// has none, nor has the empty path.
pub proof fn law_parent_drops_the_last_name(dir: Seq<Seq<char>>, name: Seq<char>)
    ensures
        name != seq!['/'] ==> parent_of(dir.push(name)) == Some(dir),
        parent_of(dir.push(seq!['/'])) is None,
        parent_of(Seq::empty()) is None,
{
    assert(dir.push(name).drop_last() =~= dir);
}

/// Each name behind a `/` is a component more. Nothing between two `/`s, or
/// behind the last, is no component, nor is `.` but at the very beginning; a
/// `/` at the very beginning is the root.
pub proof fn law_components_are_the_names(path: Seq<char>, name: Seq<char>)
    requires
        name.len() > 0,
        !name.contains('/'),
    ensures
        components_of(Seq::empty()) == Seq::<Seq<char>>::empty(),
        components_of(seq!['/']) == seq![seq!['/']],
        components_of(name) == seq![name],
        path.len() > 0 ==> components_of(path + seq!['/']) == components_of(path),
        ({
            let before = if path.len() > 0 {
                components_of(path)
            } else {
                seq![seq!['/']]
            };
            components_of(path + seq!['/'] + name) == if name == seq!['.'] {
                before
            } else {
                before.push(name)
            }
        }),
{
    let none = Seq::<char>::empty();
    let root = seq![seq!['/']];
    assert(names_in(none, true) =~= Seq::empty());
    assert(names_in(none, false) =~= Seq::empty());
    assert(seq!['/'].skip(1) =~= none);
    assert(components_of(seq!['/']) =~= root);
    text::lemma_find_char(name, '/');
    assert(name.contains(name[0]));
    assert(names_in(name, true) =~= seq![name]);
    assert(path + seq!['/'] + none =~= path + seq!['/']);
    if path.len() == 0 {
        let whole = path + seq!['/'] + name;
        assert(whole.skip(1) =~= name);
        assert(components_of(whole) =~= if name == seq!['.'] {
            root
        } else {
            root.push(name)
        });
    } else {
        lemma_components_behind(path, name);
        lemma_components_behind(path, none);
        assert(components_of(path) + names_in(none, false) =~= components_of(path));
        assert(components_of(path) + names_in(name, false) =~= if name == seq!['.'] {
            components_of(path)
        } else {
            components_of(path).push(name)
        });
    }
}

/// No component of a path is empty or holds a `/`, but for the root in front.
pub proof fn law_components_hold_no_slash(s: Seq<char>, k: int)
    requires
        0 <= k < components_of(s).len(),
    ensures
        components_of(s)[k].len() > 0,
        components_of(s)[k].contains('/') ==> k == 0 && components_of(s)[k] == seq!['/'],
{
    if s.len() > 0 && s[0] == '/' {
        if k > 0 {
            lemma_names_hold_no_slash(s.skip(1), false, k - 1);
        }
    } else {
        lemma_names_hold_no_slash(s, true, k);
    }
}

proof fn lemma_names_hold_no_slash(s: Seq<char>, begins_path: bool, k: int)
    requires
        0 <= k < names_in(s, begins_path).len(),
    ensures
        names_in(s, begins_path)[k].len() > 0,
        !names_in(s, begins_path)[k].contains('/'),
    decreases s.len(),
{
    let n = text::find_char(s, '/') as int;
    text::lemma_find_char(s, '/');
    let name = if n < s.len() {
        s.take(n)
    } else {
        s
    };
    assert(!name.contains('/')) by {
        if name.contains('/') {
            assert(s[name.index_of('/')] == '/');
        }
    }
    let kept = name.len() > 0 && (name != seq!['.'] || begins_path);
    if n < s.len() {
        if !kept {
            lemma_names_hold_no_slash(s.skip(n + 1), false, k);
        } else if k > 0 {
            lemma_names_hold_no_slash(s.skip(n + 1), false, k - 1);
        }
    }
}

proof fn lemma_components_behind(path: Seq<char>, more: Seq<char>)
    requires
        path.len() > 0,
    ensures
        components_of(path + seq!['/'] + more) == components_of(path) + names_in(more, false),
{
    let whole = path + seq!['/'] + more;
    if path[0] == '/' {
        lemma_names_behind(path.skip(1), more, false);
        assert(whole.skip(1) =~= path.skip(1) + seq!['/'] + more);
        assert(components_of(whole) =~= components_of(path) + names_in(more, false));
    } else {
        lemma_names_behind(path, more, true);
    }
}

proof fn lemma_names_behind(s: Seq<char>, more: Seq<char>, begins_path: bool)
    ensures
        names_in(s + seq!['/'] + more, begins_path) == names_in(s, begins_path) + names_in(
            more,
            false,
        ),
    decreases s.len(),
{
    let whole = s + seq!['/'] + more;
    let n = text::find_char(s, '/') as int;
    text::lemma_find_char(s, '/');
    assert(whole[s.len() as int] == '/');
    assert(forall|k: int| 0 <= k < n ==> whole[k] == s[k]);
    text::lemma_first_at(whole, '/', n);
    if n < s.len() {
        let rest = s.skip(n + 1);
        lemma_names_behind(rest, more, false);
        assert(whole.skip(n + 1) =~= rest + seq!['/'] + more);
        assert(whole.take(n) =~= s.take(n));
    } else {
        assert(whole.skip(n + 1) =~= more);
        assert(whole.take(n) =~= s);
    }
    assert(names_in(whole, begins_path) =~= names_in(s, begins_path) + names_in(more, false));
}

} // verus!
