//! Which files count for a path, and how what they set comes together.

use vstd::prelude::*;
use super::{Config, WalkState};
use crate::path;
use crate::text;

verus! {

/// What a chain of files sets is what its nearest file makes of all that the
/// others, however many, set without it. No files set nothing.
pub proof fn law_nearest_file_is_read_behind_all_the_others(
    nearest: Config,
    outer: Seq<Config>,
    path: Seq<Seq<char>>,
)
    ensures
        super::after_chain(seq![nearest] + outer, path) == super::after_file(
            super::after_chain(outer, path),
            nearest.dir,
            nearest.text,
            path,
        ),
        super::after_chain(Seq::empty(), path) == super::no_raw(),
{
    assert((seq![nearest] + outer).drop_first() =~= outer);
}

/// Whether no line of any of the files is a pair with the key `key`.
pub open spec fn none_names(chain: Seq<Config>, key: Seq<char>) -> bool {
    forall|f: int, i: int|
        0 <= f < chain.len() && 0 <= i < text::lines_of(chain[f].text).len()
            ==> !super::laws::names(#[trigger] text::lines_of(chain[f].text)[i], key)
}

/// A property that none of the nearest files names is inherited from the files
/// further out, whatever the number of either.
pub proof fn law_unnamed_property_is_inherited(
    nearer: Seq<Config>,
    outer: Seq<Config>,
    path: Seq<Seq<char>>,
    key: Seq<char>,
)
    requires
        none_names(nearer, key),
    ensures
        super::laws::same_property(
            super::after_chain(nearer + outer, path),
            super::after_chain(outer, path),
            key,
        ),
    decreases nearer.len(),
{
    if nearer.len() == 0 {
        assert(nearer + outer =~= outer);
    } else {
        let first = nearer[0];
        let others = nearer.drop_first();
        assert forall|f: int, i: int|
            0 <= f < others.len() && 0 <= i < text::lines_of(
                others[f].text,
            ).len() implies !super::laws::names(#[trigger] text::lines_of(others[f].text)[i], key) by {
            assert(others[f] == nearer[f + 1]);
            assert(!super::laws::names(text::lines_of(nearer[f + 1].text)[i], key));
        }
        law_unnamed_property_is_inherited(others, outer, path, key);
        law_nearest_file_is_read_behind_all_the_others(first, others + outer, path);
        assert(nearer + outer =~= seq![first] + (others + outer));
        super::laws::law_unnamed_property_is_kept(
            super::after_chain(others + outer, path),
            first.dir,
            first.text,
            path,
            key,
        );
    }
}

/// The number of components of the outermost directory of `path`: the root, or
/// for a relative path the directory that this is relative to.
pub open spec fn outermost(path: Seq<Seq<char>>) -> int {
    if path.len() > 0 && path[0] == seq!['/'] {
        1
    } else {
        0
    }
}

/// Whether the directory of the first `k` components of `path` holds a file.
pub open spec fn has_file(
    files: Map<Seq<Seq<char>>, Seq<char>>,
    path: Seq<Seq<char>>,
    k: int,
) -> bool {
    files.contains_key(path.take(k).push(".editorconfig"@))
}

/// The file in the directory of the first `k` components of `path`.
pub open spec fn file_at(
    files: Map<Seq<Seq<char>>, Seq<char>>,
    path: Seq<Seq<char>>,
    k: int,
) -> Config {
    Config { dir: path.take(k), text: files[path.take(k).push(".editorconfig"@)] }
}

/// Whether the directory of the first `k` components of `path` holds a file
/// that counts, looking out from the directory of the first `n`: no file
/// between the two declares itself the outermost.
pub open spec fn counts(
    files: Map<Seq<Seq<char>>, Seq<char>>,
    path: Seq<Seq<char>>,
    n: int,
    k: int,
) -> bool {
    &&& outermost(path) <= k <= n
    &&& has_file(files, path, k)
    &&& forall|m: int|
        k < m <= n && #[trigger] has_file(files, path, m) ==> !super::declares_root(
            file_at(files, path, m).text,
        )
}

/// Whether `chain` is all the files that count, looking out from the directory
/// of the first `n` components of `path`, and no others, nearest first.
pub open spec fn is_chain(
    files: Map<Seq<Seq<char>>, Seq<char>>,
    path: Seq<Seq<char>>,
    n: int,
    chain: Seq<Config>,
) -> bool {
    &&& forall|i: int|
        0 <= i < chain.len() ==> counts(files, path, n, (#[trigger] chain[i]).dir.len() as int)
            && chain[i] == file_at(files, path, chain[i].dir.len() as int)
    &&& forall|k: int| #[trigger]
        counts(files, path, n, k) ==> exists|i: int|
            0 <= i < chain.len() && (#[trigger] chain[i]).dir.len() == k
    &&& forall|i: int, j: int|
        0 <= i < j < chain.len() ==> (#[trigger] chain[i]).dir.len() > (
        #[trigger] chain[j]).dir.len()
}

/// Whether only the first component of `path` may be the root.
pub open spec fn is_plain_path(path: Seq<Seq<char>>) -> bool {
    forall|k: int| 1 <= k < path.len() ==> #[trigger] path[k] != seq!['/']
}

/// The walk from a path's directory finds every file up to and with the first
/// that declares itself the outermost, and no others, nearest first.
pub proof fn law_walk_finds_every_file_up_to_the_root(
    files: Map<Seq<Seq<char>>, Seq<char>>,
    path: Seq<Seq<char>>,
)
    requires
        is_plain_path(path),
    ensures
        is_chain(
            files,
            path,
            path.len() - 1,
            super::chain_from(files, path::parent_of(path)),
        ),
{
    let n = path.len() - 1;
    if n >= outermost(path) {
        assert(path.last() != seq!['/']);
        assert(path.drop_last() =~= path.take(n));
        lemma_chain(files, path, n);
    } else {
        assert(super::chain_from(files, path::parent_of(path)) =~= Seq::empty());
    }
}

/// The parent of a directory of `path` is the next one out; the outermost has
/// none.
proof fn lemma_next_out(path: Seq<Seq<char>>, n: int)
    requires
        is_plain_path(path),
        outermost(path) <= n < path.len(),
    ensures
        n > outermost(path) ==> path::parent_of(path.take(n)) == Some(path.take(n - 1)),
        n == outermost(path) ==> path::parent_of(path.take(n)) is None,
{
    if n > outermost(path) {
        assert(path.take(n).last() == path[n - 1]);
        assert(path.take(n).drop_last() =~= path.take(n - 1));
    }
}

proof fn lemma_filename()
    ensures
        super::FILENAME@ == ".editorconfig"@,
{
}

/// The files that count from one directory, from those of the next one out.
proof fn lemma_counts_step(
    files: Map<Seq<Seq<char>>, Seq<char>>,
    path: Seq<Seq<char>>,
    n: int,
    k: int,
)
    requires
        outermost(path) <= n,
    ensures
        counts(files, path, n, k) <==> (k == n && has_file(files, path, n)) || (k < n && counts(
            files,
            path,
            n - 1,
            k,
        ) && (has_file(files, path, n) ==> !super::declares_root(file_at(files, path, n).text))),
{
}

proof fn lemma_chain(files: Map<Seq<Seq<char>>, Seq<char>>, path: Seq<Seq<char>>, n: int)
    requires
        is_plain_path(path),
        outermost(path) <= n < path.len(),
    ensures
        is_chain(files, path, n, super::chain_from(files, Some(path.take(n)))),
    decreases n,
{
    let dir = path.take(n);
    let found = super::lookup(files, dir.push(super::FILENAME@));
    let here = super::link(dir, found);
    let next = super::next_dir(dir, found);
    let rest = super::chain_from(files, next);
    let chain = super::chain_from(files, Some(dir));
    lemma_filename();
    lemma_next_out(path, n);
    assert(chain == here + rest);
    assert(found is Some <==> has_file(files, path, n));
    if next is Some {
        lemma_chain(files, path, n - 1);
        assert(rest == super::chain_from(files, Some(path.take(n - 1))));
    } else {
        assert(rest =~= Seq::empty());
    }
    assert forall|i: int| 0 <= i < chain.len() implies counts(
        files,
        path,
        n,
        (#[trigger] chain[i]).dir.len() as int,
    ) && chain[i] == file_at(files, path, chain[i].dir.len() as int) by {
        lemma_counts_step(files, path, n, chain[i].dir.len() as int);
        if i >= here.len() {
            assert(chain[i] == rest[i - here.len()]);
            assert(counts(files, path, n - 1, rest[i - here.len()].dir.len() as int));
        }
    }
    assert forall|k: int| #[trigger] counts(files, path, n, k) implies exists|i: int|
        0 <= i < chain.len() && (#[trigger] chain[i]).dir.len() == k by {
        lemma_counts_step(files, path, n, k);
        if k == n {
            assert(chain[0].dir.len() == k);
        } else {
            assert(next is Some);
            assert(counts(files, path, n - 1, k));
            let i = choose|i: int| 0 <= i < rest.len() && (#[trigger] rest[i]).dir.len() == k;
            assert(chain[here.len() + i] == rest[i]);
        }
    }
    assert forall|i: int, j: int| 0 <= i < j < chain.len() implies (#[trigger] chain[i]).dir.len()
        > (#[trigger] chain[j]).dir.len() by {
        assert(chain[j] == rest[j - here.len()]);
        assert(counts(files, path, n - 1, rest[j - here.len()].dir.len() as int));
        if i >= here.len() {
            assert(chain[i] == rest[i - here.len()]);
        }
    }
}

/// A path has the properties that the files which count for it set, whichever
/// way those were found.
pub proof fn law_properties_are_set_by_the_files_that_count(
    files: Map<Seq<Seq<char>>, Seq<char>>,
    path: Seq<Seq<char>>,
    chain: Seq<Config>,
)
    requires
        is_plain_path(path),
        is_chain(files, path, path.len() - 1, chain),
    ensures
        super::props_for(files, path) == super::resolved(super::after_chain(chain, path)),
{
    law_walk_finds_every_file_up_to_the_root(files, path);
    lemma_chain_unique(
        files,
        path,
        path.len() - 1,
        chain,
        super::chain_from(files, path::parent_of(path)),
    );
}

/// A path has from the outer of the files that count what the nearer ones do
/// not name: each property on its own, the indent width where neither of its
/// two is named.
pub proof fn law_path_inherits_from_outer_files(
    files: Map<Seq<Seq<char>>, Seq<char>>,
    path: Seq<Seq<char>>,
    nearer: Seq<Config>,
    outer: Seq<Config>,
)
    requires
        is_plain_path(path),
        is_chain(files, path, path.len() - 1, nearer + outer),
    ensures
        ({
            let props = super::props_for(files, path);
            let inherited = super::resolved(super::after_chain(outer, path));
            &&& none_names(nearer, "indent_style"@) ==> props.use_spaces == inherited.use_spaces
            &&& none_names(nearer, "indent_size"@) && none_names(nearer, "tab_width"@)
                ==> props.indent_width == inherited.indent_width
            &&& none_names(nearer, "end_of_line"@) ==> props.eol == inherited.eol
            &&& none_names(nearer, "trim_trailing_whitespace"@) ==> props.trim_trailing_whitespace
                == inherited.trim_trailing_whitespace
            &&& none_names(nearer, "insert_final_newline"@) ==> props.insert_final_newline
                == inherited.insert_final_newline
        }),
{
    law_properties_are_set_by_the_files_that_count(files, path, nearer + outer);
    super::laws::lemma_keys_differ();
    if none_names(nearer, "indent_style"@) {
        law_unnamed_property_is_inherited(nearer, outer, path, "indent_style"@);
    }
    if none_names(nearer, "indent_size"@) {
        law_unnamed_property_is_inherited(nearer, outer, path, "indent_size"@);
    }
    if none_names(nearer, "tab_width"@) {
        law_unnamed_property_is_inherited(nearer, outer, path, "tab_width"@);
    }
    if none_names(nearer, "end_of_line"@) {
        law_unnamed_property_is_inherited(nearer, outer, path, "end_of_line"@);
    }
    if none_names(nearer, "trim_trailing_whitespace"@) {
        law_unnamed_property_is_inherited(nearer, outer, path, "trim_trailing_whitespace"@);
    }
    if none_names(nearer, "insert_final_newline"@) {
        law_unnamed_property_is_inherited(nearer, outer, path, "insert_final_newline"@);
    }
}

/// There is one chain of the files that count.
proof fn lemma_chain_unique(
    files: Map<Seq<Seq<char>>, Seq<char>>,
    path: Seq<Seq<char>>,
    n: int,
    a: Seq<Config>,
    b: Seq<Config>,
)
    requires
        is_chain(files, path, n, a),
        is_chain(files, path, n, b),
    ensures
        a == b,
{
    assert forall|i: int| 0 <= i < a.len() && i < b.len() implies a[i] == b[i] by {
        lemma_same_at(files, path, n, a, b, i);
    }
    lemma_no_longer(files, path, n, a, b);
    lemma_no_longer(files, path, n, b, a);
    assert(a =~= b);
}

proof fn lemma_same_at(
    files: Map<Seq<Seq<char>>, Seq<char>>,
    path: Seq<Seq<char>>,
    n: int,
    a: Seq<Config>,
    b: Seq<Config>,
    i: int,
)
    requires
        is_chain(files, path, n, a),
        is_chain(files, path, n, b),
        0 <= i < a.len(),
        i < b.len(),
    ensures
        a[i] == b[i],
    decreases i,
{
    assert forall|j: int| 0 <= j < i implies a[j] == b[j] by {
        lemma_same_at(files, path, n, a, b, j);
    }
    assert(counts(files, path, n, a[i].dir.len() as int));
    assert(counts(files, path, n, b[i].dir.len() as int));
    let p = choose|p: int| 0 <= p < b.len() && (#[trigger] b[p]).dir.len() == a[i].dir.len();
    let q = choose|q: int| 0 <= q < a.len() && (#[trigger] a[q]).dir.len() == b[i].dir.len();
    assert(p >= i) by {
        if p < i {
            assert(a[p] == b[p]);
        }
    }
    assert(q >= i) by {
        if q < i {
            assert(a[q] == b[q]);
        }
    }
    if p > i {
        assert(b[i].dir.len() > b[p].dir.len());
    }
    if q > i {
        assert(a[i].dir.len() > a[q].dir.len());
    }
}

proof fn lemma_no_longer(
    files: Map<Seq<Seq<char>>, Seq<char>>,
    path: Seq<Seq<char>>,
    n: int,
    a: Seq<Config>,
    b: Seq<Config>,
)
    requires
        is_chain(files, path, n, a),
        is_chain(files, path, n, b),
    ensures
        b.len() <= a.len(),
{
    if a.len() < b.len() {
        let last = b[a.len() as int];
        assert(counts(files, path, n, last.dir.len() as int));
        let p = choose|p: int| 0 <= p < a.len() && (#[trigger] a[p]).dir.len() == last.dir.len();
        lemma_same_at(files, path, n, a, b, p);
        assert(b[p].dir.len() > b[a.len() as int].dir.len());
    }
}

/// A walk begins in the directory that holds the path, with no files. A
/// directory without a file leads to the one that holds it; a file is put
/// behind those found before, and leads there too unless it declares itself
/// the outermost.
pub proof fn law_walk_goes_up_until_a_root(
    start: Seq<Seq<char>>,
    name: Seq<char>,
    state: WalkState,
    text: Seq<char>,
)
    requires
        name != seq!['/'],
        state.dir == Some(start.push(name)),
    ensures
        super::walk_start(start.push(name)) == (WalkState {
            path: start.push(name),
            dir: Some(start),
            chain: Seq::empty(),
        }),
        super::walk_step(state, None) == (WalkState {
            path: state.path,
            dir: Some(start),
            chain: state.chain,
        }),
        super::walk_step(state, Some(text)) == (WalkState {
            path: state.path,
            dir: if super::declares_root(text) {
                None
            } else {
                Some(start)
            },
            chain: state.chain.push(Config { dir: start.push(name), text }),
        }),
{
    path::law_parent_drops_the_last_name(start, name);
    assert(state.chain + super::link(state.dir->0, None) =~= state.chain);
    assert(state.chain + super::link(state.dir->0, Some(text)) =~= state.chain.push(
        Config { dir: start.push(name), text },
    ));
}

/// A walk ends at the root, and at the directory that a relative path is
/// relative to, whether or not a file lies there; a path without a directory
/// has nowhere to begin.
pub proof fn law_walk_ends_at_the_outermost_directory(
    state: WalkState,
    dir: Seq<Seq<char>>,
    text: Seq<char>,
)
    requires
        dir.len() == 0 || dir.last() == seq!['/'],
        state.dir == Some(dir),
    ensures
        super::walk_start(dir) == (WalkState { path: dir, dir: None, chain: Seq::empty() }),
        super::walk_step(state, None) == (WalkState { dir: None, ..state }),
        super::walk_step(state, Some(text)) == (WalkState {
            path: state.path,
            dir: None,
            chain: state.chain.push(Config { dir, text }),
        }),
{
    assert(state.chain + super::link(dir, None) =~= state.chain);
    assert(state.chain + super::link(dir, Some(text)) =~= state.chain.push(Config { dir, text }));
}

} // verus!
