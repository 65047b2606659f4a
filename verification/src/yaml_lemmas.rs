//! What holds of the document that a list of assignments builds, with regard
//! to the root key.

use vstd::prelude::*;
use crate::node::{diverge, get_or, has_key, inserted, placed, put, same_document, Segment, Tree};
use crate::node_lemmas::{lemma_insert_commutes, lemma_insert_overwrites, lemma_put_get};
use crate::yaml::{assignment, built, root_key, unwrapped};

verus! {

/// Whether `path` stands under the root key: it starts with the root key and
/// goes on with a segment of another key.
pub open spec fn under_root(path: Seq<Segment>) -> bool {
    path.len() >= 2 && path[0] == Segment::Key(root_key()) && path[1].key() != root_key()
}

/// Whether `path` stands beside the root key: its first segment has another key.
pub open spec fn beside_root(path: Seq<Segment>) -> bool {
    path.len() >= 1 && path[0].key() != root_key()
}

/// Whether each of the first `n` assignments of `lines` has a path under the root key.
pub open spec fn all_under_root(lines: Seq<Seq<char>>, n: int) -> bool {
    forall|j: int|
        0 <= j < n ==> assignment(#[trigger] lines[j]) is Some && under_root(assignment(lines[j])->Some_0.0)
}

/// Whether each of the first `n` assignments of `lines` has a path beside the root key.
pub open spec fn all_beside_root(lines: Seq<Seq<char>>, n: int) -> bool {
    forall|j: int|
        0 <= j < n ==> assignment(#[trigger] lines[j]) is Some && beside_root(assignment(lines[j])->Some_0.0)
}

/// The keys of a document after an assignment: those it had, and the key of
/// the path's first segment.
pub proof fn lemma_inserted_keys(root: Tree, path: Seq<Segment>, value: Tree, key: Seq<char>)
    requires
        path.len() > 0,
    ensures
        inserted(root, path, value) is Mapping,
        has_key(inserted(root, path, value).entries(), key) == (has_key(root.entries(), key) || key
            == path[0].key()),
{
    let m = root.entries();
    lemma_put_get(m, path[0].key(), placed(m, path[0], path.drop_first(), value), key, Tree::Null);
}

/// Assignments under the root key build a mapping with the root key alone
/// at its top, and what stands under the root key is a mapping without it.
pub proof fn lemma_built_under_root(lines: Seq<Seq<char>>, n: int)
    requires
        0 <= n <= lines.len(),
        all_under_root(lines, n),
    ensures
        built(lines, n) is Mapping,
        n > 0 ==> has_key(built(lines, n).entries(), root_key()),
        get_or(built(lines, n).entries(), root_key(), Tree::Mapping(Seq::empty())) is Mapping,
        !has_key(
            get_or(built(lines, n).entries(), root_key(), Tree::Mapping(Seq::empty())).entries(),
            root_key(),
        ),
    decreases n,
{
    let empty = Tree::Mapping(Seq::empty());
    if n > 0 {
        lemma_built_under_root(lines, n - 1);
        let before = built(lines, n - 1);
        let m = before.entries();
        assert(assignment(lines[n - 1]) is Some && under_root(assignment(lines[n - 1])->Some_0.0));
        let a = assignment(lines[n - 1])->Some_0;
        let rest = a.0.drop_first();
        let child = get_or(m, root_key(), empty);
        let x = placed(m, a.0[0], rest, a.1);
        assert(x == inserted(child, rest, a.1));
        assert(rest[0] == a.0[1]);
        lemma_inserted_keys(child, rest, a.1, root_key());
        lemma_put_get(m, root_key(), x, root_key(), empty);
    }
}

/// Where every assignment has a path under the root key, the document comes
/// out from under it as a mapping that has no root key of its own.
pub proof fn lemma_prefixed_input_loses_root_key(lines: Seq<Seq<char>>)
    requires
        all_under_root(lines, lines.len() as int),
    ensures
        unwrapped(built(lines, lines.len() as int)) is Mapping,
        !has_key(unwrapped(built(lines, lines.len() as int)).entries(), root_key()),
{
    lemma_built_under_root(lines, lines.len() as int);
}

/// Assignments beside the root key build a mapping without the root key.
pub proof fn lemma_built_beside_root(lines: Seq<Seq<char>>, n: int)
    requires
        0 <= n <= lines.len(),
        all_beside_root(lines, n),
    ensures
        built(lines, n) is Mapping,
        !has_key(built(lines, n).entries(), root_key()),
    decreases n,
{
    if n > 0 {
        lemma_built_beside_root(lines, n - 1);
        assert(assignment(lines[n - 1]) is Some && beside_root(assignment(lines[n - 1])->Some_0.0));
        let a = assignment(lines[n - 1])->Some_0;
        lemma_inserted_keys(built(lines, n - 1), a.0, a.1, root_key());
    }
}

/// Where every assignment has a path beside the root key, taking the document
/// out from under the root key leaves it as it was built.
pub proof fn lemma_unprefixed_input_unchanged(lines: Seq<Seq<char>>)
    requires
        all_beside_root(lines, lines.len() as int),
    ensures
        unwrapped(built(lines, lines.len() as int)) == built(lines, lines.len() as int),
{
    lemma_built_beside_root(lines, lines.len() as int);
}

/// Two assignments whose paths part ways build the same document in either order.
pub proof fn lemma_build_either_order(first: Seq<char>, second: Seq<char>)
    requires
        assignment(first) is Some,
        assignment(second) is Some,
        diverge(assignment(first)->Some_0.0, assignment(second)->Some_0.0),
    ensures
        same_document(built(seq![first, second], 2), built(seq![second, first], 2)),
{
    let a = assignment(first)->Some_0;
    let b = assignment(second)->Some_0;
    let empty = Tree::Mapping(Seq::empty());
    reveal_with_fuel(built, 3);
    assert(built(seq![first, second], 2) == inserted(inserted(empty, a.0, a.1), b.0, b.1));
    assert(built(seq![second, first], 2) == inserted(inserted(empty, b.0, b.1), a.0, a.1));
    lemma_insert_commutes(empty, a.0, a.1, b.0, b.1);
}

/// Of two assignments to one path, the later alone decides what is built.
pub proof fn lemma_build_last_wins(first: Seq<char>, second: Seq<char>)
    requires
        assignment(first) is Some,
        assignment(second) is Some,
        assignment(first)->Some_0.0 == assignment(second)->Some_0.0,
    ensures
        built(seq![first, second], 2) == built(seq![second], 1),
{
    let a = assignment(first)->Some_0;
    let b = assignment(second)->Some_0;
    let empty = Tree::Mapping(Seq::empty());
    reveal_with_fuel(built, 3);
    assert(built(seq![first, second], 2) == inserted(inserted(empty, a.0, a.1), b.0, b.1));
    assert(built(seq![second], 1) == inserted(empty, b.0, b.1));
    lemma_insert_overwrites(empty, a.0, a.1, b.1);
}

} // verus!
