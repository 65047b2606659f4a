//! The configuration document: a tree of mappings, sequences and scalars,
//! and what assigning a value at a dotted path does to it.

use vstd::prelude::*;

verus! {

/// The mathematical document: what a `Node` holds.
///
/// A mapping keeps its entries in the order in which their keys first came.
pub enum Tree {
    Null,
    Bool(bool),
    /// A number, as the text that the document format writes for it.
    Number(Seq<char>),
    Text(Seq<char>),
    Sequence(Seq<Tree>),
    Mapping(Seq<(Tree, Tree)>),
    /// A tag, written with its leading `!`, and the value that carries it.
    Tagged(Seq<char>, Box<Tree>),
}

/// One segment of a dotted path, as a mathematical value.
pub enum Segment {
    Key(Seq<char>),
    KeyIndex(Seq<char>, nat),
}

/// A document node.
#[derive(Debug)]
pub enum Node {
    Null,
    Bool(bool),
    /// A number, as the text that the document format writes for it.
    Number(String),
    Text(String),
    Sequence(Vec<Node>),
    Mapping(Vec<(Node, Node)>),
    /// A tag, written with its leading `!`, and the value that carries it.
    Tagged(String, Box<Node>),
}

/// One segment of a dotted path: a key, or a key and a position in the sequence under it.
#[derive(Debug)]
pub enum PathItem {
    Key(String),
    KeyIndex(String, usize),
}

impl Node {
    /// The document that this node holds.
    pub open spec fn tree(self) -> Tree
        decreases self,
    {
        match self {
            Node::Null => Tree::Null,
            Node::Bool(b) => Tree::Bool(b),
            Node::Number(s) => Tree::Number(s@),
            Node::Text(s) => Tree::Text(s@),
            Node::Sequence(items) => Tree::Sequence(
                Seq::new(
                    items@.len(),
                    |i: int|
                        if 0 <= i < items@.len() {
                            items@[i].tree()
                        } else {
                            Tree::Null
                        },
                ),
            ),
            Node::Mapping(entries) => Tree::Mapping(
                Seq::new(
                    entries@.len(),
                    |i: int|
                        if 0 <= i < entries@.len() {
                            (entries@[i].0.tree(), entries@[i].1.tree())
                        } else {
                            (Tree::Null, Tree::Null)
                        },
                ),
            ),
            Node::Tagged(tag, inner) => Tree::Tagged(tag@, Box::new((*inner).tree())),
        }
    }
}

impl View for Node {
    type V = Tree;

    open spec fn view(&self) -> Tree {
        self.tree()
    }
}

impl View for PathItem {
    type V = Segment;

    open spec fn view(&self) -> Segment {
        match self {
            PathItem::Key(k) => Segment::Key(k@),
            PathItem::KeyIndex(k, i) => Segment::KeyIndex(k@, *i as nat),
        }
    }
}

/// The documents that the nodes `items` hold, in order.
pub open spec fn items_view(items: Seq<Node>) -> Seq<Tree> {
    Seq::new(items.len(), |i: int| items[i]@)
}

/// The key and value documents that the entries `entries` hold, in order.
pub open spec fn entries_view(entries: Seq<(Node, Node)>) -> Seq<(Tree, Tree)> {
    Seq::new(entries.len(), |i: int| (entries[i].0@, entries[i].1@))
}

/// The segments that the path items `path` hold, in order.
pub open spec fn path_view(path: Seq<PathItem>) -> Seq<Segment> {
    Seq::new(path.len(), |i: int| path[i]@)
}

/// A sequence node holds the documents of its items.
pub proof fn lemma_sequence_view(items: Vec<Node>)
    ensures
        Node::Sequence(items)@ == Tree::Sequence(items_view(items@)),
{
    assert(Node::Sequence(items)@->Sequence_0 =~= items_view(items@));
}

/// A mapping node holds the documents of its entries.
pub proof fn lemma_mapping_view(entries: Vec<(Node, Node)>)
    ensures
        Node::Mapping(entries)@ == Tree::Mapping(entries_view(entries@)),
{
    assert(Node::Mapping(entries)@->Mapping_0 =~= entries_view(entries@));
}

impl Tree {
    /// The entries of a mapping; none for any other document.
    pub open spec fn entries(self) -> Seq<(Tree, Tree)> {
        match self {
            Tree::Mapping(m) => m,
            _ => Seq::empty(),
        }
    }

    /// The items of a sequence; none for any other document.
    pub open spec fn items(self) -> Seq<Tree> {
        match self {
            Tree::Sequence(s) => s,
            _ => Seq::empty(),
        }
    }
}

impl Tree {
    /// Whether the document can stand in a file: no mapping has a key twice, and
    /// no tag is empty.
    pub open spec fn well_formed(self) -> bool
        decreases self,
    {
        match self {
            Tree::Sequence(s) => forall|i: int| 0 <= i < s.len() ==> (#[trigger] s[i]).well_formed(),
            Tree::Mapping(m) => {
                &&& forall|i: int| 0 <= i < m.len() ==> (#[trigger] m[i]).0.well_formed()
                &&& forall|i: int| 0 <= i < m.len() ==> (#[trigger] m[i]).1.well_formed()
                &&& distinct_keys(m)
            },
            Tree::Tagged(tag, inner) => tag.len() > 0 && (*inner).well_formed(),
            _ => true,
        }
    }
}

/// Whether no two entries of `m` have the same key.
pub open spec fn distinct_keys(m: Seq<(Tree, Tree)>) -> bool {
    forall|i: int, j: int| 0 <= i < j < m.len() ==> (#[trigger] m[i]).0 != (#[trigger] m[j]).0
}

impl Segment {
    /// The key that the segment names.
    pub open spec fn key(self) -> Seq<char> {
        match self {
            Segment::Key(k) => k,
            Segment::KeyIndex(k, _) => k,
        }
    }
}

/// The index of the first entry at or after `from` whose key is the text `key`,
/// or the number of entries when there is none.
pub open spec fn key_index(m: Seq<(Tree, Tree)>, key: Seq<char>, from: int) -> int
    decreases m.len() - from,
{
    if 0 <= from < m.len() && m[from].0 != Tree::Text(key) {
        key_index(m, key, from + 1)
    } else {
        from
    }
}

/// Whether an entry of `m` has the text `key` as its key.
pub open spec fn has_key(m: Seq<(Tree, Tree)>, key: Seq<char>) -> bool {
    key_index(m, key, 0) < m.len()
}

/// The value under the text `key`, or `default` when no entry has that key.
pub open spec fn get_or(m: Seq<(Tree, Tree)>, key: Seq<char>, default: Tree) -> Tree {
    let i = key_index(m, key, 0);
    if i < m.len() {
        m[i].1
    } else {
        default
    }
}

/// `m` with `value` under the text `key`: in the place of the entry that has the
/// key, or as a new last entry.
pub open spec fn put(m: Seq<(Tree, Tree)>, key: Seq<char>, value: Tree) -> Seq<(Tree, Tree)> {
    let i = key_index(m, key, 0);
    if i < m.len() {
        m.update(i, (m[i].0, value))
    } else {
        m.push((Tree::Text(key), value))
    }
}

/// `s`, grown with nulls to at least `len` items.
pub open spec fn padded(s: Seq<Tree>, len: int) -> Seq<Tree> {
    if s.len() >= len {
        s
    } else {
        s + Seq::new((len - s.len()) as nat, |i: int| Tree::Null)
    }
}

/// What an assignment stores under the key of its first segment `first`, in a
/// mapping with the entries `m`; `rest` are the segments behind the first.
///
/// A keyed segment stores what was under the key, with the assignment carried
/// on into it. An indexed segment stores a sequence: what was under the key,
/// taken as a sequence and grown with nulls to reach the position, with the
/// assignment carried on into the item at the position.
pub open spec fn placed(m: Seq<(Tree, Tree)>, first: Segment, rest: Seq<Segment>, value: Tree) -> Tree
    decreases rest.len(), 1nat,
{
    match first {
        Segment::Key(k) => inserted(get_or(m, k, Tree::Mapping(Seq::empty())), rest, value),
        Segment::KeyIndex(k, idx) => {
            let s = padded(get_or(m, k, Tree::Sequence(Seq::empty())).items(), idx as int + 1);
            Tree::Sequence(s.update(idx as int, inserted(s[idx as int], rest, value)))
        },
    }
}

/// The document `root` after `value` was assigned at `path`.
///
/// Each node on the way is taken as a mapping, losing what it held if it was none.
/// A keyed segment continues under its key. An indexed segment continues at its
/// position in the sequence under its key; what was under the key is taken as a
/// sequence, losing what it held if it was none, and grown with nulls to reach the
/// position. The last segment stores the value. An empty path replaces the root.
pub open spec fn inserted(root: Tree, path: Seq<Segment>, value: Tree) -> Tree
    decreases path.len(), 0nat,
{
    if path.len() == 0 {
        value
    } else {
        let m = root.entries();
        Tree::Mapping(put(m, path[0].key(), placed(m, path[0], path.drop_first(), value)))
    }
}

/// Whether `a` and `b` are the same document: equal, but for the order in which
/// the entries of their mappings stand.
pub open spec fn same_document(a: Tree, b: Tree) -> bool
    decreases a,
{
    match a {
        Tree::Sequence(x) => {
            let y = b.items();
            b is Sequence && x.len() == y.len() && forall|i: int|
                #![trigger x[i]]
                0 <= i < x.len() ==> same_document(x[i], y[i])
        },
        Tree::Mapping(x) => {
            let y = b.entries();
            b is Mapping && x.len() == y.len() && forall|i: int|
                #![trigger x[i]]
                0 <= i < x.len() ==> has_same_entry(x[i], y)
        },
        Tree::Tagged(tag, inner) => b is Tagged && tag == b->Tagged_0 && same_document(
            *inner,
            *b->Tagged_1,
        ),
        _ => a == b,
    }
}

/// Whether the entries `y` hold an entry with the same key and the same value as `e`.
pub open spec fn has_same_entry(e: (Tree, Tree), y: Seq<(Tree, Tree)>) -> bool
    decreases e,
{
    exists|j: int|
        #![trigger y[j]]
        0 <= j < y.len() && same_document(e.0, y[j].0) && same_document(e.1, y[j].1)
}

/// Whether the paths `p` and `q` part ways: behind what they have in common,
/// both go on, with different keys or with different positions under one key.
pub open spec fn diverge(p: Seq<Segment>, q: Seq<Segment>) -> bool
    decreases p.len(),
{
    p.len() > 0 && q.len() > 0 && if p[0] == q[0] {
        diverge(p.drop_first(), q.drop_first())
    } else {
        p[0].key() != q[0].key() || (p[0] is KeyIndex && q[0] is KeyIndex)
    }
}

/// Where `key_index` stops: no entry before it has the key, and the entry at it has.
pub proof fn lemma_key_index(m: Seq<(Tree, Tree)>, key: Seq<char>, from: int)
    requires
        0 <= from <= m.len(),
    ensures
        from <= key_index(m, key, from) <= m.len(),
        forall|i: int| from <= i < key_index(m, key, from) ==> m[i].0 != Tree::Text(key),
        key_index(m, key, from) < m.len() ==> m[key_index(m, key, from)].0 == Tree::Text(key),
    decreases m.len() - from,
{
    if from < m.len() && m[from].0 != Tree::Text(key) {
        lemma_key_index(m, key, from + 1);
    }
}

/// The first entry with the key is where `key_index` stops.
pub proof fn lemma_key_index_is(m: Seq<(Tree, Tree)>, key: Seq<char>, i: int)
    requires
        0 <= i <= m.len(),
        forall|j: int| 0 <= j < i ==> m[j].0 != Tree::Text(key),
        i < m.len() ==> m[i].0 == Tree::Text(key),
    ensures
        key_index(m, key, 0) == i,
{
    lemma_key_index(m, key, 0);
}

/// Whether the entries `m` can stand in a well-formed mapping.
pub open spec fn entries_well_formed(m: Seq<(Tree, Tree)>) -> bool {
    Tree::Mapping(m).well_formed()
}

/// Putting a well-formed value under a key keeps the entries well-formed.
pub proof fn lemma_put_well_formed(m: Seq<(Tree, Tree)>, key: Seq<char>, value: Tree)
    requires
        entries_well_formed(m),
        value.well_formed(),
    ensures
        entries_well_formed(put(m, key, value)),
{
    lemma_key_index(m, key, 0);
    let i = key_index(m, key, 0);
    let r = put(m, key, value);
    assert forall|a: int| 0 <= a < r.len() implies (#[trigger] r[a]).0.well_formed() && r[a].1.well_formed() by {
        if a < m.len() {
            assert(m[a].0.well_formed() && m[a].1.well_formed());
        }
    }
    assert forall|a: int, b: int| 0 <= a < b < r.len() implies (#[trigger] r[a]).0 != (#[trigger] r[b]).0 by {
        if b < m.len() {
            assert(m[a].0 != m[b].0);
            assert(r[a].0 == m[a].0);
            assert(r[b].0 == m[b].0);
        } else {
            assert(m[a].0 != Tree::Text(key));
        }
    }
}

/// The entries of a well-formed document are well-formed.
pub proof fn lemma_entries_well_formed(doc: Tree)
    requires
        doc.well_formed(),
    ensures
        entries_well_formed(doc.entries()),
{
}

/// What stands under a key of well-formed entries is well-formed.
pub proof fn lemma_get_or_well_formed(m: Seq<(Tree, Tree)>, key: Seq<char>, default: Tree)
    requires
        entries_well_formed(m),
        default.well_formed(),
    ensures
        get_or(m, key, default).well_formed(),
{
    lemma_key_index(m, key, 0);
    let i = key_index(m, key, 0);
    if i < m.len() {
        assert(m[i].1.well_formed());
    }
}

/// Assigning a well-formed value in a well-formed document gives a well-formed document.
pub proof fn lemma_inserted_well_formed(root: Tree, path: Seq<Segment>, value: Tree)
    requires
        root.well_formed(),
        value.well_formed(),
    ensures
        inserted(root, path, value).well_formed(),
    decreases path.len(),
{
    if path.len() > 0 {
        let m = root.entries();
        let rest = path.drop_first();
        lemma_entries_well_formed(root);
        match path[0] {
            Segment::Key(k) => {
                let child = get_or(m, k, Tree::Mapping(Seq::empty()));
                lemma_get_or_well_formed(m, k, Tree::Mapping(Seq::empty()));
                lemma_inserted_well_formed(child, rest, value);
            },
            Segment::KeyIndex(k, idx) => {
                let under = get_or(m, k, Tree::Sequence(Seq::empty()));
                lemma_get_or_well_formed(m, k, Tree::Sequence(Seq::empty()));
                let s = padded(under.items(), idx as int + 1);
                assert forall|i: int| 0 <= i < s.len() implies (#[trigger] s[i]).well_formed() by {
                    if i < under.items().len() {
                        assert(under.items()[i].well_formed());
                    }
                }
                lemma_inserted_well_formed(s[idx as int], rest, value);
                let t = s.update(idx as int, inserted(s[idx as int], rest, value));
                assert forall|i: int| 0 <= i < t.len() implies (#[trigger] t[i]).well_formed() by {
                    if i != idx {
                        assert(s[i].well_formed());
                    }
                }
            },
        }
        lemma_put_well_formed(m, path[0].key(), placed(m, path[0], rest, value));
    }
}

impl Node {
    /// Whether this node and `other` hold the same document: equal, but for
    /// the order in which the entries of their mappings stand.
    #[verifier::loop_isolation(false)]
    pub fn same_as(&self, other: &Node) -> (b: bool)
        ensures
            b == same_document(self@, other@),
        decreases self,
    {
        match self {
            Node::Null => match other {
                Node::Null => true,
                _ => false,
            },
            Node::Bool(x) => match other {
                Node::Bool(y) => *x == *y,
                _ => false,
            },
            Node::Number(x) => match other {
                Node::Number(y) => *x == *y,
                _ => false,
            },
            Node::Text(x) => match other {
                Node::Text(y) => *x == *y,
                _ => false,
            },
            Node::Tagged(tag, inner) => match other {
                Node::Tagged(other_tag, other_inner) => *tag == *other_tag && inner.same_as(other_inner),
                _ => false,
            },
            Node::Sequence(x) => match other {
                Node::Sequence(y) => {
                    proof {
                        lemma_sequence_view(*x);
                        lemma_sequence_view(*y);
                    }
                    if x.len() != y.len() {
                        return false;
                    }
                    let mut i: usize = 0;
                    while i < x.len()
                        invariant
                            i <= x.len(),
                            forall|k: int|
                                #![trigger items_view(x@)[k]]
                                0 <= k < i ==> same_document(items_view(x@)[k], items_view(y@)[k]),
                        decreases x.len() - i,
                    {
                        if !x[i].same_as(&y[i]) {
                            assert(!same_document(items_view(x@)[i as int], items_view(y@)[i as int]));
                            return false;
                        }
                        i += 1;
                    }
                    true
                },
                _ => false,
            },
            Node::Mapping(x) => match other {
                Node::Mapping(y) => {
                    proof {
                        lemma_mapping_view(*x);
                        lemma_mapping_view(*y);
                    }
                    if x.len() != y.len() {
                        return false;
                    }
                    let mut i: usize = 0;
                    while i < x.len()
                        invariant
                            i <= x.len(),
                            forall|k: int|
                                #![trigger entries_view(x@)[k]]
                                0 <= k < i ==> has_same_entry(entries_view(x@)[k], entries_view(y@)),
                        decreases x.len() - i,
                    {
                        let mut found = false;
                        let mut j: usize = 0;
                        while j < y.len() && !found
                            invariant
                                j <= y.len(),
                                i < x.len(),
                                found ==> has_same_entry(entries_view(x@)[i as int], entries_view(y@)),
                                !found ==> forall|k: int|
                                    #![trigger entries_view(y@)[k]]
                                    0 <= k < j ==> !(same_document(
                                        entries_view(x@)[i as int].0,
                                        entries_view(y@)[k].0,
                                    ) && same_document(entries_view(x@)[i as int].1, entries_view(y@)[k].1)),
                            decreases y.len() - j + (if found { 0int } else { 1int }),
                        {
                            if x[i].0.same_as(&y[j].0) && x[i].1.same_as(&y[j].1) {
                                found = true;
                                assert(same_document(entries_view(x@)[i as int].0, entries_view(y@)[j as int].0)
                                    && same_document(
                                    entries_view(x@)[i as int].1,
                                    entries_view(y@)[j as int].1,
                                ));
                            } else {
                                j += 1;
                            }
                        }
                        if !found {
                            assert(!has_same_entry(entries_view(x@)[i as int], entries_view(y@)));
                            return false;
                        }
                        i += 1;
                    }
                    true
                },
                _ => false,
            },
        }
    }
}

} // verus!
