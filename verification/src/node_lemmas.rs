//! What holds of assignments to a document: the later of two to one path wins,
//! and two to paths that part ways can be made in either order.

use vstd::prelude::*;
use crate::node::{
    diverge, get_or, has_key, has_same_entry, inserted, key_index, lemma_key_index, lemma_key_index_is, padded, placed,
    put, same_document, Segment, Tree,
};

verus! {

/// Where a key is found after a value was put under a key.
pub proof fn lemma_put_index(m: Seq<(Tree, Tree)>, k: Seq<char>, v: Tree, q: Seq<char>)
    ensures
        put(m, k, v).len() == if has_key(m, k) {
            m.len()
        } else {
            m.len() + 1
        },
        forall|i: int| 0 <= i < m.len() ==> (#[trigger] put(m, k, v)[i]).0 == m[i].0,
        key_index(put(m, k, v), q, 0) == if has_key(m, q) {
            key_index(m, q, 0)
        } else if q == k {
            m.len() as int
        } else {
            put(m, k, v).len() as int
        },
{
    let r = put(m, k, v);
    lemma_key_index(m, k, 0);
    lemma_key_index(m, q, 0);
    let target = if has_key(m, q) {
        key_index(m, q, 0)
    } else if q == k {
        m.len() as int
    } else {
        r.len() as int
    };
    assert forall|j: int| 0 <= j < target implies r[j].0 != Tree::Text(q) by {
        if j < m.len() {
            assert(r[j].0 == m[j].0);
        }
    }
    lemma_key_index_is(r, q, target);
}

/// What stands under a key after a value was put under a key.
pub proof fn lemma_put_get(m: Seq<(Tree, Tree)>, k: Seq<char>, v: Tree, q: Seq<char>, default: Tree)
    ensures
        has_key(put(m, k, v), q) == (has_key(m, q) || q == k),
        q == k ==> get_or(put(m, k, v), q, default) == v,
        q != k ==> get_or(put(m, k, v), q, default) == get_or(m, q, default),
{
    lemma_put_index(m, k, v, q);
    lemma_key_index(m, k, 0);
    lemma_key_index(m, q, 0);
}

/// Of two values put under one key, the later stands.
pub proof fn lemma_put_twice(m: Seq<(Tree, Tree)>, k: Seq<char>, x: Tree, y: Tree)
    ensures
        put(put(m, k, x), k, y) == put(m, k, y),
{
    lemma_put_index(m, k, x, k);
    lemma_key_index(m, k, 0);
    assert(put(put(m, k, x), k, y) =~= put(m, k, y));
}

/// Every document is the same document as itself.
pub proof fn lemma_same_document_reflexive(a: Tree)
    ensures
        same_document(a, a),
    decreases a,
{
    match a {
        Tree::Sequence(x) => {
            assert forall|i: int| #![trigger x[i]] 0 <= i < x.len() implies same_document(x[i], x[i]) by {
                lemma_same_document_reflexive(x[i]);
            }
        },
        Tree::Mapping(x) => {
            assert forall|i: int| #![trigger x[i]] 0 <= i < x.len() implies has_same_entry(x[i], x) by {
                lemma_same_document_reflexive(x[i].0);
                lemma_same_document_reflexive(x[i].1);
            }
        },
        Tree::Tagged(tag, inner) => {
            lemma_same_document_reflexive(*inner);
        },
        _ => {},
    }
}

/// Entries that can be matched one to one, each with an entry of the same key
/// and the same value, make the same mapping.
pub proof fn lemma_same_mapping(a: Seq<(Tree, Tree)>, b: Seq<(Tree, Tree)>, to: spec_fn(int) -> int)
    requires
        a.len() == b.len(),
        forall|i: int| 0 <= i < a.len() ==> 0 <= #[trigger] to(i) < b.len(),
        forall|i: int| 0 <= i < a.len() ==> (#[trigger] a[i]).0 == b[to(i)].0,
        forall|i: int| 0 <= i < a.len() ==> same_document((#[trigger] a[i]).1, b[to(i)].1),
    ensures
        same_document(Tree::Mapping(a), Tree::Mapping(b)),
{
    assert forall|i: int| #![trigger a[i]] 0 <= i < a.len() implies has_same_entry(a[i], b) by {
        let j = to(i);
        lemma_same_document_reflexive(a[i].0);
        assert(same_document(a[i].0, b[j].0) && same_document(a[i].1, b[j].1));
    }
}

/// Putting the same document under a key gives the same mapping.
pub proof fn lemma_put_same(m: Seq<(Tree, Tree)>, k: Seq<char>, x: Tree, y: Tree)
    requires
        same_document(x, y),
    ensures
        same_document(Tree::Mapping(put(m, k, x)), Tree::Mapping(put(m, k, y))),
{
    let a = put(m, k, x);
    let b = put(m, k, y);
    lemma_key_index(m, k, 0);
    assert forall|i: int| 0 <= i < a.len() implies same_document((#[trigger] a[i]).1, b[i].1) by {
        if a[i].1 != b[i].1 {
            assert(a[i].1 == x && b[i].1 == y);
        } else {
            lemma_same_document_reflexive(a[i].1);
        }
    }
    lemma_same_mapping(a, b, |i: int| i);
}

/// Values put under two different keys can be put in either order.
pub proof fn lemma_put_commutes(m: Seq<(Tree, Tree)>, k: Seq<char>, x: Tree, q: Seq<char>, y: Tree)
    requires
        k != q,
    ensures
        same_document(Tree::Mapping(put(put(m, k, x), q, y)), Tree::Mapping(put(put(m, q, y), k, x))),
{
    let a = put(put(m, k, x), q, y);
    let b = put(put(m, q, y), k, x);
    lemma_put_index(m, k, x, q);
    lemma_put_index(m, q, y, k);
    lemma_put_index(m, k, x, k);
    lemma_put_index(m, q, y, q);
    lemma_key_index(m, k, 0);
    lemma_key_index(m, q, 0);
    let n = m.len() as int;
    if has_key(m, k) || has_key(m, q) {
        assert(a =~= b);
        assert forall|i: int| 0 <= i < a.len() implies same_document((#[trigger] a[i]).1, b[i].1) by {
            lemma_same_document_reflexive(a[i].1);
        }
        lemma_same_mapping(a, b, |i: int| i);
    } else {
        let to = |i: int|
            if i == n {
                n + 1
            } else if i == n + 1 {
                n
            } else {
                i
            };
        assert(a.len() == n + 2);
        assert(b.len() == n + 2);
        assert forall|i: int| 0 <= i < a.len() implies (#[trigger] a[i]).0 == b[to(i)].0 && same_document(
            a[i].1,
            b[to(i)].1,
        ) by {
            assert(a[i] == b[to(i)]);
            lemma_same_document_reflexive(a[i].1);
        }
        lemma_same_mapping(a, b, to);
    }
}

/// What a padded sequence holds: the items it held, then nulls.
pub proof fn lemma_padded(s: Seq<Tree>, len: int)
    ensures
        padded(s, len).len() == if s.len() >= len {
            s.len() as int
        } else {
            len
        },
        forall|i: int|
            0 <= i < padded(s, len).len() ==> #[trigger] padded(s, len)[i] == if i < s.len() {
                s[i]
            } else {
                Tree::Null
            },
{
}

/// What an assignment stores under its first key does not depend on what
/// stands under other keys.
pub proof fn lemma_placed_elsewhere(
    m: Seq<(Tree, Tree)>,
    k: Seq<char>,
    x: Tree,
    first: Segment,
    rest: Seq<Segment>,
    value: Tree,
)
    requires
        first.key() != k,
    ensures
        placed(put(m, k, x), first, rest, value) == placed(m, first, rest, value),
{
    lemma_put_get(m, k, x, first.key(), Tree::Mapping(Seq::empty()));
    lemma_put_get(m, k, x, first.key(), Tree::Sequence(Seq::empty()));
}

/// Of two assignments to one path, the later wins: the document is what the
/// later alone would have given.
pub proof fn lemma_insert_overwrites(root: Tree, path: Seq<Segment>, first: Tree, second: Tree)
    ensures
        inserted(inserted(root, path, first), path, second) == inserted(root, path, second),
    decreases path.len(),
{
    if path.len() > 0 {
        let m = root.entries();
        let head = path[0];
        let k = head.key();
        let rest = path.drop_first();
        let x = placed(m, head, rest, first);
        let m1 = put(m, k, x);
        lemma_put_get(m, k, x, k, Tree::Mapping(Seq::empty()));
        lemma_put_get(m, k, x, k, Tree::Sequence(Seq::empty()));
        match head {
            Segment::Key(_) => {
                let child = get_or(m, k, Tree::Mapping(Seq::empty()));
                lemma_insert_overwrites(child, rest, first, second);
            },
            Segment::KeyIndex(_, idx) => {
                let s = padded(get_or(m, k, Tree::Sequence(Seq::empty())).items(), idx as int + 1);
                lemma_padded(get_or(m, k, Tree::Sequence(Seq::empty())).items(), idx as int + 1);
                let s1 = s.update(idx as int, inserted(s[idx as int], rest, first));
                lemma_padded(s1, idx as int + 1);
                assert(padded(s1, idx as int + 1) == s1);
                lemma_insert_overwrites(s[idx as int], rest, first, second);
                assert(s1.update(idx as int, inserted(s1[idx as int], rest, second)) =~= s.update(
                    idx as int,
                    inserted(s[idx as int], rest, second),
                ));
            },
        }
        assert(placed(m1, head, rest, second) == placed(m, head, rest, second));
        lemma_put_twice(m, k, x, placed(m, head, rest, second));
    }
}

/// Two assignments to paths that part ways can be made in either order: the
/// documents are the same, but for the order of the entries of their mappings.
pub proof fn lemma_insert_commutes(root: Tree, p: Seq<Segment>, v: Tree, q: Seq<Segment>, w: Tree)
    requires
        diverge(p, q),
    ensures
        same_document(inserted(inserted(root, p, v), q, w), inserted(inserted(root, q, w), p, v)),
    decreases p.len(),
{
    let m = root.entries();
    let ps = p.drop_first();
    let qs = q.drop_first();
    let kp = p[0].key();
    let kq = q[0].key();
    let x = placed(m, p[0], ps, v);
    let y = placed(m, q[0], qs, w);
    let mp = put(m, kp, x);
    let mq = put(m, kq, y);
    let d_map = Tree::Mapping(Seq::empty());
    let d_seq = Tree::Sequence(Seq::empty());
    if kp != kq {
        lemma_placed_elsewhere(m, kp, x, q[0], qs, w);
        lemma_placed_elsewhere(m, kq, y, p[0], ps, v);
        lemma_put_commutes(m, kp, x, kq, y);
    } else {
        let k = kp;
        lemma_put_get(m, k, x, k, d_map);
        lemma_put_get(m, k, x, k, d_seq);
        lemma_put_get(m, k, y, k, d_map);
        lemma_put_get(m, k, y, k, d_seq);
        let xy = placed(mp, q[0], qs, w);
        let yx = placed(mq, p[0], ps, v);
        lemma_put_twice(m, k, x, xy);
        lemma_put_twice(m, k, y, yx);
        if p[0] == q[0] {
            match p[0] {
                Segment::Key(_) => {
                    let child = get_or(m, k, d_map);
                    lemma_insert_commutes(child, ps, v, qs, w);
                    lemma_put_same(m, k, xy, yx);
                },
                Segment::KeyIndex(_, idx) => {
                    let under = get_or(m, k, d_seq).items();
                    let s = padded(under, idx as int + 1);
                    lemma_padded(under, idx as int + 1);
                    let sx = s.update(idx as int, inserted(s[idx as int], ps, v));
                    let sy = s.update(idx as int, inserted(s[idx as int], qs, w));
                    lemma_padded(sx, idx as int + 1);
                    lemma_padded(sy, idx as int + 1);
                    assert(padded(sx, idx as int + 1) == sx);
                    assert(padded(sy, idx as int + 1) == sy);
                    lemma_insert_commutes(s[idx as int], ps, v, qs, w);
                    let a = sx.update(idx as int, inserted(sx[idx as int], qs, w));
                    let b = sy.update(idx as int, inserted(sy[idx as int], ps, v));
                    assert(xy == Tree::Sequence(a));
                    assert(yx == Tree::Sequence(b));
                    assert forall|i: int| #![trigger a[i]] 0 <= i < a.len() implies same_document(
                        a[i],
                        b[i],
                    ) by {
                        if i != idx {
                            assert(a[i] == b[i]);
                            lemma_same_document_reflexive(a[i]);
                        }
                    }
                    lemma_put_same(m, k, xy, yx);
                },
            }
        } else {
            let ip = p[0]->KeyIndex_1 as int;
            let iq = q[0]->KeyIndex_1 as int;
            assert(ip != iq);
            let under = get_or(m, k, d_seq).items();
            let sp = padded(under, ip + 1);
            let sq = padded(under, iq + 1);
            lemma_padded(under, ip + 1);
            lemma_padded(under, iq + 1);
            let sx = sp.update(ip, inserted(sp[ip], ps, v));
            let sy = sq.update(iq, inserted(sq[iq], qs, w));
            lemma_padded(sx, iq + 1);
            lemma_padded(sy, ip + 1);
            let tx = padded(sx, iq + 1);
            let ty = padded(sy, ip + 1);
            assert(tx[iq] == sq[iq]);
            assert(ty[ip] == sp[ip]);
            let a = tx.update(iq, inserted(tx[iq], qs, w));
            let b = ty.update(ip, inserted(ty[ip], ps, v));
            assert(xy == Tree::Sequence(a));
            assert(yx == Tree::Sequence(b));
            assert(a =~= b);
            lemma_same_document_reflexive(inserted(inserted(root, p, v), q, w));
        }
    }
}

} // verus!
