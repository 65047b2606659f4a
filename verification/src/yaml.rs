//! Building the document from label assignments.

use vstd::prelude::*;
use crate::codec::{decode_yaml, encode_yaml, node_view, yaml_decoded, yaml_encoded};
use crate::node::{
    entries_view, get_or, has_key, inserted, items_view, key_index, lemma_entries_well_formed,
    lemma_get_or_well_formed, lemma_inserted_well_formed, lemma_key_index_is, lemma_mapping_view,
    lemma_sequence_view, padded, path_view, put, Node, PathItem, Segment, Tree,
};
use crate::text::{
    chars_of, copy_range, find_char, first_index_of, string_of, string_of_range, trim_bounds, trimmed,
};

verus! {

/// The index of the first entry whose key is the text `key`, or the number of entries.
pub fn find_key(entries: &Vec<(Node, Node)>, key: &String) -> (i: usize)
    ensures
        i <= entries.len(),
        i == key_index(entries_view(entries@), key@, 0),
{
    let mut i: usize = 0;
    while i < entries.len()
        invariant
            i <= entries.len(),
            forall|j: int| 0 <= j < i ==> entries_view(entries@)[j].0 != Tree::Text(key@),
        decreases entries.len() - i,
    {
        let found = match &entries[i].0 {
            Node::Text(s) => *s == *key,
            _ => false,
        };
        if found {
            proof {
                lemma_key_index_is(entries_view(entries@), key@, i as int);
            }
            return i;
        }
        i += 1;
    }
    proof {
        lemma_key_index_is(entries_view(entries@), key@, i as int);
    }
    i
}

/// Takes the node as a mapping: what it held is lost unless it was one.
pub fn ensure_mapping(v: &mut Node) -> (m: &mut Vec<(Node, Node)>)
    ensures
        entries_view(m@) == old(v)@.entries(),
        *final(v) == Node::Mapping(*final(m)),
{
    let is_mapping = match v {
        Node::Mapping(_) => true,
        _ => false,
    };
    if !is_mapping {
        *v = Node::Mapping(Vec::new());
    }
    proof {
        if is_mapping {
            lemma_mapping_view(v->Mapping_0);
        } else {
            assert(entries_view(Seq::<(Node, Node)>::empty()) =~= Seq::<(Tree, Tree)>::empty());
        }
    }
    match v {
        Node::Mapping(m) => m,
        _ => vstd::pervasive::unreached(),
    }
}

/// The node under `key`, for going on below it: an empty mapping is put there
/// when the key is new.
pub fn ensure_mapping_for_key<'a>(mapping: &'a mut Vec<(Node, Node)>, key: &String) -> (child: &'a mut Node)
    ensures
        child@ == get_or(entries_view(old(mapping)@), key@, Tree::Mapping(Seq::empty())),
        entries_view(final(mapping)@) == put(entries_view(old(mapping)@), key@, final(child)@),
{
    let ghost before = entries_view(mapping@);
    let i = find_key(mapping, key);
    if i == mapping.len() {
        mapping.push((Node::Text(key.clone()), Node::Mapping(Vec::new())));
        proof {
            lemma_mapping_view(mapping@[i as int].1->Mapping_0);
            assert(entries_view(Seq::<(Node, Node)>::empty()) =~= Seq::<(Tree, Tree)>::empty());
        }
    }
    proof {
        let now = mapping@;
        assert forall|x: Node|
            entries_view(#[trigger] now.update(i as int, (now[i as int].0, x))) == put(before, key@, x@) by {
            assert(entries_view(now.update(i as int, (now[i as int].0, x))) =~= put(before, key@, x@));
        }
    }
    &mut mapping[i].1
}

/// The sequence under `key`, for storing at a position of it: what was under the
/// key is lost unless it was a sequence, and an empty one is put there.
pub fn ensure_sequence_for_key<'a>(mapping: &'a mut Vec<(Node, Node)>, key: &String) -> (seq: &'a mut Vec<Node>)
    ensures
        items_view(seq@) == get_or(entries_view(old(mapping)@), key@, Tree::Sequence(Seq::empty())).items(),
        entries_view(final(mapping)@) == put(
            entries_view(old(mapping)@),
            key@,
            Tree::Sequence(items_view(final(seq)@)),
        ),
{
    let ghost before = entries_view(mapping@);
    let i = find_key(mapping, key);
    if i == mapping.len() {
        mapping.push((Node::Text(key.clone()), Node::Sequence(Vec::new())));
    } else {
        let is_sequence = match &mapping[i].1 {
            Node::Sequence(_) => true,
            _ => false,
        };
        if !is_sequence {
            mapping[i].1 = Node::Sequence(Vec::new());
        } else {
            proof {
                lemma_sequence_view(mapping@[i as int].1->Sequence_0);
            }
        }
    }
    proof {
        let now = mapping@;
        assert(items_view(Seq::<Node>::empty()) =~= Seq::<Tree>::empty());
        assert forall|x: Vec<Node>|
            entries_view(#[trigger] now.update(i as int, (now[i as int].0, Node::Sequence(x)))) == put(
                before,
                key@,
                Tree::Sequence(items_view(x@)),
            ) by {
            lemma_sequence_view(x);
            assert(entries_view(now.update(i as int, (now[i as int].0, Node::Sequence(x)))) =~= put(
                before,
                key@,
                Tree::Sequence(items_view(x@)),
            ));
        }
    }
    match &mut mapping[i].1 {
        Node::Sequence(seq) => seq,
        _ => vstd::pervasive::unreached(),
    }
}

/// Whether every position in `path` leaves room for one more item.
pub open spec fn indices_fit(path: Seq<Segment>) -> bool {
    forall|i: int|
        0 <= i < path.len() ==> (#[trigger] path[i] matches Segment::KeyIndex(_, idx) ==> idx < usize::MAX)
}

/// Grows `seq` with nulls until it has at least `len` items.
pub fn pad_with_nulls(seq: &mut Vec<Node>, len: usize)
    ensures
        items_view(final(seq)@) == padded(items_view(old(seq)@), len as int),
{
    let ghost before = items_view(seq@);
    assert(before + Seq::new(0, |i: int| Tree::Null) =~= before);
    while seq.len() < len
        invariant
            before.len() <= seq.len(),
            seq.len() <= len || seq.len() == before.len(),
            items_view(seq@) == before + Seq::new((seq.len() - before.len()) as nat, |i: int| Tree::Null),
        decreases len - seq.len(),
    {
        let ghost prev = seq@;
        seq.push(Node::Null);
        assert(items_view(seq@) =~= before + Seq::new(
            (seq.len() - before.len()) as nat,
            |i: int| Tree::Null,
        )) by {
            assert(items_view(prev) == before + Seq::new(
                (prev.len() - before.len()) as nat,
                |i: int| Tree::Null,
            ));
            assert forall|j: int| 0 <= j < seq@.len() implies items_view(seq@)[j] == (before + Seq::new(
                (seq.len() - before.len()) as nat,
                |i: int| Tree::Null,
            ))[j] by {
                if j < prev.len() {
                    assert(items_view(prev)[j] == prev[j]@);
                }
            }
        }
    }
}

/// Assigns `val` at `path` below `root`.
///
/// Every node on the way is taken as a mapping, and what is under an indexed
/// segment's key as a sequence; a node of another shape loses what it held.
/// Sequences grow with nulls up to the position asked for.
pub fn insert(root: &mut Node, path: &[PathItem], val: Node)
    requires
        indices_fit(path_view(path@)),
    ensures
        final(root)@ == inserted(old(root)@, path_view(path@), val@),
{
    assert(path_view(path@).subrange(0, path@.len() as int) =~= path_view(path@));
    insert_from(root, path, 0, val);
}

/// Assigns `val` at `path[at..]` below `node`.
fn insert_from(node: &mut Node, path: &[PathItem], at: usize, val: Node)
    requires
        at <= path.len(),
        indices_fit(path_view(path@)),
    ensures
        final(node)@ == inserted(
            old(node)@,
            path_view(path@).subrange(at as int, path@.len() as int),
            val@,
        ),
    decreases path.len() - at,
{
    if at == path.len() {
        *node = val;
        return ;
    }
    let ghost segments = path_view(path@).subrange(at as int, path@.len() as int);
    let ghost rest = path_view(path@).subrange(at + 1, path@.len() as int);
    assert(segments.drop_first() =~= rest);
    assert(segments[0] == path@[at as int]@);
    assert(path_view(path@)[at as int] == path@[at as int]@);
    let mapping = ensure_mapping(node);
    match &path[at] {
        PathItem::Key(k) => {
            let child = ensure_mapping_for_key(mapping, k);
            insert_from(child, path, at + 1, val);
        },
        PathItem::KeyIndex(k, idx) => {
            let seq = ensure_sequence_for_key(mapping, k);
            let ghost short = items_view(seq@);
            pad_with_nulls(seq, *idx + 1);
            proof {
                let now = seq@;
                assert(items_view(now).len() == now.len());
                assert(padded(short, *idx + 1).len() >= *idx + 1);
                assert forall|x: Node|
                    items_view(#[trigger] now.update(*idx as int, x)) == items_view(now).update(
                        *idx as int,
                        x@,
                    ) by {
                    assert(items_view(now.update(*idx as int, x)) =~= items_view(now).update(*idx as int, x@));
                }
            }
            insert_from(&mut seq[*idx], path, at + 1, val);
        },
    }
    proof {
        lemma_mapping_view(node->Mapping_0);
    }
}

/// Whether `c` is one of the ten decimal digits.
pub open spec fn is_digit(c: char) -> bool {
    '0' <= c <= '9'
}

/// The number that the decimal digits `s` write; a character that is no digit counts as zero.
pub open spec fn decimal(s: Seq<char>) -> nat
    decreases s.len(),
{
    if s.len() == 0 {
        0
    } else {
        let d: nat = if is_digit(s.last()) {
            (s.last() as int - '0' as int) as nat
        } else {
            0
        };
        decimal(s.drop_last()) * 10 + d
    }
}

/// Whether `s` consists of decimal digits.
pub open spec fn all_digits(s: Seq<char>) -> bool {
    forall|i: int| 0 <= i < s.len() ==> is_digit(#[trigger] s[i])
}

/// The position that the decimal digits `d` give: their value, or zero where
/// the value does not fit the machine's word.
pub open spec fn index_value(d: Seq<char>) -> nat {
    if decimal(d) <= usize::MAX {
        decimal(d)
    } else {
        0
    }
}

/// Whether `s` writes a position: one or more decimal digits, and nothing else.
pub open spec fn is_index_text(s: Seq<char>) -> bool {
    s.len() > 0 && all_digits(s)
}

/// The segment that one part of a dotted path names: `name[position]` where
/// the part holds a `[`, ends in `]`, and what stands between the first `[`
/// and that `]` writes a position; the name is what stands before the first
/// `[`. Every other part is a key as a whole.
pub open spec fn segment_of(part: Seq<char>) -> Segment {
    let open = first_index_of(part, '[', 0);
    if open < part.len() && part.last() == ']' && is_index_text(part.subrange(open + 1, part.len() - 1)) {
        Segment::KeyIndex(part.subrange(0, open), index_value(part.subrange(open + 1, part.len() - 1)))
    } else {
        Segment::Key(part)
    }
}

/// The segments of `s[from..]`, split at each `.`.
pub open spec fn segments_from(s: Seq<char>, from: int) -> Seq<Segment>
    decreases s.len() - from,
{
    let i = first_index_of(s, '.', from);
    if from <= i < s.len() {
        seq![segment_of(s.subrange(from, i))] + segments_from(s, i + 1)
    } else {
        seq![segment_of(s.subrange(from, s.len() as int))]
    }
}

/// The segments of the dotted path `s`: one for each part between the dots.
pub open spec fn segments(s: Seq<char>) -> Seq<Segment> {
    segments_from(s, 0)
}

/// The position that `v` writes, or `None` where it writes none: where it is
/// empty or holds anything but decimal digits.
pub fn parse_index(v: &Vec<char>) -> (r: Option<usize>)
    ensures
        r is Some == is_index_text(v@),
        r matches Some(n) ==> n == index_value(v@),
{
    if v.len() == 0 {
        return None;
    }
    let mut acc: usize = 0;
    let mut fits = true;
    let mut i: usize = 0;
    while i < v.len()
        invariant
            i <= v.len(),
            forall|j: int| 0 <= j < i ==> is_digit(#[trigger] v@[j]),
            fits ==> acc == decimal(v@.subrange(0, i as int)),
            !fits ==> decimal(v@.subrange(0, i as int)) > usize::MAX,
        decreases v.len() - i,
    {
        let c = v[i];
        if c < '0' || c > '9' {
            assert(!is_digit(v@[i as int]));
            return None;
        }
        let d: usize = (c as u32 - '0' as u32) as usize;
        assert(v@.subrange(0, i + 1).drop_last() =~= v@.subrange(0, i as int));
        assert(v@.subrange(0, i + 1).last() == c);
        if fits && acc <= (usize::MAX - d) / 10 {
            acc = acc * 10 + d;
        } else {
            fits = false;
        }
        i += 1;
    }
    assert(v@.subrange(0, i as int) =~= v@);
    if fits {
        Some(acc)
    } else {
        Some(0)
    }
}

/// The segment that the part `part` of a dotted path names.
pub fn parse_segment(part: &Vec<char>) -> (item: PathItem)
    ensures
        item@ == segment_of(part@),
{
    let open = find_char(part, '[', 0);
    if open < part.len() && part[part.len() - 1] == ']' {
        let digits = copy_range(part, open + 1, part.len() - 1);
        match parse_index(&digits) {
            Some(index) => PathItem::KeyIndex(string_of_range(part, 0, open), index),
            None => PathItem::Key(string_of(part)),
        }
    } else {
        PathItem::Key(string_of(part))
    }
}

/// Splits the dotted path `s` into its segments.
pub fn parse_path(s: &str) -> (path: Vec<PathItem>)
    ensures
        path_view(path@) == segments(s@),
        path.len() > 0,
{
    let v = chars_of(s);
    let mut path: Vec<PathItem> = Vec::new();
    let mut from: usize = 0;
    let mut done = false;
    assert(path_view(path@) + segments_from(v@, 0) =~= segments(v@));
    while !done
        invariant
            from <= v.len(),
            v@ == s@,
            !done ==> path_view(path@) + segments_from(v@, from as int) == segments(v@),
            done ==> path_view(path@) == segments(v@),
            done ==> path.len() > 0,
        decreases v.len() - from + (if done { 0int } else { 1int }),
    {
        let i = find_char(&v, '.', from);
        let part = copy_range(&v, from, i);
        let item = parse_segment(&part);
        let ghost before = path_view(path@);
        path.push(item);
        assert(path_view(path@) =~= before + seq![segment_of(part@)]);
        if i == v.len() {
            done = true;
            assert(segments_from(v@, from as int) == seq![segment_of(part@)]);
        } else {
            assert(segments_from(v@, from as int) == seq![segment_of(part@)] + segments_from(v@, i + 1));
            assert(before + (seq![segment_of(part@)] + segments_from(v@, i + 1)) =~= (before + seq![
                segment_of(part@),
            ]) + segments_from(v@, i + 1));
            from = i + 1;
        }
    }
    path
}

/// Why no document text was built.
#[derive(Debug, Clone, Copy, PartialEq, Eq, Structural)]
pub enum BuildError {
    /// An assignment holds no `=`.
    MissingEquals,
    /// A position in a path is the largest number of the machine's word, so that
    /// no sequence can reach it.
    IndexTooLarge,
    /// The document cannot be written as text.
    Unwritable,
}

impl BuildError {
    /// What went wrong, in words.
    pub fn message(&self) -> (text: String)
        ensures
            text@ == (match *self {
                BuildError::MissingEquals => "missing '=' in assignment"@,
                BuildError::IndexTooLarge => "sequence position out of range"@,
                BuildError::Unwritable => "document cannot be written"@,
            }),
    {
        match self {
            BuildError::MissingEquals => String::from_str("missing '=' in assignment"),
            BuildError::IndexTooLarge => String::from_str("sequence position out of range"),
            BuildError::Unwritable => String::from_str("document cannot be written"),
        }
    }
}

/// `raw` without one layer of surrounding quotes: double quotes where it starts
/// and ends with one, else single quotes where it starts and ends with one.
pub open spec fn unquoted(raw: Seq<char>) -> Seq<char> {
    if raw.len() >= 2 && raw[0] == '"' && raw.last() == '"' {
        raw.subrange(1, raw.len() - 1)
    } else if raw.len() >= 2 && raw[0] == '\'' && raw.last() == '\'' {
        raw.subrange(1, raw.len() - 1)
    } else {
        raw
    }
}

/// The value that the text `raw` assigns, given what the document format reads
/// from it: that, where it reads anything; else the text itself, without one
/// layer of quotes.
pub open spec fn decoded(raw: Seq<char>, parsed: Option<Tree>) -> Tree {
    match parsed {
        Some(doc) => doc,
        None => Tree::Text(unquoted(raw)),
    }
}

/// The path and the value of the assignment `line`: the line is split at its
/// first `=` and both sides are trimmed; `None` where it holds no `=`.
pub open spec fn assignment(line: Seq<char>) -> Option<(Seq<Segment>, Tree)> {
    let i = first_index_of(line, '=', 0);
    if i < line.len() {
        let raw = trimmed(line.subrange(i + 1, line.len() as int));
        Some((segments(trimmed(line.subrange(0, i))), decoded(raw, yaml_decoded(raw))))
    } else {
        None
    }
}

/// The value that the text `raw` assigns, given what the document format read from it.
pub fn value_or_text(raw: &Vec<char>, parsed: Option<Node>) -> (value: Node)
    ensures
        value@ == decoded(raw@, node_view(parsed)),
{
    match parsed {
        Some(node) => node,
        None => {
            let n = raw.len();
            if n >= 2 && raw[0] == '"' && raw[n - 1] == '"' {
                Node::Text(string_of_range(raw, 1, n - 1))
            } else if n >= 2 && raw[0] == '\'' && raw[n - 1] == '\'' {
                Node::Text(string_of_range(raw, 1, n - 1))
            } else {
                Node::Text(string_of(raw))
            }
        },
    }
}

/// Reads one assignment `path = value`.
pub fn parse_assignment(line: String) -> (r: Result<(Vec<PathItem>, Node), BuildError>)
    ensures
        match r {
            Ok((path, value)) => assignment(line@) == Some((path_view(path@), value@))
                && value@.well_formed() && path.len() > 0,
            Err(e) => e == BuildError::MissingEquals && assignment(line@) is None,
        },
{
    let v = chars_of(line.as_str());
    let i = find_char(&v, '=', 0);
    if i == v.len() {
        return Err(BuildError::MissingEquals);
    }
    let left = copy_range(&v, 0, i);
    let (a, b) = trim_bounds(&left, None);
    let key = string_of_range(&left, a, b);
    let right = copy_range(&v, i + 1, v.len());
    let (c, d) = trim_bounds(&right, None);
    let raw = copy_range(&right, c, d);
    let raw_text = string_of(&raw);
    let parsed = decode_yaml(raw_text.as_str());
    let value = value_or_text(&raw, parsed);
    let path = parse_path(key.as_str());
    Ok((path, value))
}

/// The key under which all the proxy's labels stand.
pub open spec fn root_key() -> Seq<char> {
    "traefik"@
}

/// The document without its root key: where `doc` is a mapping that has the root
/// key, what stands under that key; `doc` itself otherwise.
pub open spec fn unwrapped(doc: Tree) -> Tree {
    match doc {
        Tree::Mapping(m) => if has_key(m, root_key()) {
            get_or(m, root_key(), Tree::Null)
        } else {
            doc
        },
        _ => doc,
    }
}

/// Whether the assignment `line` can be applied: it holds a `=`, and every
/// position in its path leaves room for one more item.
pub open spec fn line_ok(line: Seq<char>) -> bool {
    assignment(line) matches Some(a) && indices_fit(a.0)
}

/// The error that the assignment `line` gives where it cannot be applied.
pub open spec fn line_error(line: Seq<char>) -> BuildError {
    if assignment(line) is None {
        BuildError::MissingEquals
    } else {
        BuildError::IndexTooLarge
    }
}

/// The document after the first `n` assignments of `lines` were applied, in
/// order, to an empty mapping.
pub open spec fn built(lines: Seq<Seq<char>>, n: int) -> Tree
    decreases n,
{
    if n <= 0 {
        Tree::Mapping(Seq::empty())
    } else {
        let a = assignment(lines[n - 1])->Some_0;
        inserted(built(lines, n - 1), a.0, a.1)
    }
}

/// The texts of `lines`, in order.
pub open spec fn lines_view(lines: Seq<String>) -> Seq<Seq<char>> {
    Seq::new(lines.len(), |i: int| lines[i]@)
}

/// Whether `i` is the first assignment of `lines` that cannot be applied.
pub open spec fn first_bad_line(lines: Seq<Seq<char>>, i: int) -> bool {
    &&& 0 <= i < lines.len()
    &&& !line_ok(lines[i])
    &&& forall|j: int| 0 <= j < i ==> line_ok(#[trigger] lines[j])
}

/// Whether every assignment of `lines` can be applied.
pub open spec fn all_lines_ok(lines: Seq<Seq<char>>) -> bool {
    forall|j: int| 0 <= j < lines.len() ==> line_ok(#[trigger] lines[j])
}

/// Whether every position in `path` leaves room for one more item.
pub fn path_fits(path: &Vec<PathItem>) -> (b: bool)
    ensures
        b == indices_fit(path_view(path@)),
{
    let mut i: usize = 0;
    while i < path.len()
        invariant
            i <= path.len(),
            forall|j: int|
                0 <= j < i ==> (#[trigger] path_view(path@)[j] matches Segment::KeyIndex(_, idx) ==> idx
                    < usize::MAX),
        decreases path.len() - i,
    {
        let fits = match &path[i] {
            PathItem::KeyIndex(_, idx) => *idx < usize::MAX,
            PathItem::Key(_) => true,
        };
        if !fits {
            assert(path_view(path@)[i as int] == path@[i as int]@);
            return false;
        }
        assert(path_view(path@)[i as int] == path@[i as int]@);
        i += 1;
    }
    true
}

/// Takes the document out from under the root key, where it has one.
pub fn unwrap_root(doc: Node) -> (r: Node)
    ensures
        r@ == unwrapped(doc@),
{
    match doc {
        Node::Mapping(entries) => {
            let mut entries = entries;
            proof {
                lemma_mapping_view(entries);
            }
            let key = String::from_str("traefik");
            let i = find_key(&entries, &key);
            if i < entries.len() {
                let entry = entries.swap_remove(i);
                entry.1
            } else {
                Node::Mapping(entries)
            }
        },
        other => other,
    }
}

/// Applies the assignments `lines`, in order, to an empty mapping.
///
/// Stops at the first assignment that cannot be applied, with its error.
pub fn build_document(lines: &Vec<String>) -> (r: Result<Node, BuildError>)
    ensures
        match r {
            Ok(doc) => all_lines_ok(lines_view(lines@)) && doc@ == built(
                lines_view(lines@),
                lines.len() as int,
            ) && doc@.well_formed(),
            Err(e) => exists|i: int| #[trigger]
                first_bad_line(lines_view(lines@), i) && e == line_error(lines_view(lines@)[i]),
        },
{
    let mut root = Node::Mapping(Vec::new());
    proof {
        lemma_mapping_view(root->Mapping_0);
        assert(root@->Mapping_0 =~= Seq::<(Tree, Tree)>::empty());
    }
    let ghost texts = lines_view(lines@);
    let mut n: usize = 0;
    while n < lines.len()
        invariant
            n <= lines.len(),
            texts == lines_view(lines@),
            forall|j: int| 0 <= j < n ==> line_ok(#[trigger] texts[j]),
            root@ == built(texts, n as int),
            root@.well_formed(),
        decreases lines.len() - n,
    {
        assert(texts[n as int] == lines@[n as int]@);
        match parse_assignment(lines[n].clone()) {
            Err(e) => {
                assert(first_bad_line(texts, n as int));
                return Err(e);
            },
            Ok((path, value)) => {
                if !path_fits(&path) {
                    assert(first_bad_line(texts, n as int));
                    return Err(BuildError::IndexTooLarge);
                }
                proof {
                    lemma_inserted_well_formed(root@, path_view(path@), value@);
                }
                insert(&mut root, path.as_slice(), value);
            },
        }
        n += 1;
    }
    Ok(root)
}

/// Builds the proxy's configuration text from the label assignments `lines`.
///
/// The assignments are applied in order to an empty mapping, the result is taken
/// out from under the root key, and what is left is written as text.
pub fn build_traefik_file_yaml(lines: Vec<String>) -> (r: Result<String, BuildError>)
    ensures
        match r {
            Ok(text) => all_lines_ok(lines_view(lines@)) && yaml_encoded(
                unwrapped(built(lines_view(lines@), lines.len() as int)),
            ) == Some(text@),
            Err(e) => if all_lines_ok(lines_view(lines@)) {
                e == BuildError::Unwritable && yaml_encoded(
                    unwrapped(built(lines_view(lines@), lines.len() as int)),
                ) is None
            } else {
                exists|i: int| #[trigger]
                    first_bad_line(lines_view(lines@), i) && e == line_error(lines_view(lines@)[i])
            },
        },
{
    match build_document(&lines) {
        Err(e) => Err(e),
        Ok(doc) => {
            proof {
                lemma_unwrapped_well_formed(doc@);
            }
            let inner = unwrap_root(doc);
            match encode_yaml(&inner) {
                Some(text) => Ok(text),
                None => Err(BuildError::Unwritable),
            }
        },
    }
}

/// A well-formed document stays well-formed when it is taken out from under the root key.
pub proof fn lemma_unwrapped_well_formed(doc: Tree)
    requires
        doc.well_formed(),
    ensures
        unwrapped(doc).well_formed(),
{
    lemma_entries_well_formed(doc);
    lemma_get_or_well_formed(doc.entries(), root_key(), Tree::Null);
}

} // verus!
