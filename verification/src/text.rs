//! Character-level helpers over `Vec<char>`, each stated over `Seq<char>`.

use vstd::prelude::*;

verus! {

broadcast use vstd::string::group_string_axioms;

/// Whether `c` has the Unicode `White_Space` property, as `char::is_whitespace` decides it.
pub uninterp spec fn whitespace(c: char) -> bool;

/// Whether `c` is whitespace. Below `U+0080` these are the blank and the five
/// characters from the tabulator `U+0009` to the carriage return `U+000D`;
/// above, whatever has the Unicode `White_Space` property.
pub open spec fn is_blank(c: char) -> bool {
    if (c as u32) < 0x80 {
        c == ' ' || 0x09 <= (c as u32) <= 0x0d
    } else {
        whitespace(c)
    }
}

/// `char::is_whitespace`: the result is a function of the character alone, and
/// of the characters below `U+0080` exactly the blank and `U+0009` to `U+000D`
/// are whitespace.
pub assume_specification[ char::is_whitespace ](c: char) -> (b: bool)
    ensures
        b == whitespace(c),
        b == is_blank(c),
;

/// `String::push` appends the one character to the text.
pub assume_specification[ String::push ](s: &mut String, c: char)
    ensures
        final(s)@ == old(s)@.push(c),
;

/// Whether trimming drops `c`: whitespace when `of` is `None`, else the one character `of` holds.
pub open spec fn dropped(c: char, of: Option<char>) -> bool {
    match of {
        None => is_blank(c),
        Some(x) => c == x,
    }
}

/// The index of the first character at or after `from` that trimming keeps,
/// or the length of `s` when there is none.
pub open spec fn skip_front(s: Seq<char>, of: Option<char>, from: int) -> int
    decreases s.len() - from,
{
    if 0 <= from < s.len() && dropped(s[from], of) {
        skip_front(s, of, from + 1)
    } else {
        from
    }
}

/// The end of the longest stretch `[lo, end)` with `end <= to` whose last character
/// trimming keeps; `lo` when there is none.
pub open spec fn skip_back(s: Seq<char>, of: Option<char>, lo: int, to: int) -> int
    decreases to - lo,
{
    if lo < to <= s.len() && dropped(s[to - 1], of) {
        skip_back(s, of, lo, to - 1)
    } else {
        to
    }
}

/// `s` without its leading and trailing dropped characters.
pub open spec fn trimmed_by(s: Seq<char>, of: Option<char>) -> Seq<char> {
    let lo = skip_front(s, of, 0);
    s.subrange(lo, skip_back(s, of, lo, s.len() as int))
}

/// `s` without leading and trailing whitespace.
pub open spec fn trimmed(s: Seq<char>) -> Seq<char> {
    trimmed_by(s, None)
}

/// `s` without leading and trailing occurrences of `c`.
pub open spec fn trimmed_of(s: Seq<char>, c: char) -> Seq<char> {
    trimmed_by(s, Some(c))
}

/// Where `skip_front` stops: everything before is dropped, what it stops at is kept.
pub proof fn lemma_skip_front_bounds(s: Seq<char>, of: Option<char>, from: int)
    requires
        0 <= from <= s.len(),
    ensures
        from <= skip_front(s, of, from) <= s.len(),
        forall|i: int| from <= i < skip_front(s, of, from) ==> dropped(s[i], of),
        skip_front(s, of, from) < s.len() ==> !dropped(s[skip_front(s, of, from)], of),
    decreases s.len() - from,
{
    if from < s.len() && dropped(s[from], of) {
        lemma_skip_front_bounds(s, of, from + 1);
    }
}

/// Where `skip_back` stops: everything after is dropped, what it stops behind is kept.
pub proof fn lemma_skip_back_bounds(s: Seq<char>, of: Option<char>, lo: int, to: int)
    requires
        0 <= lo <= to <= s.len(),
    ensures
        lo <= skip_back(s, of, lo, to) <= to,
        forall|i: int| skip_back(s, of, lo, to) <= i < to ==> dropped(s[i], of),
        skip_back(s, of, lo, to) > lo ==> !dropped(s[skip_back(s, of, lo, to) - 1], of),
    decreases to - lo,
{
    if lo < to && dropped(s[to - 1], of) {
        lemma_skip_back_bounds(s, of, lo, to - 1);
    }
}

/// The characters of `s`, in order.
pub fn chars_of(s: &str) -> (v: Vec<char>)
    ensures
        v@ == s@,
{
    let mut v: Vec<char> = Vec::new();
    for c in it: s.chars()
        invariant
            it.seq() == s@,
            v@ == s@.take(it.index()),
    {
        v.push(c);
    }
    v
}

/// The text made of the characters `v[from..to]`.
pub fn string_of_range(v: &Vec<char>, from: usize, to: usize) -> (s: String)
    requires
        from <= to <= v.len(),
    ensures
        s@ == v@.subrange(from as int, to as int),
{
    let mut s = String::new();
    let mut i: usize = from;
    while i < to
        invariant
            from <= i <= to <= v.len(),
            s@ == v@.subrange(from as int, i as int),
        decreases to - i,
    {
        s.push(v[i]);
        i += 1;
    }
    s
}

/// The text made of the characters of `v`.
pub fn string_of(v: &Vec<char>) -> (s: String)
    ensures
        s@ == v@,
{
    let s = string_of_range(v, 0, v.len());
    assert(v@.subrange(0, v@.len() as int) == v@);
    s
}

/// A copy of `v[from..to]`.
pub fn copy_range(v: &Vec<char>, from: usize, to: usize) -> (r: Vec<char>)
    requires
        from <= to <= v.len(),
    ensures
        r@ == v@.subrange(from as int, to as int),
{
    let mut r: Vec<char> = Vec::new();
    let mut i: usize = from;
    while i < to
        invariant
            from <= i <= to <= v.len(),
            r@ == v@.subrange(from as int, i as int),
        decreases to - i,
    {
        r.push(v[i]);
        i += 1;
    }
    r
}

/// The bounds of what trimming keeps of `v`; it drops whitespace when `of` is `None`,
/// else the one character that `of` holds.
pub fn trim_bounds(v: &Vec<char>, of: Option<char>) -> (r: (usize, usize))
    ensures
        r.0 <= r.1 <= v.len(),
        r.0 == skip_front(v@, of, 0),
        r.1 == skip_back(v@, of, r.0 as int, v@.len() as int),
        v@.subrange(r.0 as int, r.1 as int) == trimmed_by(v@, of),
{
    let mut lo: usize = 0;
    while lo < v.len() && is_dropped(v[lo], of)
        invariant
            lo <= v.len(),
            skip_front(v@, of, 0) == skip_front(v@, of, lo as int),
        decreases v.len() - lo,
    {
        lo += 1;
    }
    let mut hi: usize = v.len();
    while hi > lo && is_dropped(v[hi - 1], of)
        invariant
            lo <= hi <= v.len(),
            skip_back(v@, of, lo as int, v@.len() as int) == skip_back(v@, of, lo as int, hi as int),
        decreases hi - lo,
    {
        hi -= 1;
    }
    (lo, hi)
}

/// Whether trimming drops `c`.
pub fn is_dropped(c: char, of: Option<char>) -> (b: bool)
    ensures
        b == dropped(c, of),
{
    match of {
        None => c.is_whitespace(),
        Some(x) => c == x,
    }
}

/// The index of the first `c` in `s` at or after `from`, or the length of `s`.
pub open spec fn first_index_of(s: Seq<char>, c: char, from: int) -> int
    decreases s.len() - from,
{
    if 0 <= from < s.len() && s[from] != c {
        first_index_of(s, c, from + 1)
    } else {
        from
    }
}

/// The index of the first `c` in `v` at or after `from`, or the length of `v`.
pub fn find_char(v: &Vec<char>, c: char, from: usize) -> (i: usize)
    requires
        from <= v.len(),
    ensures
        from <= i <= v.len(),
        i == first_index_of(v@, c, from as int),
        i < v.len() ==> v@[i as int] == c,
        forall|j: int| from <= j < i ==> v@[j] != c,
{
    let mut i: usize = from;
    while i < v.len() && v[i] != c
        invariant
            from <= i <= v.len(),
            first_index_of(v@, c, from as int) == first_index_of(v@, c, i as int),
            forall|j: int| from <= j < i ==> v@[j] != c,
        decreases v.len() - i,
    {
        i += 1;
    }
    i
}

/// Whether `v` and `w` hold the same characters.
pub fn same_chars(v: &Vec<char>, w: &Vec<char>) -> (b: bool)
    ensures
        b == (v@ == w@),
{
    if v.len() != w.len() {
        return false;
    }
    let mut i: usize = 0;
    while i < v.len()
        invariant
            i <= v.len(),
            v.len() == w.len(),
            forall|j: int| 0 <= j < i ==> v@[j] == w@[j],
        decreases v.len() - i,
    {
        if v[i] != w[i] {
            return false;
        }
        i += 1;
    }
    assert(v@ =~= w@);
    true
}

/// Whether `s` ends with the characters `suffix`.
pub open spec fn ends_with(s: Seq<char>, suffix: Seq<char>) -> bool {
    suffix.len() <= s.len() && s.subrange(s.len() - suffix.len(), s.len() as int) == suffix
}

/// Whether `v` ends with the characters of `suffix`.
pub fn has_suffix(v: &Vec<char>, suffix: &Vec<char>) -> (b: bool)
    ensures
        b == ends_with(v@, suffix@),
{
    if suffix.len() > v.len() {
        return false;
    }
    let base: usize = v.len() - suffix.len();
    let mut i: usize = 0;
    while i < suffix.len()
        invariant
            i <= suffix.len(),
            base + suffix.len() == v.len(),
            forall|j: int| 0 <= j < i ==> v@[base + j] == suffix@[j],
        decreases suffix.len() - i,
    {
        if v[base + i] != suffix[i] {
            assert(v@.subrange(base as int, v@.len() as int)[i as int] != suffix@[i as int]);
            return false;
        }
        i += 1;
    }
    assert(v@.subrange(base as int, v@.len() as int) =~= suffix@);
    true
}

} // verus!
