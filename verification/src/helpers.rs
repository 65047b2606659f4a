//! File names that are safe to write, made from unit names.

use vstd::prelude::*;
use crate::text::{
    chars_of, lemma_skip_back_bounds, lemma_skip_front_bounds, skip_back, skip_front, string_of_range,
    trim_bounds, trimmed_of,
};

verus! {

/// The ASCII text that `deunicode` gives for `s`, with `placeholder` for each
/// character that it does not know.
pub uninterp spec fn transliterated(s: Seq<char>, placeholder: Seq<char>) -> Seq<char>;

/// Whether every character of `s` is below `U+007F`.
pub open spec fn plain_ascii(s: Seq<char>) -> bool {
    forall|i: int| 0 <= i < s.len() ==> (#[trigger] s[i] as u32) < 0x7f
}

/// The nearest ASCII text for `s`: `s` itself where it is plain ASCII already.
pub open spec fn ascii_text(s: Seq<char>, placeholder: Seq<char>) -> Seq<char> {
    if plain_ascii(s) {
        s
    } else {
        transliterated(s, placeholder)
    }
}

/// Whether a file name may hold `c`: an ASCII letter or digit, `.`, `-` or `_`.
pub open spec fn is_safe(c: char) -> bool {
    ('a' <= c <= 'z') || ('A' <= c <= 'Z') || ('0' <= c <= '9') || c == '.' || c == '-' || c == '_'
}

/// `c` where a file name may hold it, `_` in its place otherwise.
pub open spec fn safe_or_underscore(c: char) -> char {
    if is_safe(c) {
        c
    } else {
        '_'
    }
}

/// `s` with `_` in the place of every character that a file name may not hold.
pub open spec fn cleaned(s: Seq<char>) -> Seq<char> {
    Seq::new(s.len(), |i: int| safe_or_underscore(s[i]))
}

/// `s` with every run of `c` made one `c`.
pub open spec fn squeezed(s: Seq<char>, c: char) -> Seq<char>
    decreases s.len(),
{
    if s.len() == 0 {
        s
    } else if s.len() >= 2 && s[s.len() - 2] == c && s.last() == c {
        squeezed(s.drop_last(), c)
    } else {
        squeezed(s.drop_last(), c).push(s.last())
    }
}

/// The name that stands for an empty result.
pub open spec fn fallback_name() -> Seq<char> {
    "untitled"@
}

/// The file name made from `s`: its nearest ASCII text, with `_` in the place
/// of what a file name may not hold, without leading and trailing `_`, and with
/// runs of `_` made one; the fallback name where nothing is left.
pub open spec fn sanitized(s: Seq<char>) -> Seq<char> {
    let t = squeezed(trimmed_of(cleaned(ascii_text(s, seq!['_'])), '_'), '_');
    if t.len() == 0 {
        fallback_name()
    } else {
        t
    }
}

/// `deunicode::deunicode_with_tofu`: the result is a function of the two texts,
/// and a text whose characters are all below `U+007F` comes back unchanged.
#[verifier::external_body]
fn transliterate(s: &str, placeholder: &str) -> (r: String)
    ensures
        r@ == transliterated(s@, placeholder@),
        plain_ascii(s@) ==> r@ == s@,
{
    deunicode::deunicode_with_tofu(s, placeholder)
}

/// `regex::Regex::new` on `pattern`, then `Regex::replace_all` on `haystack` with
/// `replacement`; `None` where the pattern is refused. The contract speaks of one
/// pattern only: `_+` is accepted, and with the replacement `_` every run of
/// underscores becomes a single one.
#[verifier::external_body]
fn regex_replace_all(pattern: &str, haystack: &str, replacement: &str) -> (r: Option<String>)
    ensures
        pattern@ == seq!['_', '+'] && replacement@ == seq!['_'] ==> r is Some && r->0@ == squeezed(
            haystack@,
            '_',
        ),
{
    match regex::Regex::new(pattern) {
        Ok(re) => Some(re.replace_all(haystack, replacement).into_owned()),
        Err(_) => None,
    }
}

/// Whether a file name may hold `c`.
pub fn is_safe_char(c: char) -> (b: bool)
    ensures
        b == is_safe(c),
{
    (c >= 'a' && c <= 'z') || (c >= 'A' && c <= 'Z') || (c >= '0' && c <= '9') || c == '.' || c == '-'
        || c == '_'
}

/// Squeezing keeps the first and the last character, keeps safe characters safe,
/// and leaves no two `c` side by side.
pub proof fn lemma_squeezed(s: Seq<char>, c: char)
    ensures
        squeezed(s, c).len() <= s.len(),
        s.len() > 0 ==> squeezed(s, c).len() > 0 && squeezed(s, c)[0] == s[0] && squeezed(s, c).last()
            == s.last(),
        (forall|i: int| 0 <= i < s.len() ==> is_safe(#[trigger] s[i])) ==> (forall|i: int|
            0 <= i < squeezed(s, c).len() ==> is_safe(#[trigger] squeezed(s, c)[i])),
        forall|i: int|
            0 < i < squeezed(s, c).len() ==> !(squeezed(s, c)[i - 1] == c && #[trigger] squeezed(s, c)[i]
                == c),
    decreases s.len(),
{
    if s.len() > 0 {
        let head = s.drop_last();
        lemma_squeezed(head, c);
        if forall|i: int| 0 <= i < s.len() ==> is_safe(#[trigger] s[i]) {
            assert forall|i: int| 0 <= i < head.len() implies is_safe(#[trigger] head[i]) by {
                assert(head[i] == s[i]);
            }
        }
    }
}

/// A text without two `c` side by side is its own squeezed form.
pub proof fn lemma_squeezed_fixed(s: Seq<char>, c: char)
    requires
        forall|i: int| 0 < i < s.len() ==> !(s[i - 1] == c && #[trigger] s[i] == c),
    ensures
        squeezed(s, c) == s,
    decreases s.len(),
{
    if s.len() > 0 {
        let head = s.drop_last();
        assert forall|i: int| 0 < i < head.len() implies !(head[i - 1] == c && #[trigger] head[i] == c) by {
            assert(head[i] == s[i]);
            assert(head[i - 1] == s[i - 1]);
        }
        lemma_squeezed_fixed(head, c);
        if s.len() >= 2 {
            assert(!(s[s.len() - 2] == c && s[s.len() - 1] == c));
        }
        assert(head.push(s.last()) =~= s);
    }
}

/// The fallback name is safe, and holds no underscore.
pub proof fn lemma_fallback_name()
    ensures
        fallback_name().len() == 8,
        forall|i: int| 0 <= i < fallback_name().len() ==> is_safe(#[trigger] fallback_name()[i]),
        forall|i: int| 0 <= i < fallback_name().len() ==> #[trigger] fallback_name()[i] != '_',
{
    reveal_strlit("untitled");
}

/// Whether a text is what a sanitized name looks like: not empty, safe in every
/// character, without `_` at either end, and without two `_` side by side.
pub open spec fn is_clean_name(r: Seq<char>) -> bool {
    &&& r.len() > 0
    &&& forall|i: int| 0 <= i < r.len() ==> is_safe(#[trigger] r[i])
    &&& r[0] != '_'
    &&& r.last() != '_'
    &&& forall|i: int| 0 < i < r.len() ==> !(r[i - 1] == '_' && #[trigger] r[i] == '_')
}

/// Every sanitized name is a clean name.
pub proof fn lemma_sanitized_is_clean(s: Seq<char>)
    ensures
        is_clean_name(sanitized(s)),
{
    let c = cleaned(ascii_text(s, seq!['_']));
    let lo = skip_front(c, Some('_'), 0);
    lemma_skip_front_bounds(c, Some('_'), 0);
    let hi = skip_back(c, Some('_'), lo, c.len() as int);
    lemma_skip_back_bounds(c, Some('_'), lo, c.len() as int);
    let t = trimmed_of(c, '_');
    assert(t == c.subrange(lo, hi));
    lemma_squeezed(t, '_');
    lemma_fallback_name();
    if squeezed(t, '_').len() > 0 {
        assert(t.len() > 0);
        assert(t[0] == c[lo]);
        assert(t.last() == c[hi - 1]);
        assert forall|i: int| 0 <= i < t.len() implies is_safe(#[trigger] t[i]) by {
            assert(t[i] == c[lo + i]);
        }
    }
}

/// A clean name is its own sanitized form.
pub proof fn lemma_clean_name_fixed(r: Seq<char>)
    requires
        is_clean_name(r),
    ensures
        sanitized(r) == r,
{
    assert(plain_ascii(r)) by {
        assert forall|i: int| 0 <= i < r.len() implies (#[trigger] r[i] as u32) < 0x7f by {
            assert(is_safe(r[i]));
        }
    }
    let c = cleaned(r);
    assert(c =~= r) by {
        assert forall|i: int| 0 <= i < r.len() implies c[i] == r[i] by {
            assert(is_safe(r[i]));
        }
    }
    lemma_skip_front_bounds(r, Some('_'), 0);
    assert(skip_front(r, Some('_'), 0) == 0);
    lemma_skip_back_bounds(r, Some('_'), 0, r.len() as int);
    assert(skip_back(r, Some('_'), 0, r.len() as int) == r.len());
    assert(trimmed_of(r, '_') =~= r);
    lemma_squeezed_fixed(r, '_');
}

/// Sanitizing twice gives what sanitizing once gives.
pub proof fn lemma_sanitize_idempotent(s: Seq<char>)
    ensures
        sanitized(sanitized(s)) == sanitized(s),
{
    lemma_sanitized_is_clean(s);
    lemma_clean_name_fixed(sanitized(s));
}

/// A text of plain ASCII characters none of which is a letter, a digit, `.` or
/// `-` gives the fallback name.
pub proof fn lemma_symbols_give_fallback(s: Seq<char>)
    requires
        plain_ascii(s),
        forall|i: int| 0 <= i < s.len() ==> !is_safe(#[trigger] s[i]) || s[i] == '_',
    ensures
        sanitized(s) == fallback_name(),
{
    let c = cleaned(s);
    assert forall|i: int| 0 <= i < c.len() implies #[trigger] c[i] == '_' by {}
    lemma_skip_front_bounds(c, Some('_'), 0);
    let lo = skip_front(c, Some('_'), 0);
    if lo < c.len() {
        assert(c[lo] == '_');
    }
    lemma_skip_back_bounds(c, Some('_'), lo, c.len() as int);
    assert(trimmed_of(c, '_').len() == 0);
}

/// Makes a file name from `s` that is safe to write.
///
/// The result is never empty and holds ASCII letters, digits, `.`, `-` and `_` only.
pub fn sanitize_filename(s: &str) -> (r: String)
    ensures
        r@ == sanitized(s@),
        is_clean_name(r@),
{
    proof {
        reveal_strlit("_");
        reveal_strlit("_+");
        assert("_"@ =~= seq!['_']);
        assert("_+"@ =~= seq!['_', '+']);
        lemma_sanitized_is_clean(s@);
    }
    let ascii = transliterate(s, "_");
    let chars = chars_of(ascii.as_str());
    let mut out: Vec<char> = Vec::new();
    let mut i: usize = 0;
    while i < chars.len()
        invariant
            i <= chars.len(),
            out.len() == i,
            forall|j: int| 0 <= j < i ==> out@[j] == safe_or_underscore(chars@[j]),
        decreases chars.len() - i,
    {
        let c = chars[i];
        if is_safe_char(c) {
            out.push(c);
        } else {
            out.push('_');
        }
        i += 1;
    }
    assert(out@ =~= cleaned(chars@));
    let (lo, hi) = trim_bounds(&out, Some('_'));
    let kept = string_of_range(&out, lo, hi);
    let squeezed_text = match regex_replace_all("_+", kept.as_str(), "_") {
        Some(text) => text,
        None => vstd::pervasive::unreached(),
    };
    if squeezed_text.as_str().is_empty() {
        String::from_str("untitled")
    } else {
        squeezed_text
    }
}

} // verus!
