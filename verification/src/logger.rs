//! The text of a log record's key-value pairs.

use vstd::prelude::*;
use crate::dbus::directives_view;

verus! {

/// The pairs `pairs`, each written as `key=value`, with `, ` between two of them.
pub open spec fn pairs_text(pairs: Seq<(Seq<char>, Seq<char>)>) -> Seq<char>
    decreases pairs.len(),
{
    if pairs.len() == 0 {
        Seq::empty()
    } else if pairs.len() == 1 {
        pairs[0].0 + seq!['='] + pairs[0].1
    } else {
        pairs_text(pairs.drop_last()) + seq![',', ' '] + pairs.last().0 + seq!['='] + pairs.last().1
    }
}

/// What stands before a record's message for its pairs: nothing where it has
/// none, else the pairs inside braces, and a blank behind them.
pub open spec fn key_values_text(pairs: Seq<(Seq<char>, Seq<char>)>) -> Seq<char> {
    if pairs.len() == 0 {
        Seq::empty()
    } else {
        seq!['{'] + pairs_text(pairs) + seq!['}', ' ']
    }
}

/// Writes the key-value pairs of a log record, each value as it is to be shown.
pub fn write_key_value_pairs(pairs: &Vec<(String, String)>) -> (text: String)
    ensures
        text@ == key_values_text(directives_view(pairs@)),
{
    let mut text = String::new();
    if pairs.len() == 0 {
        return text;
    }
    proof {
        reveal_strlit("{");
        reveal_strlit("} ");
        reveal_strlit(", ");
        reveal_strlit("=");
        assert("{"@ =~= seq!['{']);
        assert("} "@ =~= seq!['}', ' ']);
        assert(", "@ =~= seq![',', ' ']);
        assert("="@ =~= seq!['=']);
    }
    text.append("{");
    let ghost all = directives_view(pairs@);
    let mut i: usize = 0;
    assert(text@ =~= seq!['{'] + pairs_text(all.take(0)));
    while i < pairs.len()
        invariant
            i <= pairs.len(),
            all == directives_view(pairs@),
            text@ == seq!['{'] + pairs_text(all.take(i as int)),
            "="@ == seq!['='],
            ", "@ == seq![',', ' '],
        decreases pairs.len() - i,
    {
        let ghost before = text@;
        assert(all.take(i + 1).drop_last() =~= all.take(i as int));
        assert(all.take(i + 1).last() == all[i as int]);
        assert(all.take(i + 1)[0] == all[0]);
        if i > 0 {
            text.append(", ");
        }
        text.append(pairs[i].0.as_str());
        text.append("=");
        text.append(pairs[i].1.as_str());
        assert(text@ =~= seq!['{'] + pairs_text(all.take(i + 1)));
        i += 1;
    }
    assert(all.take(i as int) =~= all);
    text.append("} ");
    text
}

} // verus!
