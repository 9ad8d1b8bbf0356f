//! Building strings symbol by symbol.
use vstd::prelude::*;

verus! {

/// Appends `c` to `s`, by `String::push`.
#[verifier::external_body]
pub(crate) fn push_char(s: &mut String, c: char)
    ensures
        final(s)@ == old(s)@.push(c),
{
    s.push(c);
}

/// The string whose symbols are those of `word`, in order.
pub fn string_from_chars(word: &Vec<char>) -> (res: String)
    ensures
        res@ == word@,
{
    let mut s = String::new();
    for i in 0..word.len()
        invariant
            s@ == word@.take(i as int),
    {
        push_char(&mut s, word[i]);
        assert(word@.take(i + 1) =~= word@.take(i as int).push(word@[i as int]));
    }
    assert(word@.take(word.len() as int) =~= word@);
    s
}

} // verus!
