//! Strings as sequences of characters.

use vstd::prelude::*;

verus! {

/// The characters of a string.
pub fn chars_of(s: &str) -> (chars: Vec<char>)
    ensures
        chars@ == s@,
{
    let mut chars: Vec<char> = Vec::new();
    for c in it: s.chars()
        invariant
            it.seq() == s@,
            chars@ == it.seq().take(it.index()),
    {
        chars.push(c);
        assert(chars@ =~= it.seq().take(it.index() + 1));
    }
    assert(chars@ =~= s@);
    chars
}

/// Appends the characters from `from` up to `to` to a string.
pub fn push_chars(out: &mut String, chars: &Vec<char>, from: usize, to: usize)
    requires
        from <= to <= chars.len(),
    ensures
        final(out)@ == old(out)@ + chars@.subrange(from as int, to as int),
{
    let ghost before = out@;
    let mut i: usize = from;
    while i < to
        invariant
            from <= i <= to <= chars.len(),
            out@ == before + chars@.subrange(from as int, i as int),
        decreases to - i,
    {
        out.push(chars[i]);
        i = i + 1;
        assert(out@ =~= before + chars@.subrange(from as int, i as int));
    }
    assert(out@ =~= before + chars@.subrange(from as int, to as int));
}

/// The string made of the characters from `from` up to `to`.
pub fn text_of(chars: &Vec<char>, from: usize, to: usize) -> (text: String)
    requires
        from <= to <= chars.len(),
    ensures
        text@ == chars@.subrange(from as int, to as int),
{
    let mut text = String::new();
    push_chars(&mut text, chars, from, to);
    assert(text@ =~= chars@.subrange(from as int, to as int));
    text
}

/// The views of a sequence of strings.
pub open spec fn texts(s: Seq<String>) -> Seq<Seq<char>> {
    s.map_values(|t: String| t@)
}

/// Whether each string is what the item at its place is converted to.
pub open spec fn converted<V: Into<String>>(items: Seq<V>, strings: Seq<String>) -> bool {
    &&& strings.len() == items.len()
    &&& forall|i: int|
        0 <= i < items.len() ==> call_ensures(V::into, (items[i],), #[trigger] strings[i])
}

/// Converts a list of texts into strings.
pub fn into_strings<V: Into<String>>(items: Vec<V>) -> (strings: Vec<String>)
    ensures
        converted(items@, strings@),
{
    let mut strings: Vec<String> = Vec::new();
    for item in it: items
        invariant
            it.seq() == items@,
            strings@.len() == it.index(),
            forall|i: int|
                0 <= i < it.index() ==> call_ensures(
                    V::into,
                    (items@[i],),
                    #[trigger] strings@[i],
                ),
    {
        strings.push(item.into());
    }
    strings
}

/// The copies of a list of strings.
pub fn copy_strings(strings: &Vec<String>) -> (copies: Vec<String>)
    ensures
        texts(copies@) == texts(strings@),
{
    let copies = strings.clone();
    assert(texts(copies@) =~= texts(strings@));
    copies
}

} // verus!
