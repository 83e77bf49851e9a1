//! Classes of characters, and the one way in which the library grows a string.

use vstd::prelude::*;

verus! {

/// A blank that separates tokens and stands for nothing itself.
pub open spec fn is_space(c: char) -> bool {
    c == ' ' || c == '\t' || c == '\n' || c == '\r' || c == '\u{c}'
}

/// A decimal digit.
pub open spec fn is_digit(c: char) -> bool {
    '0' <= c && c <= '9'
}

/// A character that a number is written with: a digit or the decimal point.
pub open spec fn is_numeral_char(c: char) -> bool {
    is_digit(c) || c == '.'
}

/// A lower-case letter, of which names are made.
pub open spec fn is_letter(c: char) -> bool {
    'a' <= c && c <= 'z'
}

/// A letter that is kept for a named constant.
pub open spec fn is_reserved(c: char) -> bool {
    c == 'e' || c == '\u{3c0}'
}

#[verifier::when_used_as_spec(is_space)]
pub fn space(c: char) -> (b: bool)
    ensures
        b == is_space(c),
{
    c == ' ' || c == '\t' || c == '\n' || c == '\r' || c == '\u{c}'
}

#[verifier::when_used_as_spec(is_digit)]
pub fn digit(c: char) -> (b: bool)
    ensures
        b == is_digit(c),
{
    '0' <= c && c <= '9'
}

#[verifier::when_used_as_spec(is_numeral_char)]
pub fn numeral_char(c: char) -> (b: bool)
    ensures
        b == is_numeral_char(c),
{
    digit(c) || c == '.'
}

#[verifier::when_used_as_spec(is_letter)]
pub fn letter(c: char) -> (b: bool)
    ensures
        b == is_letter(c),
{
    'a' <= c && c <= 'z'
}

#[verifier::when_used_as_spec(is_reserved)]
pub fn reserved(c: char) -> (b: bool)
    ensures
        b == is_reserved(c),
{
    c == 'e' || c == '\u{3c0}'
}

/// Appends one character to a string, by `String::push`: the string afterwards
/// is the string before with the character at its end.
#[verifier::external_body]
pub(crate) fn push_char(s: &mut String, c: char)
    ensures
        final(s)@ == old(s)@.push(c),
{
    s.push(c)
}

/// The characters of a text, in order.
pub fn chars_of(s: &str) -> (v: Vec<char>)
    ensures
        v@ == s@,
{
    let mut v: Vec<char> = Vec::new();
    for c in it: s.chars()
        invariant
            v@ == it.seq().take(it.index() as int),
            it.seq() == s@,
    {
        v.push(c);
    }
    v
}

/// The text that a run of characters spells.
pub(crate) fn string_of(chars: &Vec<char>, from: usize, to: usize) -> (s: String)
    requires
        from <= to <= chars.len(),
    ensures
        s@ == chars@.subrange(from as int, to as int),
{
    let mut s = String::new();
    let mut i: usize = from;
    while i < to
        invariant
            from <= i <= to <= chars.len(),
            s@ == chars@.subrange(from as int, i as int),
        decreases to - i,
    {
        push_char(&mut s, chars[i]);
        i += 1;
        assert(chars@.subrange(from as int, i as int) == chars@.subrange(
            from as int,
            i - 1,
        ).push(chars@[i - 1]));
    }
    s
}

} // verus!
