//! Numbers as they are written: digits around at most one decimal point.

use crate::text::{chars_of, is_numeral_char, numeral_char, string_of};
use vstd::prelude::*;

verus! {

/// How many decimal points a text holds.
pub open spec fn count_points(s: Seq<char>) -> nat
    decreases s.len(),
{
    if s.len() == 0 {
        0
    } else {
        count_points(s.drop_last()) + if s.last() == '.' {
            1nat
        } else {
            0nat
        }
    }
}

/// Whether a text is made of digits and decimal points only.
pub open spec fn all_numeral_chars(s: Seq<char>) -> bool {
    forall|i: int| 0 <= i < s.len() ==> is_numeral_char(#[trigger] s[i])
}

/// Whether a text writes a number: digits and decimal points only, at most one
/// point, and at least one digit.
pub open spec fn is_numeral(s: Seq<char>) -> bool {
    &&& all_numeral_chars(s)
    &&& count_points(s) <= 1
    &&& count_points(s) < s.len()
}

/// A number as written. Its value as a single-precision number is the one
/// nearest to the decimal fraction that the text spells.
#[derive(Debug, PartialEq, Eq)]
pub struct Numeral {
    text: String,
}

impl View for Numeral {
    type V = Seq<char>;

    closed spec fn view(&self) -> Seq<char> {
        self.text@
    }
}

impl DeepView for Numeral {
    type V = Seq<char>;

    open spec fn deep_view(&self) -> Seq<char> {
        self@
    }
}

impl Clone for Numeral {
    fn clone(&self) -> (n: Self)
        ensures
            n == *self,
    {
        proof {
            use_type_invariant(self);
        }
        Numeral { text: self.text.clone() }
    }
}

impl Numeral {
    #[verifier::type_invariant]
    spec fn well_formed(&self) -> bool {
        is_numeral(self.text@)
    }

    /// The numeral that a text writes, if it writes a number.
    pub fn new(text: &str) -> (r: Option<Numeral>)
        ensures
            r is Some <==> is_numeral(text@),
            r is Some ==> r->Some_0@ == text@,
    {
        let chars = chars_of(text);
        assert(chars@.subrange(0, chars.len() as int) == text@);
        Self::from_chars(&chars, 0, chars.len())
    }

    /// The numeral that a run of characters writes, if it writes a number.
    pub(crate) fn from_chars(chars: &Vec<char>, from: usize, to: usize) -> (r: Option<Numeral>)
        requires
            from <= to <= chars.len(),
        ensures
            r is Some <==> is_numeral(chars@.subrange(from as int, to as int)),
            r is Some ==> r->Some_0@ == chars@.subrange(from as int, to as int),
    {
        let ghost run = chars@.subrange(from as int, to as int);
        let mut points: usize = 0;
        let mut i: usize = from;
        while i < to
            invariant
                from <= i <= to <= chars.len(),
                run == chars@.subrange(from as int, to as int),
                points == count_points(run.take(i - from)),
                points <= i - from,
                all_numeral_chars(run.take(i - from)),
            decreases to - i,
        {
            let c = chars[i];
            assert(run.take(i + 1 - from).drop_last() == run.take(i - from));
            assert(run.take(i + 1 - from).last() == c);
            if !numeral_char(c) {
                assert(run[i - from] == c);
                return None;
            }
            if c == '.' {
                points += 1;
            }
            i += 1;
        }
        assert(run.take(to - from) == run);
        if points <= 1 && points < to - from {
            Some(Numeral { text: string_of(chars, from, to) })
        } else {
            None
        }
    }

    /// The text of the numeral.
    pub fn as_str(&self) -> (s: &str)
        ensures
            s@ == self@,
            is_numeral(s@),
    {
        proof {
            use_type_invariant(self);
        }
        self.text.as_str()
    }
}

} // verus!
