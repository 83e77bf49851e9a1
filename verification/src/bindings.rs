//! Bindings: which letters stand for which numbers.

use vstd::prelude::*;

verus! {

/// The mapping that a list of bindings makes: each letter stands for the
/// number of its last binding.
pub open spec fn mapping(entries: Seq<(char, u32)>) -> Map<char, u32>
    decreases entries.len(),
{
    if entries.len() == 0 {
        Map::empty()
    } else {
        mapping(entries.drop_last()).insert(entries.last().0, entries.last().1)
    }
}

/// A mapping from letters to numbers, each number by its bit pattern.
#[derive(Debug)]
pub struct Bindings {
    entries: Vec<(char, u32)>,
}

impl View for Bindings {
    type V = Map<char, u32>;

    closed spec fn view(&self) -> Map<char, u32> {
        mapping(self.entries@)
    }
}

impl Bindings {
    /// No letter bound.
    pub fn new() -> (b: Bindings)
        ensures
            b@ == Map::<char, u32>::empty(),
    {
        Bindings { entries: Vec::new() }
    }

    /// Binds a letter to a number; an earlier binding of the letter is
    /// replaced.
    pub fn bind(&mut self, letter: char, bits: u32)
        ensures
            final(self)@ == old(self)@.insert(letter, bits),
    {
        self.entries.push((letter, bits));
        assert(self.entries@.drop_last() == old(self).entries@);
    }

    /// The number that a letter stands for, if it is bound.
    pub fn get(&self, letter: char) -> (r: Option<u32>)
        ensures
            r == if self@.contains_key(letter) {
                Some(self@[letter])
            } else {
                None
            },
    {
        let mut i: usize = self.entries.len();
        assert(self.entries@.take(i as int) == self.entries@);
        while i > 0
            invariant
                i <= self.entries.len(),
                self@.contains_key(letter) == mapping(self.entries@.take(i as int)).contains_key(
                    letter,
                ),
                self@.contains_key(letter) ==> self@[letter] == mapping(
                    self.entries@.take(i as int),
                )[letter],
            decreases i,
        {
            i -= 1;
            assert(self.entries@.take(i + 1).drop_last() == self.entries@.take(i as int));
            let (c, bits) = self.entries[i];
            if c == letter {
                return Some(bits);
            }
        }
        None
    }
}

} // verus!
