//! The key type of every occurrence map: a short immutable character
//! sequence (one or more grapheme clusters). Equality is character-exact;
//! no normalization happens at this layer.

use vstd::prelude::*;

verus! {

/// A gram: an immutable short character sequence used as a frequency key.
///
/// Held as its sequence of `char`s so that character-class filters and
/// window joins are plain verified loops.
#[derive(Debug)]
pub struct Countable {
    chars: Vec<char>,
}

impl View for Countable {
    type V = Seq<char>;

    closed spec fn view(&self) -> Seq<char> {
        self.chars@
    }
}

impl Countable {
    /// The empty gram.
    pub fn empty() -> (r: Countable)
        ensures
            r@ == Seq::<char>::empty(),
    {
        Countable { chars: Vec::new() }
    }

    /// Builds a gram from an explicit character vector.
    pub fn from_chars(chars: Vec<char>) -> (r: Countable)
        ensures
            r@ == chars@,
    {
        Countable { chars }
    }

    /// Builds a gram from a string slice, character by character.
    pub fn from_str_ref(s: &str) -> (r: Countable)
        ensures
            r@ == s@,
    {
        let n: usize = s.unicode_len();
        let mut chars: Vec<char> = Vec::new();
        for i in 0..n
            invariant
                n == s@.len(),
                chars@ == s@.subrange(0, i as int),
        {
            chars.push(s.get_char(i));
            assert(chars@ =~= s@.subrange(0, i + 1));
        }
        assert(chars@ =~= s@);
        Countable { chars }
    }

    /// Builds a gram from an owned string.
    pub fn from_string(s: &String) -> (r: Countable)
        ensures
            r@ == s@,
    {
        Countable::from_str_ref(s.as_str())
    }

    /// Number of characters in the gram.
    pub fn len(&self) -> (r: usize)
        ensures
            r == self@.len(),
    {
        self.chars.len()
    }

    /// The character at position `i`.
    pub fn char_at(&self, i: usize) -> (r: char)
        requires
            i < self@.len(),
        ensures
            r == self@[i as int],
    {
        self.chars[i]
    }

    /// A copy of the gram with the same characters.
    pub fn duplicate(&self) -> (r: Countable)
        ensures
            r@ == self@,
    {
        let mut chars: Vec<char> = Vec::new();
        let n: usize = self.chars.len();
        for i in 0..n
            invariant
                n == self.chars@.len(),
                chars@ == self.chars@.subrange(0, i as int),
        {
            chars.push(self.chars[i]);
            assert(chars@ =~= self.chars@.subrange(0, i + 1));
        }
        assert(chars@ =~= self.chars@);
        Countable { chars }
    }

    /// Appends every character of `other` to this gram.
    pub fn append(&mut self, other: &Countable)
        ensures
            final(self)@ == old(self)@ + other@,
    {
        let n: usize = other.chars.len();
        for i in 0..n
            invariant
                n == other.chars@.len(),
                self.chars@ == old(self).chars@ + other.chars@.subrange(0, i as int),
        {
            self.chars.push(other.chars[i]);
            assert(self.chars@ =~= old(self).chars@ + other.chars@.subrange(0, i + 1));
        }
        assert(old(self).chars@ + other.chars@.subrange(0, n as int) =~= old(self).chars@
            + other.chars@);
    }

    /// Inserts a character at the front.
    pub(crate) fn insert_front(&mut self, c: char)
        ensures
            final(self)@ == seq![c] + old(self)@,
    {
        self.chars.insert(0, c);
        proof {
            assert(self.chars@ =~= seq![c] + old(self).chars@);
        }
    }

    /// Relies on `String: FromIterator<char>` of std: collecting the
    /// characters yields the string with exactly those characters.
    #[verifier::external_body]
    pub fn to_string(&self) -> (r: String)
        ensures
            r@ == self@,
    {
        self.chars.iter().collect()
    }

    /// Character-exact equality with another gram.
    pub fn eq_gram(&self, other: &Countable) -> (r: bool)
        ensures
            r == (self@ == other@),
    {
        if self.chars.len() != other.chars.len() {
            assert(self@ != other@);
            return false;
        }
        let n: usize = self.chars.len();
        for i in 0..n
            invariant
                n == self.chars@.len() && n == other.chars@.len(),
                forall|j: int| 0 <= j < i ==> self.chars@[j] == other.chars@[j],
        {
            if self.chars[i] != other.chars[i] {
                return false;
            }
        }
        assert(self@ =~= other@);
        true
    }
}

impl PartialEq for Countable {
    fn eq(&self, other: &Countable) -> (r: bool) {
        self.eq_gram(other)
    }
}

impl Eq for Countable {

}

impl vstd::std_specs::cmp::PartialEqSpecImpl for Countable {
    open spec fn obeys_eq_spec() -> bool {
        true
    }

    open spec fn eq_spec(&self, other: &Countable) -> bool {
        self@ == other@
    }
}

impl Clone for Countable {
    fn clone(&self) -> (r: Countable)
        ensures
            r@ == self@,
    {
        self.duplicate()
    }
}

} // verus!
