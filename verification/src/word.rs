//! `Word`: an immutable sequence of alphabet symbols with value semantics.

use vstd::prelude::*;
use crate::symbol::{
    append_char, is_alphabetic, is_symbols, symbols_of, upper_text, word_from_str, decode_upper,
    ALPHABET_SIZE,
};

verus! {

/// A word over the 26-letter alphabet, held as symbols rather than text so
/// that case and character encoding play no part.
#[derive(PartialEq, Eq, PartialOrd, Ord, Hash, Debug)]
pub struct Word(Vec<u8>);

impl View for Word {
    type V = Seq<u8>;

    /// The symbols of the word, in order.
    closed spec fn view(&self) -> Seq<u8> {
        self.0@
    }
}

impl Clone for Word {
    fn clone(&self) -> (copy: Self)
        ensures
            copy@ == self@,
    {
        proof {
            use_type_invariant(self);
        }
        let symbols = self.0.clone();
        assert(symbols@ == self.0@);
        Word(symbols)
    }
}

impl Word {
    /// Every symbol of the word belongs to the alphabet.
    #[verifier::type_invariant]
    spec fn well_formed(&self) -> bool {
        is_symbols(self.0@)
    }

    /// Produce an empty word.
    pub fn empty() -> (word: Self)
        ensures
            word@ == Seq::<u8>::empty(),
    {
        Word(Vec::new())
    }

    /// Produce a word from a raw string, case-insensitive.
    pub fn from_str(raw: &str) -> (word: Self)
        requires
            is_alphabetic(raw@),
        ensures
            word@ == symbols_of(raw@),
    {
        Word(word_from_str(raw))
    }

    /// Produce a vec of words from a list of raw strings, case-insensitive.
    pub fn from_strs(raws: &[&str]) -> (words: Vec<Self>)
        requires
            forall|i: int| 0 <= i < raws@.len() ==> is_alphabetic((#[trigger] raws@[i])@),
        ensures
            words@.len() == raws@.len(),
            forall|i: int| 0 <= i < raws@.len() ==> (#[trigger] words@[i])@ == symbols_of(raws@[i]@),
    {
        let mut words: Vec<Word> = Vec::new();
        let mut i: usize = 0;
        while i < raws.len()
            invariant
                i <= raws@.len(),
                words@.len() == i,
                forall|j: int| 0 <= j < raws@.len() ==> is_alphabetic((#[trigger] raws@[j])@),
                forall|j: int| 0 <= j < i ==> (#[trigger] words@[j])@ == symbols_of(raws@[j]@),
            decreases raws@.len() - i,
        {
            words.push(Word::from_str(raws[i]));
            i += 1;
        }
        words
    }

    /// Produce a new word that's a copy of this one, with the given character added.
    pub fn with_char(&self, chr: u8) -> (word: Self)
        requires
            chr < ALPHABET_SIZE,
        ensures
            word@ == self@.push(chr),
    {
        proof {
            use_type_invariant(self);
        }
        Word(append_char(self.0.as_slice(), chr))
    }

    /// Get the length of this word, in characters.
    pub fn len(&self) -> (n: usize)
        ensures
            n == self@.len(),
    {
        self.0.len()
    }

    /// Get a reference to the characters contained in this word.
    pub fn chars(&self) -> (symbols: &[u8])
        ensures
            symbols@ == self@,
            is_symbols(symbols@),
    {
        proof {
            use_type_invariant(self);
        }
        self.0.as_slice()
    }

    /// The word spelled in upper-case letters.
    pub fn to_text(&self) -> (text: String)
        ensures
            text@ == upper_text(self@),
    {
        proof {
            use_type_invariant(self);
        }
        let mut text = String::new();
        let mut i: usize = 0;
        while i < self.0.len()
            invariant
                i <= self.0@.len(),
                is_symbols(self.0@),
                text@ == upper_text(self.0@.take(i as int)),
            decreases self.0@.len() - i,
        {
            crate::symbol::push_char(&mut text, decode_upper(self.0[i]));
            i += 1;
            assert(text@ == upper_text(self.0@.take(i as int)));
        }
        assert(self.0@.take(self.0@.len() as int) == self.0@);
        text
    }
}

} // verus!
