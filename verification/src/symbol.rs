//! Symbol encoding: letters of the 26-letter alphabet as integers `0..26`,
//! and words as sequences of such symbols.

use vstd::prelude::*;

verus! {

/// Number of symbols in the alphabet.
pub const ALPHABET_SIZE: u8 = 26;

/// Whether `c` is one of the 52 ASCII letters.
pub open spec fn is_letter(c: char) -> bool {
    ('a' <= c && c <= 'z') || ('A' <= c && c <= 'Z')
}

/// The symbol of the letter `c`, whatever its case: `0` for `a` and `A`
/// up to `25` for `z` and `Z`.
pub open spec fn symbol_of(c: char) -> u8
    recommends
        is_letter(c),
{
    if 'a' <= c && c <= 'z' {
        (c as int - 'a' as int) as u8
    } else {
        (c as int - 'A' as int) as u8
    }
}

/// Whether every character of `text` is an ASCII letter.
pub open spec fn is_alphabetic(text: Seq<char>) -> bool {
    forall|i: int| 0 <= i < text.len() ==> is_letter(#[trigger] text[i])
}

/// Whether every element of `word` is a symbol of the alphabet.
pub open spec fn is_symbols(word: Seq<u8>) -> bool {
    forall|i: int| 0 <= i < word.len() ==> #[trigger] word[i] < ALPHABET_SIZE
}

/// The symbols of the letters of `text`, in order.
pub open spec fn symbols_of(text: Seq<char>) -> Seq<u8> {
    Seq::new(text.len(), |i: int| symbol_of(text[i]))
}

/// The lower-case letter of `symbol`.
pub open spec fn lower_letter(symbol: u8) -> char
    recommends
        symbol < ALPHABET_SIZE,
{
    ('a' as int + symbol as int) as char
}

/// The upper-case letter of `symbol`.
pub open spec fn upper_letter(symbol: u8) -> char
    recommends
        symbol < ALPHABET_SIZE,
{
    ('A' as int + symbol as int) as char
}

/// The lower-case spelling of `word`.
pub open spec fn lower_text(word: Seq<u8>) -> Seq<char> {
    Seq::new(word.len(), |i: int| lower_letter(word[i]))
}

/// The upper-case spelling of `word`.
pub open spec fn upper_text(word: Seq<u8>) -> Seq<char> {
    Seq::new(word.len(), |i: int| upper_letter(word[i]))
}

/// Encodes one letter, ignoring its case.
pub fn encode_letter(c: char) -> (symbol: u8)
    requires
        is_letter(c),
    ensures
        symbol == symbol_of(c),
        symbol < ALPHABET_SIZE,
{
    if 'a' <= c && c <= 'z' {
        c as u8 - 97
    } else {
        c as u8 - 65
    }
}

/// Decodes one symbol to its lower-case letter.
pub fn decode_lower(symbol: u8) -> (c: char)
    requires
        symbol < ALPHABET_SIZE,
    ensures
        c == lower_letter(symbol),
        is_letter(c),
        symbol_of(c) == symbol,
{
    (97u8 + symbol) as char
}

/// Decodes one symbol to its upper-case letter.
pub fn decode_upper(symbol: u8) -> (c: char)
    requires
        symbol < ALPHABET_SIZE,
    ensures
        c == upper_letter(symbol),
        is_letter(c),
        symbol_of(c) == symbol,
{
    (65u8 + symbol) as char
}

/// `String::push` of the standard library: appends the single character
/// `c` to the end of `text` and changes nothing else.
#[verifier::external_body]
pub(crate) fn push_char(text: &mut String, c: char)
    ensures
        final(text)@ == old(text)@.push(c),
{
    text.push(c);
}

/// A copy of `word` with `chr` added at its end.
pub fn append_char(word: &[u8], chr: u8) -> (out: Vec<u8>)
    ensures
        out@ == word@.push(chr),
{
    let mut out: Vec<u8> = Vec::new();
    let mut i: usize = 0;
    while i < word.len()
        invariant
            i <= word@.len(),
            out@ == word@.take(i as int),
        decreases word@.len() - i,
    {
        out.push(word[i]);
        i += 1;
        assert(out@ == word@.take(i as int));
    }
    assert(word@.take(word@.len() as int) == word@);
    out.push(chr);
    out
}

/// Encodes a text made of letters, ignoring case, as a word of symbols.
pub fn word_from_str(raw: &str) -> (word: Vec<u8>)
    requires
        is_alphabetic(raw@),
    ensures
        word@ == symbols_of(raw@),
        is_symbols(word@),
{
    let mut word: Vec<u8> = Vec::new();
    for c in iter: raw.chars()
        invariant
            iter.seq() == raw@,
            is_alphabetic(raw@),
            word@.len() == iter.index(),
            forall|i: int| 0 <= i < word@.len() ==> word@[i] == symbol_of(raw@[i]),
    {
        word.push(encode_letter(c));
    }
    assert(word@ == symbols_of(raw@));
    word
}

/// Encodes each text of `raws` as a word of symbols.
pub fn words_from_strs(raws: &[&str]) -> (words: Vec<Vec<u8>>)
    requires
        forall|i: int| 0 <= i < raws@.len() ==> is_alphabetic((#[trigger] raws@[i])@),
    ensures
        words@.len() == raws@.len(),
        forall|i: int| 0 <= i < raws@.len() ==> (#[trigger] words@[i])@ == symbols_of(raws@[i]@),
{
    let mut words: Vec<Vec<u8>> = Vec::new();
    let mut i: usize = 0;
    while i < raws.len()
        invariant
            i <= raws@.len(),
            words@.len() == i,
            forall|j: int| 0 <= j < raws@.len() ==> is_alphabetic((#[trigger] raws@[j])@),
            forall|j: int| 0 <= j < i ==> (#[trigger] words@[j])@ == symbols_of(raws@[j]@),
        decreases raws@.len() - i,
    {
        words.push(word_from_str(raws[i]));
        i += 1;
    }
    words
}

/// Spells `word` in lower-case letters.
pub fn word_to_str(word: &[u8]) -> (text: String)
    requires
        is_symbols(word@),
    ensures
        text@ == lower_text(word@),
{
    let mut text = String::new();
    let mut i: usize = 0;
    while i < word.len()
        invariant
            i <= word@.len(),
            is_symbols(word@),
            text@ == lower_text(word@.take(i as int)),
        decreases word@.len() - i,
    {
        push_char(&mut text, decode_lower(word[i]));
        i += 1;
        assert(text@ == lower_text(word@.take(i as int)));
    }
    assert(word@.take(word@.len() as int) == word@);
    text
}

/// Spells each word of `words` in lower-case letters.
pub fn words_to_strs(words: &[Vec<u8>]) -> (texts: Vec<String>)
    requires
        forall|i: int| 0 <= i < words@.len() ==> is_symbols((#[trigger] words@[i])@),
    ensures
        texts@.len() == words@.len(),
        forall|i: int| 0 <= i < words@.len() ==> (#[trigger] texts@[i])@ == lower_text(words@[i]@),
{
    let mut texts: Vec<String> = Vec::new();
    let mut i: usize = 0;
    while i < words.len()
        invariant
            i <= words@.len(),
            texts@.len() == i,
            forall|j: int| 0 <= j < words@.len() ==> is_symbols((#[trigger] words@[j])@),
            forall|j: int| 0 <= j < i ==> (#[trigger] texts@[j])@ == lower_text(words@[j]@),
        decreases words@.len() - i,
    {
        texts.push(word_to_str(words[i].as_slice()));
        i += 1;
    }
    texts
}

} // verus!
