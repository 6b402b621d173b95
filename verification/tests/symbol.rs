use solver::symbol::{decode_lower, decode_upper, encode_letter};
use solver::{
    append_char, word_from_str, word_to_str, words_from_strs, words_to_strs, Word, ALPHABET_SIZE,
};

#[test]
fn alphabet_has_26_symbols() {
    assert_eq!(ALPHABET_SIZE, 26);
}

#[test]
fn letters_encode_without_case() {
    assert_eq!(encode_letter('a'), 0);
    assert_eq!(encode_letter('A'), 0);
    assert_eq!(encode_letter('m'), 12);
    assert_eq!(encode_letter('M'), 12);
    assert_eq!(encode_letter('z'), 25);
    assert_eq!(encode_letter('Z'), 25);
}

#[test]
fn symbols_decode_to_letters() {
    assert_eq!(decode_lower(0), 'a');
    assert_eq!(decode_lower(25), 'z');
    assert_eq!(decode_upper(0), 'A');
    assert_eq!(decode_upper(25), 'Z');
    for symbol in 0..ALPHABET_SIZE {
        assert_eq!(encode_letter(decode_lower(symbol)), symbol);
        assert_eq!(encode_letter(decode_upper(symbol)), symbol);
    }
}

#[test]
fn append_char_copies_and_extends() {
    let word = vec![1u8, 2u8];
    assert_eq!(append_char(&word, 3), vec![1u8, 2u8, 3u8]);
    assert_eq!(word, vec![1u8, 2u8]);
    assert_eq!(append_char(&[], 7), vec![7u8]);
}

#[test]
fn word_from_str_ignores_case() {
    assert_eq!(word_from_str("foo"), vec![5u8, 14u8, 14u8]);
    assert_eq!(word_from_str("FOO"), vec![5u8, 14u8, 14u8]);
    assert_eq!(word_from_str("FoO"), vec![5u8, 14u8, 14u8]);
    assert_eq!(word_from_str(""), Vec::<u8>::new());
    assert_eq!(word_from_str("az"), vec![0u8, 25u8]);
}

#[test]
fn words_from_strs_encodes_each() {
    assert_eq!(words_from_strs(&["ab", "", "Z"]), vec![vec![0u8, 1u8], vec![], vec![25u8]]);
    assert_eq!(words_from_strs(&[]), Vec::<Vec<u8>>::new());
}

#[test]
fn word_to_str_spells_lower_case() {
    assert_eq!(word_to_str(&[5, 14, 14]), "foo");
    assert_eq!(word_to_str(&[0, 25]), "az");
    assert_eq!(word_to_str(&[]), "");
}

#[test]
fn words_to_strs_spells_each() {
    let words = vec![vec![1u8, 0u8, 17u8], vec![], vec![25u8]];
    assert_eq!(words_to_strs(&words), vec!["bar".to_string(), String::new(), "z".to_string()]);
}

#[test]
fn text_survives_the_round_trip() {
    for text in ["foo", "bar", "baz", "foooz", "barz", "buz", "abcdefghijklmnopqrstuvwxyz"] {
        assert_eq!(word_to_str(&word_from_str(text)), text);
    }
    assert_eq!(word_to_str(&word_from_str("MiXeD")), "mixed");
}

#[test]
fn empty_word_has_no_symbols() {
    let word = Word::empty();
    assert_eq!(word.len(), 0);
    assert_eq!(word.chars(), &[] as &[u8]);
    assert_eq!(word.to_text(), "");
}

#[test]
fn word_from_str_is_case_insensitive() {
    let word = Word::from_str("Foo");
    assert_eq!(word.len(), 3);
    assert_eq!(word.chars(), &[5u8, 14u8, 14u8]);
    assert_eq!(word, Word::from_str("fOO"));
    assert_ne!(word, Word::from_str("fo"));
}

#[test]
fn word_from_strs_makes_each_word() {
    let words = Word::from_strs(&["foo", "BAR", ""]);
    assert_eq!(words.len(), 3);
    assert_eq!(words[0], Word::from_str("foo"));
    assert_eq!(words[1], Word::from_str("bar"));
    assert_eq!(words[2], Word::empty());
}

#[test]
fn with_char_leaves_the_source_alone() {
    let word = Word::from_str("fo");
    let longer = word.with_char(14);
    assert_eq!(word.chars(), &[5u8, 14u8]);
    assert_eq!(word.len(), 2);
    assert_eq!(longer.chars(), &[5u8, 14u8, 14u8]);
    assert_eq!(longer.len(), 3);
    assert_eq!(longer, Word::from_str("foo"));
    assert_eq!(Word::empty().with_char(25).chars(), &[25u8]);
}

#[test]
fn word_spells_itself_in_upper_case() {
    assert_eq!(Word::from_str("foo").to_text(), "FOO");
    assert_eq!(Word::from_str("Az").to_text(), "AZ");
}

#[test]
fn words_compare_and_clone_by_their_symbols() {
    let foo = Word::from_str("foo");
    let copy = foo.clone();
    assert_eq!(foo, copy);
    assert!(Word::from_str("bar") < foo);
    assert!(Word::from_str("fo") < foo);
    assert!(Word::empty() < Word::from_str("a"));
    let mut set = std::collections::HashSet::new();
    set.insert(foo);
    assert!(set.contains(&copy));
}
