use std::collections::HashSet;

use solver::{word_from_str, words_from_strs, words_to_strs, WordTree};

fn to_owned(words: &[&str]) -> Vec<String> {
    words.iter().map(|word| word.to_string()).collect()
}

fn listed(tree: &WordTree) -> Vec<String> {
    let mut texts = words_to_strs(&tree.list_words());
    texts.sort();
    texts
}

fn tree_of(words: &[&str]) -> WordTree {
    let mut tree = WordTree::default();
    for word in words {
        tree.add_word(&word_from_str(word));
    }
    tree
}

#[test]
fn test_word_tree() {
    let words = to_owned(&["foo", "bar", "baz", "foooz", "barz", "buz"]);
    let mut tree = WordTree::default();
    for word in &words {
        tree.add_word(&word_from_str(word));
    }
    let tree_words = words_to_strs(&tree.list_words());
    let expected: HashSet<String> = words.into_iter().collect();
    let actual: HashSet<String> = tree_words.into_iter().collect();
    assert_eq!(expected, actual);
}

#[test]
fn empty_tree_lists_nothing() {
    let tree = WordTree::default();
    assert_eq!(tree.list_words(), Vec::<Vec<u8>>::new());
    assert_eq!(tree.len(), 0);
    assert!(!tree.contains(&[0]));
    assert!(!tree.contains(&[]));
}

#[test]
fn round_trip_lists_each_word_once() {
    let tree = tree_of(&["foo", "bar", "baz", "foooz", "barz", "buz"]);
    let words = tree.list_words();
    assert_eq!(words.len(), 6);
    assert_eq!(listed(&tree), to_owned(&["bar", "barz", "baz", "buz", "foo", "foooz"]));
}

#[test]
fn round_trip_in_any_order() {
    let expected = to_owned(&["bar", "barz", "baz", "buz", "foo", "foooz"]);
    let orders: [[&str; 6]; 4] = [
        ["foo", "bar", "baz", "foooz", "barz", "buz"],
        ["buz", "barz", "foooz", "baz", "bar", "foo"],
        ["foooz", "foo", "barz", "bar", "buz", "baz"],
        ["barz", "baz", "buz", "bar", "foooz", "foo"],
    ];
    for order in &orders {
        assert_eq!(listed(&tree_of(order)), expected);
    }
}

#[test]
fn inserting_twice_changes_nothing() {
    let mut tree = tree_of(&["foo", "bar"]);
    let nodes = tree.len();
    let before = listed(&tree);
    tree.add_word(&word_from_str("foo"));
    assert_eq!(listed(&tree), before);
    assert_eq!(tree.len(), nodes);
    tree.add_word(&word_from_str("bar"));
    assert_eq!(listed(&tree), to_owned(&["bar", "foo"]));
    assert_eq!(tree.len(), nodes);
}

#[test]
fn prefix_then_longer_word_keeps_both() {
    let tree = tree_of(&["FOO", "FOOOZ"]);
    assert_eq!(listed(&tree), to_owned(&["foo", "foooz"]));
    assert!(tree.contains(&word_from_str("foo")));
    assert!(tree.contains(&word_from_str("foooz")));
    assert!(!tree.contains(&word_from_str("fooo")));
    assert!(!tree.contains(&word_from_str("fo")));
}

#[test]
fn longer_word_then_prefix_keeps_both() {
    let tree = tree_of(&["FOOOZ", "FOO"]);
    assert_eq!(listed(&tree), to_owned(&["foo", "foooz"]));
    assert!(tree.contains(&word_from_str("foo")));
    assert!(tree.contains(&word_from_str("foooz")));
    assert!(!tree.contains(&word_from_str("fooo")));
}

#[test]
fn one_letter_word_marks_its_root() {
    let mut tree = tree_of(&["ab"]);
    assert_eq!(listed(&tree), to_owned(&["ab"]));
    tree.add_word(&word_from_str("a"));
    assert_eq!(listed(&tree), to_owned(&["a", "ab"]));
    assert_eq!(tree.len(), 2);
}

#[test]
fn empty_word_is_not_stored() {
    let mut tree = tree_of(&["foo"]);
    tree.add_word(&[]);
    assert_eq!(listed(&tree), to_owned(&["foo"]));
    assert_eq!(tree.len(), 3);
}

#[test]
fn shared_prefixes_share_nodes() {
    let tree = tree_of(&["bar", "baz", "barz", "buz"]);
    // b, a, r, z, z (after r), u, z (after u)
    assert_eq!(tree.len(), 7);
}

#[test]
fn node_ids_are_dense_and_stable() {
    let mut tree = WordTree::default();
    tree.add_word(&word_from_str("ab"));
    let a = tree.head_id(0).unwrap();
    let b = tree.child_id(a, 1).unwrap();
    assert_eq!((a, b), (0, 1));
    tree.add_word(&word_from_str("ac"));
    tree.add_word(&word_from_str("b"));
    assert_eq!(tree.head_id(0), Some(a));
    assert_eq!(tree.child_id(a, 1), Some(b));
    assert_eq!(tree.child_id(a, 2), Some(2));
    assert_eq!(tree.head_id(1), Some(3));
    assert_eq!(tree.head_id(2), None);
    assert_eq!(tree.child_id(b, 0), None);
    assert_eq!(tree.len(), 4);
}

#[test]
fn terminus_and_symbol_follow_the_words() {
    let tree = tree_of(&["ab", "abc"]);
    let a = tree.head_id(0).unwrap();
    let b = tree.child_id(a, 1).unwrap();
    let c = tree.child_id(b, 2).unwrap();
    assert!(!tree.is_terminus(a));
    assert!(tree.is_terminus(b));
    assert!(tree.is_terminus(c));
    assert_eq!(tree.symbol(a), 0);
    assert_eq!(tree.symbol(b), 1);
    assert_eq!(tree.symbol(c), 2);
}

#[test]
fn add_words_adds_each_word() {
    let mut tree = WordTree::default();
    tree.add_words(&words_from_strs(&["foo", "bar", "foo", "fo"]));
    assert_eq!(listed(&tree), to_owned(&["bar", "fo", "foo"]));
    let mut one_by_one = WordTree::default();
    for word in ["foo", "bar", "foo", "fo"] {
        one_by_one.add_word(&word_from_str(word));
    }
    assert_eq!(listed(&one_by_one), listed(&tree));
}

#[test]
fn symbols_outside_the_alphabet_are_kept_apart() {
    let mut tree = WordTree::default();
    tree.add_word(&[200, 3]);
    tree.add_word(&[3, 200]);
    let mut words = tree.list_words();
    words.sort();
    assert_eq!(words, vec![vec![3u8, 200u8], vec![200u8, 3u8]]);
}
