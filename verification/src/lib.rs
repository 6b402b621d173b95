//! Building blocks for solving word-search puzzles on a letter grid: a prefix
//! trie over a dictionary and a king-move adjacency graph over the grid's
//! tiles, both stored as arenas of nodes addressed by integer id.

pub mod symbol;
pub mod word;
pub mod word_tree;
pub mod char_graph;
pub mod neighbor_count;
pub mod grid;

pub use crate::char_graph::{CharGraph, CharGraphNode};
pub use crate::symbol::{
    append_char, word_from_str, word_to_str, words_from_strs, words_to_strs, ALPHABET_SIZE,
};
pub use crate::word::Word;
pub use crate::word_tree::WordTree;
