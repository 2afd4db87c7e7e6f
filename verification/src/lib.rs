//! WordPiece subword tokenization.
//!
//! A vocabulary of known word-pieces is compiled into a character-level
//! prefix trie; the segmentation engine splits an input word into the
//! greedy longest-match-first sequence of known pieces, falling back to a
//! designated unknown-token when no full segmentation exists.

pub mod builder;
pub mod laws;
pub mod model;
pub mod persist;
pub mod token;
pub mod trie;
pub mod vocab;
