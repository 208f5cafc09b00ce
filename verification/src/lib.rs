//! A Boggle-style word search library.
//!
//! A [`Dictionary`] is a trie over a lowercased word list that supports
//! exact-match queries and resumable prefix-search cursors.  A [`Board`] is a
//! rectangular grid of string-valued tiles with 8-directional adjacency.  A
//! [`Traversal`] lazily enumerates, in a fixed depth-first order, every simple
//! path through the board whose concatenated tile string is a dictionary word,
//! pruning any path whose string is not a prefix of some word.

mod dict;
mod grid;
mod traversal;
mod trie_api;

pub use dict::Cursor;
pub use dict::Dictionary;
pub use dict::Status;
pub use dict::lemma_pruned_stays_pruned;
pub use dict::lemma_words_model_members;
pub use dict::prefix_of_some;
pub use dict::status_of;
pub use dict::strictly_extended;
pub use dict::words_model;
pub use grid::Board;
pub use grid::DimensionMismatch;
pub use grid::index_rc;
pub use grid::rc_index;
pub use traversal::Traversal;
pub use traversal::has_word_path;
pub use traversal::is_simple_path;
pub use traversal::model_cells;
pub use traversal::path_string;
pub use traversal::spec_next;
pub use trie_api::ascii_lower;
pub use trie_api::ascii_lower_char;
pub use trie_api::ascii_seq;
pub use trie_api::lower_of;
