//! An ordered prefix tree: a map from keys, sequences of ordered symbols,
//! to values, that also answers which stored keys are prefixes of a key,
//! which is the longest of them, and which stored keys extend a key.
use vstd::prelude::*;

pub mod error;
pub mod node_lemmas;
pub mod symbol;
pub mod trie;
pub mod trie_iter;
pub mod trie_node;

pub use error::TrieError;
pub use symbol::Symbol;
pub use trie::Trie;
pub use trie_iter::TrieIterator;
pub use trie_node::{InsertVisitor, PrefixVisitor, TrieNode};

verus! {

} // verus!
