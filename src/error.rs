//! The errors that the tree reports.
use vstd::prelude::*;

verus! {

/// The one error of the tree: a key that an update asked for reaches no node.
#[derive(Debug)]
pub enum TrieError {
    NotFound(String),
}

impl TrieError {
    /// The human-readable message that the error carries.
    pub fn message(&self) -> (r: &str)
        ensures
            r@ == match self {
                TrieError::NotFound(m) => m@,
            },
    {
        match self {
            TrieError::NotFound(m) => m.as_str(),
        }
    }
}

} // verus!
