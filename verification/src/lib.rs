//! A gazetteer: a dictionary-based text-tagging engine.
//!
//! Multi-token phrases are stored in a case-insensitive ordered trie; free
//! text is scanned with a sliding window and every window start that matches
//! a stored phrase (exactly, or within a bounded edit distance through a
//! deletion-variant index) is reported with its canonical identifier and its
//! character offsets in the source text.

use vstd::prelude::*;

pub mod loader;
pub mod search;
pub mod text;
pub mod fuzzy;
pub mod tree;

verus! {

/// The generic failure report returned when a search request fails for an
/// internal reason: a status word and a human-readable explanation.
pub fn search_error() -> (r: (String, String))
    ensures
        r.0@ == "error"@,
        r.1@ == "An error occurred during tree search."@,
{
    ("error".to_owned(), "An error occurred during tree search.".to_owned())
}

} // verus!
