//! The index over a QP-trie of collapsed keys.
use vstd::prelude::*;
use crate::index::AmpIndex;
use crate::trie::QpTrieKeys;

verus! {

/// A prefix suggestion index whose keys are held in a QP-trie.
pub type HybridAmpIndex = AmpIndex<QpTrieKeys>;

} // verus!
