//! A compact, read-mostly prefix suggestion index for sponsored-placement
//! records.
//!
//! Each record's keyword list is collapsed into a few keys, each with the
//! number of characters a user must type before it may match. The records'
//! repeated strings are interned in dictionaries, and the keys are held in an
//! ordered byte-keyed store: a QP-trie (`HybridAmpIndex`), an adaptive radix
//! tree (`BlartAmpIndex`) or an FST map (`FstAmpIndex`). A query returns at
//! most one suggestion: the one that the lexicographically smallest
//! admissible key leads to.
pub mod collapse;
pub mod common;
pub mod dict;
pub mod fst_keys;
pub mod hybrid;
pub mod index;
pub mod keys;
pub mod lex;
pub mod model;
pub mod radix;
pub mod rle;
pub mod trie;

pub use collapse::{collapse_keywords, collapse_keywords_ex};
pub use common::{AmpError, AmpResult, FullKeyword, OriginalAmp};
pub use dict::{extract_template, Dictionary};
pub use fst_keys::FstAmpIndex;
pub use hybrid::HybridAmpIndex;
pub use index::AmpIndex;
pub use keys::KeyStore;
pub use radix::BlartAmpIndex;
pub use rle::RunEndEncoding;
