//! An approximate-string-matching engine for spell checking: given a
//! reference dictionary and a tokenized document, it flags words likely
//! absent from the dictionary and proposes the nearest dictionary word under
//! an edit-distance metric.
//!
//! The parts, leaves first: the saturated Levenshtein metric ([`med`]), a
//! Bloom filter for cheap membership rejection ([`bloomfilter`]), a BK-tree
//! for pruned nearest-neighbor search under the metric ([`bktree`]), and the
//! pipeline that fuses them ([`spellchecker`]). File loading, tokenization,
//! argument handling and report writing are the caller's business; the
//! library consumes and produces plain in-memory values.

pub mod bktree;
pub mod bloomfilter;
pub mod data;
pub mod med;
pub mod spellchecker;

use vstd::prelude::*;

verus! {

} // verus!
