#![allow(unused_imports)]
use vstd::prelude::*;

pub mod error;
pub mod gram;
pub mod keyset;
pub mod mappers;
pub mod rank_array;
pub mod serial;
pub mod trie_array;
pub mod trie_count_lm;
pub mod vocabulary;

pub use error::Error;
pub use gram::Gram;
pub use rank_array::RankArray;
pub use rank_array::SimpleRankArray;
pub use trie_array::SimpleTrieArray;
pub use trie_array::TrieArray;
pub use trie_count_lm::lookuper::TrieCountLmLookuper;
pub use trie_count_lm::CountTable;
pub use trie_count_lm::TrieCountLm;
pub use vocabulary::double_array::DoubleArrayVocabulary;
pub use vocabulary::simple::SimpleVocabulary;
pub use vocabulary::Vocabulary;

verus! {

/// Byte that separates tokens inside a textual gram: the ASCII space.
pub const TOKEN_SEPARATOR: u8 = 32;

} // verus!
