pub mod rolling_hash;
pub mod trie;
