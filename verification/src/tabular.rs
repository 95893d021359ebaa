//! Tables of stored values.

pub mod trie;
