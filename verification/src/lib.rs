//! An in-memory prefix tree (trie) that stores a set of distinct character
//! sequences and supports membership testing, insertion, deletion with
//! structural pruning, and full enumeration of the stored sequences.

pub mod iter;
pub mod node;
pub mod str;
pub mod string;
pub mod trie;
