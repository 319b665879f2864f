//! An ordered map from byte strings to values, kept as a radix trie, with
//! contracts that Verus proves: what a key holds after an insertion or a
//! removal, which keys begin with a prefix, which key is the longest prefix of
//! a token, and that the trie stays compressed.

pub mod delete;
pub mod iter;
pub mod laws;
pub mod node;
pub mod query;
pub mod traverse;
pub mod trie;
