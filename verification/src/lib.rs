//! An in-memory autocomplete index.
//!
//! A growing set of short text keys (for example usernames) is kept in a
//! prefix tree: each edge is labelled by one character, and a node is marked
//! terminal when the path from the root to it spells a stored key. The index
//! offers exact membership lookup and enumeration of every stored key that
//! shares a given prefix. Keys are never removed, and the empty string is
//! never a member.

pub mod laws;
pub mod trie;
