//! A longest-prefix-match (LPM) routing table for IPv4 addresses.
//!
//! The table is a binary trie over the 32-bit address space: each bit of an
//! address selects a branch, and any node on the path may terminate a
//! registered prefix and carry a route label. `insert` registers a prefix,
//! `search` walks an address bit by bit and returns the route of the deepest
//! (most specific) registered prefix covering it.

pub mod addr;
pub mod lpm;
pub mod trie;
