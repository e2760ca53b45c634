//! A central limit order book for a single instrument: accounts, resting
//! orders kept in price-time priority, and the matching of incoming orders
//! against them. Beside it stand a set of strings kept as a character tree
//! and the frame of a prefix tree.

pub mod clob;
pub mod critbit;
pub mod laws;
pub mod matching;
pub mod trie;
