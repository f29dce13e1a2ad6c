//! A longest-prefix-match table over IPv4 and IPv6 prefixes, built on a
//! stride-4 compressed trie whose nodes and results live in index-addressed
//! arenas.
//!
//! - `bitmap`: bitmaps with rank addressing.
//! - `arena`: slot pools with free-list reuse.
//! - `prefix`: the model of keys and prefixes that the contracts speak of.
//! - `tree_bitmap`: the trie, keyed by nibbles, with values of any `Copy`
//!   type.
//! - `nibbles`, `addrs`: addresses, their nibbles, and masking.
//! - `table`: the trie keyed by addresses.
//! - `laws`: what holds between the operations.

pub mod addrs;
pub mod arena;
pub mod bitmap;
pub mod laws;
pub mod nibbles;
pub mod prefix;
pub mod table;
pub mod tree_bitmap;
