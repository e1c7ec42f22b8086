//! A persistent map from 64-bit keys to arbitrary values, built as a
//! big-endian Patricia trie with reference-counted structural sharing.
//!
//! Cloning a map is O(1): the clone shares every subtree with the original,
//! and mutation rebuilds only the path it touches, so the two maps stay
//! logically independent. Besides the usual map operations, the map offers
//! the lattice primitives `leq`, `union_with` and `intersect_with` for
//! values drawn from an abstract domain, with the merge operators supplied
//! by the caller.

mod bits;
mod node;
pub mod map;

pub use map::PatriciaTreeMap;
pub use map::PatriciaTreeMapIterator;
