//! A binary Merkle hash tree over an ordered sequence of items.
//!
//! Every item contributes one leaf fingerprint; consecutive fingerprints are
//! hashed pairwise, layer by layer, until a single root fingerprint remains.
//! The root commits to the items and to their order.

pub mod hash;
pub mod hashable;
pub mod hex;
pub mod laws;
pub mod tree;

pub use hash::{hash_bytes, hash_data, hash_pair};
pub use hashable::Hashable;
pub use hex::to_hex;
pub use tree::{reduce_layer, MerkleTree};
