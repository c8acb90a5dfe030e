//! A Merkle hash tree: commit to an ordered sequence of byte blocks with a
//! single root digest, and produce and check compact inclusion proofs for
//! individual blocks.

pub mod color;
pub mod digest;
pub mod inclusion;
pub mod laws;
pub mod tree;

pub use digest::Digest;
pub use tree::{MerkleError, MerkleTree, Node, Position};
