//! A sparse Merkle tree over 256-bit keys: an authenticated key-value store
//! whose root commits to every entry, with compact inclusion and exclusion
//! proofs that can be checked without access to the tree.
//!
//! - `h256`: the 32-byte digest used as key, value and node hash.
//! - `internal_blake2b`: the personalised BLAKE2b-256 hasher.
//! - `internal_key`: keys as 256-bit paths, and their packing into bytes.
//! - `merge`: leaf and branch digests, with domain separation and zero-collapse.
//! - `tree`: the engine (`get`, `update`, `root`, `validate`) and its laws.
//! - `store`: the store of non-zero branches, keyed by height and position.
//! - `merkle_proof`: proof generation and verification, and the round-trip law.
//! - `compiled`: the byte form of a proof.
//!
//! The contents of a tree are modelled as a map from key paths to values;
//! `tree::root_of` gives the root digest of any such map, and every operation
//! is specified against it.
use vstd::prelude::*;

pub mod compiled;
pub mod error;
pub mod h256;
pub mod internal_blake2b;
pub mod internal_key;
pub mod merge;
pub mod merkle_proof;
pub mod store;
pub mod tree;

pub use error::Error;
pub use h256::H256;
pub use compiled::CompiledMerkleProof;
pub use internal_blake2b::Blake2bHasher;
pub use merkle_proof::MerkleProof;
pub use store::BranchNode;
pub use tree::{LeafNode, SparseMerkleTree};

verus! {

/// Height of the tree: one level per bit of a key.
pub const TREE_HEIGHT: usize = 256;

/// Largest number of non-zero leaves a tree may hold.
pub const KEY_LIMIT: usize = 4294967295;

} // verus!
