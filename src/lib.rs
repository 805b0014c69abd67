//! A Verkle tree over the scalar field of BLS12-381: a complete `width`-ary tree of KZG
//! commitments over a flat sequence of values, with single-index and batch membership proofs.
//!
//! Values are field elements. A variant over byte strings committed with the `pointproofs`
//! scheme is not provided: that crate is not published on crates.io.

pub mod field;
pub mod guarantees;
pub mod layout;
pub mod pcs;
pub mod verkle_tree;

pub use field::Scalar;
pub use pcs::Commitment;
pub use verkle_tree::{ProofNode, VerkleProof, VerkleTree, VerkleTreeError};
