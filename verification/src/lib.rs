//! zk-ballot: anonymous voting over the BN254 scalar field.
//!
//! The library holds the computations behind the voting circuit: the field
//! element model, the off-circuit Merkle registry, the Poseidon permutation
//! with its per-round witness, the conditional-swap witness of the Merkle
//! membership chip, and the public inputs that a vote proof binds.

pub mod field;
pub mod circuit;
pub mod tree;
pub mod hash;
pub mod merkle;
pub mod ballot_energy;

pub use circuit::{VoteCircuit, VoteInputs, VOTE_TREE_DEPTH, NUM_PUBLIC_INPUTS};
pub use field::Fe;
pub use tree::MerkleTree;
