//! The vote circuit — ties together Merkle membership, nullifier, boolean
//! vote, and vote commitment.
//!
//! Uses Poseidon for all hashing. This module holds the circuit's inputs and
//! the values it binds as public inputs: the registry root reached from the
//! voter's leaf `H(secret, seed)`, the nullifier `H(seed, 0)` and the vote
//! commitment `H(vote, secret)`.

use vstd::prelude::*;

use crate::field::Fe;
use crate::hash::{hash, poseidon_fn, spec_poseidon, spec_round_constants};
use crate::merkle::membership_witness;
use crate::hash::spec_constants;
use crate::tree::{capacity, fold_path, lemma_path_verifies, spec_hash, vals, MerkleTree};

verus! {

/// Depth of the voter-registry Merkle tree. 4 → up to 16 voters.
pub const VOTE_TREE_DEPTH: usize = 4;

/// Public inputs: `[merkle_root, nullifier, vote_commitment]`.
pub const NUM_PUBLIC_INPUTS: usize = 3;

/// All the data a voter needs to produce a proof.
#[derive(Clone, Debug)]
pub struct VoteInputs {
    /// Voter's secret (private).
    pub secret: Fe,
    /// Nullifier seed (private). Published as `H(seed, 0)` to prevent double-voting.
    pub nullifier_seed: Fe,
    /// The vote: 0 = no, 1 = yes (private).
    pub vote: Fe,
    /// Sibling hashes from leaf to root (private).
    pub merkle_path: Vec<Fe>,
    /// Leaf index in the tree (private).
    pub position: usize,
}

/// The anonymous-voting circuit.
#[derive(Clone, Debug)]
pub struct VoteCircuit {
    pub inputs: VoteInputs,
}

/// The public inputs that the circuit binds for the given inputs, with
/// round constants `cs`: `[root, nullifier, vote_commitment]`.
pub open spec fn spec_public_inputs(cs: Seq<(nat, nat, nat)>, inputs: VoteInputs) -> (nat, nat, nat) {
    let leaf = spec_poseidon(cs, inputs.secret@, inputs.nullifier_seed@);
    (
        fold_path(poseidon_fn(cs), leaf, vals(inputs.merkle_path@), inputs.position as nat),
        spec_poseidon(cs, inputs.nullifier_seed@, 0),
        spec_poseidon(cs, inputs.vote@, inputs.secret@),
    )
}

impl VoteCircuit {
    /// Create a circuit with zero witnesses (for keygen).
    pub fn empty() -> (c: Self)
        ensures
            c.inputs.secret@ == 0,
            c.inputs.nullifier_seed@ == 0,
            c.inputs.vote@ == 0,
            c.inputs.merkle_path@.len() == VOTE_TREE_DEPTH,
            forall|i: int| 0 <= i < VOTE_TREE_DEPTH ==> (#[trigger] c.inputs.merkle_path@[i])@ == 0,
            c.inputs.position == 0,
    {
        let mut merkle_path: Vec<Fe> = Vec::new();
        for i in 0..VOTE_TREE_DEPTH
            invariant
                merkle_path@.len() == i,
                forall|j: int| 0 <= j < i ==> (#[trigger] merkle_path@[j])@ == 0,
        {
            merkle_path.push(Fe::zero());
        }
        VoteCircuit {
            inputs: VoteInputs {
                secret: Fe::zero(),
                nullifier_seed: Fe::zero(),
                vote: Fe::zero(),
                merkle_path,
                position: 0,
            },
        }
    }

    /// The public inputs `[merkle_root, nullifier, vote_commitment]` that
    /// the circuit constrains for these inputs: the root reached from the
    /// leaf `H(secret, seed)` along the Merkle path, `H(seed, 0)`, and
    /// `H(vote, secret)`. `None` exactly when the round constants cannot be
    /// drawn.
    pub fn public_inputs(&self) -> (r: Option<[Fe; 3]>)
        requires
            self.inputs.merkle_path@.len() == VOTE_TREE_DEPTH,
        ensures
            r is Some <==> spec_round_constants() is Some,
            r matches Some(v) ==> (v@[0]@, v@[1]@, v@[2]@) == spec_public_inputs(
                spec_round_constants().unwrap(),
                self.inputs,
            ),
    {
        let leaf = match hash(self.inputs.secret, self.inputs.nullifier_seed) {
            Some(h) => h,
            None => {
                return None;
            },
        };
        let levels = match membership_witness(
            leaf,
            self.inputs.merkle_path.as_slice(),
            self.inputs.position,
            VOTE_TREE_DEPTH,
        ) {
            Some(ls) => ls,
            None => {
                return None;
            },
        };
        let root = levels[VOTE_TREE_DEPTH - 1].parent;
        let nullifier = match hash(self.inputs.nullifier_seed, Fe::zero()) {
            Some(h) => h,
            None => {
                return None;
            },
        };
        let commitment = match hash(self.inputs.vote, self.inputs.secret) {
            Some(h) => h,
            None => {
                return None;
            },
        };
        Some([root, nullifier, commitment])
    }
}


/// Proofs verify against registry trees: for a consistent registry tree,
/// any leaf index below its capacity whose leaf is `H(secret, seed)`, and
/// inputs that carry that index and the tree's authentication path, the
/// circuit's public inputs are the tree's root, the nullifier `H(seed, 0)`
/// and the vote commitment `H(vote, secret)` — the values
/// `MerkleTree::root`, `MerkleTree::nullifier` and
/// `MerkleTree::vote_commitment` give.
pub proof fn lemma_public_inputs_match_registry(t: MerkleTree, inputs: VoteInputs)
    requires
        t.wf(),
        inputs.position < capacity(),
        t.leaves@[inputs.position as int]@ == spec_hash(inputs.secret@, inputs.nullifier_seed@),
        vals(inputs.merkle_path@) == t.spec_path(inputs.position as nat),
    ensures
        spec_public_inputs(spec_constants(), inputs) == (
            t.root@,
            spec_hash(inputs.nullifier_seed@, 0),
            spec_hash(inputs.vote@, inputs.secret@),
        ),
{
    lemma_path_verifies(t, inputs.position as nat);
}

} // verus!
