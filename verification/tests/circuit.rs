use zk_ballot::circuit::{VoteCircuit, VoteInputs, NUM_PUBLIC_INPUTS, VOTE_TREE_DEPTH};
use zk_ballot::field::Fe;
use zk_ballot::hash::hash;
use zk_ballot::merkle::membership_witness;
use zk_ballot::tree::MerkleTree;

fn fe(v: u64) -> Fe {
    Fe::from_u64(v)
}

#[test]
fn empty_circuit_is_all_zero() {
    let c = VoteCircuit::empty();
    assert_eq!(c.inputs.secret, fe(0));
    assert_eq!(c.inputs.nullifier_seed, fe(0));
    assert_eq!(c.inputs.vote, fe(0));
    assert_eq!(c.inputs.merkle_path, vec![fe(0); VOTE_TREE_DEPTH]);
    assert_eq!(c.inputs.position, 0);
}

#[test]
fn public_inputs_are_root_nullifier_commitment() {
    let inputs = VoteInputs {
        secret: fe(42),
        nullifier_seed: fe(7),
        vote: fe(1),
        merkle_path: vec![fe(3), fe(5), fe(9), fe(11)],
        position: 6,
    };
    let circuit = VoteCircuit { inputs: inputs.clone() };
    let public = circuit.public_inputs().expect("public inputs");
    assert_eq!(public.len(), NUM_PUBLIC_INPUTS);
    let leaf = hash(fe(42), fe(7)).unwrap();
    let levels = membership_witness(leaf, &inputs.merkle_path, 6, VOTE_TREE_DEPTH).unwrap();
    assert_eq!(public[0], levels[VOTE_TREE_DEPTH - 1].parent);
    assert_eq!(public[1], hash(fe(7), fe(0)).unwrap());
    assert_eq!(public[2], hash(fe(1), fe(42)).unwrap());
}

#[test]
fn public_inputs_match_the_registry_tree() {
    let voters: Vec<(Fe, Fe)> = (0..5).map(|i| (fe(100 + i), fe(200 + i))).collect();
    let leaves: Vec<Fe> = voters.iter().map(|(s, n)| MerkleTree::leaf(*s, *n).unwrap()).collect();
    let tree = MerkleTree::new(&leaves).unwrap();
    for (i, (secret, seed)) in voters.iter().enumerate() {
        let vote = fe((i % 2) as u64);
        let circuit = VoteCircuit {
            inputs: VoteInputs {
                secret: *secret,
                nullifier_seed: *seed,
                vote,
                merkle_path: tree.path(i),
                position: i,
            },
        };
        let public = circuit.public_inputs().unwrap();
        assert_eq!(public[0], tree.root);
        assert_eq!(public[1], MerkleTree::nullifier(*seed).unwrap());
        assert_eq!(public[2], MerkleTree::vote_commitment(vote, *secret).unwrap());
    }
}
