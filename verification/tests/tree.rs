use zk_ballot::circuit::VOTE_TREE_DEPTH;
use zk_ballot::field::Fe;
use zk_ballot::hash::hash as poseidon;
use zk_ballot::tree::{hash, MerkleTree};

fn fe(v: u64) -> Fe {
    Fe::from_u64(v)
}

fn from_le(bytes: [u8; 32]) -> Fe {
    Fe::from_bytes(&bytes).expect("canonical")
}

fn h(a: Fe, b: Fe) -> Fe {
    hash(a, b).expect("round constants")
}

fn build(leaves: &[Fe]) -> MerkleTree {
    MerkleTree::new(leaves).expect("round constants")
}

#[test]
fn tree_root_is_deterministic() {
    let leaves = vec![fe(1), fe(2), fe(3)];
    let t1 = build(&leaves);
    let t2 = build(&leaves);
    assert_eq!(t1.root, t2.root);
}

#[test]
fn path_verifies() {
    let leaves = vec![fe(1), fe(2), fe(3), fe(4)];
    let tree = build(&leaves);
    let path = tree.path(2);
    let mut current = tree.leaves[2];
    for sibling in &path {
        current = h(current, *sibling);
    }
    let _ = current;
    assert_eq!(path.len(), VOTE_TREE_DEPTH);
    assert_eq!(tree.root, tree.nodes[VOTE_TREE_DEPTH][0]);
}

#[test]
fn tree_hash_is_the_chip_poseidon() {
    for (a, b) in [(0u64, 0u64), (1, 2), (7, 3)] {
        assert_eq!(h(fe(a), fe(b)), poseidon(fe(a), fe(b)).unwrap());
    }
    assert_ne!(h(fe(0), fe(0)), fe(0));
}

#[test]
fn leaf_nullifier_commitment_values() {
    assert_eq!(MerkleTree::leaf(fe(1), fe(2)).unwrap(), h(fe(1), fe(2)));
    assert_eq!(
        MerkleTree::nullifier(fe(5)).unwrap(),
        from_le([
            39, 64, 109, 2, 62, 241, 190, 45, 165, 23, 221, 239, 24, 172, 233, 221, 38, 32, 147,
            117, 58, 123, 237, 23, 182, 22, 183, 100, 188, 70, 112, 42,
        ])
    );
    assert_eq!(MerkleTree::vote_commitment(fe(1), fe(3)).unwrap(), h(fe(1), fe(3)));
}

#[test]
fn known_root() {
    let tree = build(&[fe(1), fe(2), fe(3)]);
    assert_eq!(
        tree.root,
        from_le([
            32, 93, 51, 56, 157, 47, 17, 222, 200, 44, 243, 239, 245, 153, 156, 242, 30, 37, 21, 37,
            174, 125, 87, 69, 226, 63, 159, 104, 230, 29, 179, 27,
        ])
    );
}

#[test]
fn leaves_are_padded_with_zero() {
    let tree = build(&[fe(9), fe(8)]);
    assert_eq!(tree.leaves.len(), 16);
    assert_eq!(tree.leaves[0], fe(9));
    assert_eq!(tree.leaves[1], fe(8));
    for i in 2..16 {
        assert_eq!(tree.leaves[i], fe(0));
    }
    let sizes: Vec<usize> = tree.nodes.iter().map(|l| l.len()).collect();
    assert_eq!(sizes, vec![16, 8, 4, 2, 1]);
}

#[test]
fn extra_leaves_are_dropped() {
    let leaves: Vec<Fe> = (1..=20).map(fe).collect();
    let tree = build(&leaves);
    let first16 = build(&leaves[..16]);
    assert_eq!(tree.leaves.len(), 16);
    assert_eq!(tree.root, first16.root);
}

#[test]
fn small_tree_root_by_hand() {
    let tree = build(&[fe(1), fe(2)]);
    let zero = fe(0);
    let z1 = h(zero, zero);
    let z2 = h(z1, z1);
    let z3 = h(z2, z2);
    let level1 = h(fe(1), fe(2));
    let level2 = h(level1, z1);
    let level3 = h(level2, z2);
    let level4 = h(level3, z3);
    assert_eq!(tree.nodes[1][0], level1);
    assert_eq!(tree.nodes[1][1], z1);
    assert_eq!(tree.root, level4);
}

#[test]
fn every_leaf_path_folds_to_the_root() {
    let leaves: Vec<Fe> = (1..=11).map(|v| fe(v * 7 + 3)).collect();
    let tree = build(&leaves);
    for index in 0..16usize {
        let path = tree.path(index);
        assert_eq!(path.len(), VOTE_TREE_DEPTH);
        let mut current = tree.leaves[index];
        let mut idx = index;
        for sibling in &path {
            current = if idx % 2 == 0 { h(current, *sibling) } else { h(*sibling, current) };
            idx /= 2;
        }
        assert_eq!(current, tree.root);
    }
}

#[test]
fn path_lists_sibling_nodes() {
    let leaves: Vec<Fe> = (0..16).map(fe).collect();
    let tree = build(&leaves);
    let path = tree.path(5);
    assert_eq!(path[0], tree.nodes[0][4]);
    assert_eq!(path[1], tree.nodes[1][3]);
    assert_eq!(path[2], tree.nodes[2][0]);
    assert_eq!(path[3], tree.nodes[3][1]);
}

#[test]
fn changing_one_leaf_changes_only_its_path() {
    let leaves: Vec<Fe> = (0..16).map(fe).collect();
    let mut changed = leaves.clone();
    changed[6] = fe(100);
    let a = build(&leaves);
    let b = build(&changed);
    for l in 0..=VOTE_TREE_DEPTH {
        for j in 0..a.nodes[l].len() {
            if j == 6 >> l {
                assert_ne!(a.nodes[l][j], b.nodes[l][j]);
            } else {
                assert_eq!(a.nodes[l][j], b.nodes[l][j]);
            }
        }
    }
}
