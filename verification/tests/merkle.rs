use zk_ballot::field::Fe;
use zk_ballot::hash::hash;
use zk_ballot::merkle::{membership_witness, swap_witness};

fn fe(v: u64) -> Fe {
    Fe::from_u64(v)
}

#[test]
fn swap_orders_by_position_bit() {
    let w = swap_witness(0b0110, 0, fe(10), fe(20));
    assert_eq!(w.pos_bit, fe(0));
    assert_eq!((w.left, w.right), (fe(10), fe(20)));
    let w = swap_witness(0b0110, 1, fe(10), fe(20));
    assert_eq!(w.pos_bit, fe(1));
    assert_eq!((w.left, w.right), (fe(20), fe(10)));
}

#[test]
fn membership_levels_chain_to_the_root() {
    let leaf = fe(5);
    let path = vec![fe(1), fe(2), fe(3), fe(4)];
    let position = 0b1010;
    let levels = membership_witness(leaf, &path, position, 4).expect("witness");
    assert_eq!(levels.len(), 4);
    let mut current = leaf;
    let mut idx = position;
    for (l, w) in levels.iter().enumerate() {
        assert_eq!(w.current, current);
        assert_eq!(w.sibling, path[l]);
        current = if idx % 2 == 0 {
            hash(current, path[l]).unwrap()
        } else {
            hash(path[l], current).unwrap()
        };
        assert_eq!(w.parent, current);
        idx /= 2;
    }
}

#[test]
fn empty_path_gives_no_levels() {
    let levels = membership_witness(fe(5), &[], 3, 0).expect("witness");
    assert!(levels.is_empty());
}

#[test]
fn only_the_low_position_bits_are_read() {
    let leaf = fe(5);
    let path = vec![fe(1), fe(2), fe(3), fe(4)];
    let a = membership_witness(leaf, &path, 0b0110, 4).expect("witness");
    let b = membership_witness(leaf, &path, 0b1_0110, 4).expect("witness");
    assert_eq!(a[3].parent, b[3].parent);
}
