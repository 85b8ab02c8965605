use zk_ballot::field::Fe;
use zk_ballot::hash::{
    hash, is_full_round, mds_mul, poseidon_trace, round_constants, sbox, sbox_witness, ROUNDS,
};

fn fe(v: u64) -> Fe {
    Fe::from_u64(v)
}

fn from_le(bytes: [u8; 32]) -> Fe {
    Fe::from_bytes(&bytes).expect("canonical")
}

#[test]
fn all_round_constants_are_nonzero_field_elements() {
    let constants = round_constants().expect("round constants are drawn");
    for (round_idx, round) in constants.iter().enumerate() {
        for (col_idx, c) in round.iter().enumerate() {
            assert!(*c != Fe::zero(), "round constant [{}][{}] is zero", round_idx, col_idx);
        }
    }
}

#[test]
fn round_constants_table_shape_and_first_value() {
    let constants = round_constants().expect("round constants are drawn");
    assert_eq!(constants.len(), ROUNDS);
    let expected = from_le([
        23, 213, 54, 214, 212, 164, 69, 171, 128, 59, 70, 119, 20, 216, 169, 59, 94, 83, 189, 114,
        148, 250, 137, 170, 240, 199, 86, 33, 253, 58, 42, 21,
    ]);
    assert_eq!(constants[0][0], expected);
}

#[test]
fn poseidon_known_values() {
    let h12 = hash(fe(1), fe(2)).expect("hash");
    assert_eq!(
        h12,
        from_le([
            103, 255, 229, 104, 27, 120, 124, 147, 209, 3, 1, 5, 151, 178, 213, 147, 28, 149, 23,
            215, 23, 99, 214, 223, 112, 19, 139, 181, 235, 77, 199, 31,
        ])
    );
    let h00 = hash(fe(0), fe(0)).expect("hash");
    assert_eq!(
        h00,
        from_le([
            208, 113, 85, 247, 128, 23, 106, 162, 198, 30, 142, 194, 87, 106, 37, 5, 34, 125, 137,
            228, 145, 8, 206, 94, 130, 139, 121, 240, 91, 14, 140, 18,
        ])
    );
    assert_ne!(h12, hash(fe(2), fe(1)).unwrap());
}

#[test]
fn sbox_is_fifth_power() {
    assert_eq!(sbox(fe(2)), fe(32));
    assert_eq!(sbox(fe(3)), fe(243));
    assert_eq!(sbox(fe(0)), fe(0));
}

#[test]
fn mds_is_circulant_3_1_1() {
    assert_eq!(mds_mul([fe(1), fe(0), fe(0)]), [fe(3), fe(1), fe(1)]);
    assert_eq!(mds_mul([fe(1), fe(2), fe(3)]), [fe(8), fe(10), fe(12)]);
}

#[test]
fn full_and_partial_rounds() {
    let full: Vec<usize> = (0..ROUNDS).filter(|r| is_full_round(*r)).collect();
    assert_eq!(full, vec![0, 1, 2, 3, 61, 62, 63, 64]);
}

#[test]
fn sbox_witness_intermediates() {
    let w = sbox_witness(fe(1), fe(2));
    assert_eq!(w.t0, fe(3));
    assert_eq!(w.t1, fe(9));
    assert_eq!(w.t2, fe(81));
    assert_eq!(w.out, fe(243));
}

#[test]
fn trace_chains_rounds_and_ends_in_the_hash() {
    let a = fe(11);
    let b = fe(12);
    let trace = poseidon_trace(a, b).expect("trace");
    let constants = round_constants().unwrap();
    assert_eq!(trace.len(), ROUNDS);
    assert_eq!(trace[0].pre_arc, [a, b, fe(0)]);
    for r in 1..ROUNDS {
        assert_eq!(trace[r].pre_arc, trace[r - 1].out);
    }
    for r in 0..ROUNDS {
        assert_eq!(trace[r].constants, constants[r]);
        assert_eq!(trace[r].full, is_full_round(r));
        assert_eq!(mds_mul(trace[r].post_sbox), trace[r].out);
        let w = sbox_witness(trace[r].pre_arc[0], constants[r][0]);
        assert_eq!(w.out, trace[r].post_sbox[0]);
        if !trace[r].full {
            assert_eq!(trace[r].post_sbox[1], trace[r].pre_arc[1].add(constants[r][1]));
        }
    }
    assert_eq!(trace[ROUNDS - 1].out[0], hash(a, b).unwrap());
}

#[test]
fn mds_is_linear() {
    let x = [fe(1), fe(2), fe(3)];
    let y = [fe(10), fe(20), fe(30)];
    let sum = [x[0].add(y[0]), x[1].add(y[1]), x[2].add(y[2])];
    let mx = mds_mul(x);
    let my = mds_mul(y);
    assert_eq!(mds_mul(sum), [mx[0].add(my[0]), mx[1].add(my[1]), mx[2].add(my[2])]);
    let k = fe(7);
    let kx = [k.mul(x[0]), k.mul(x[1]), k.mul(x[2])];
    assert_eq!(mds_mul(kx), [k.mul(mx[0]), k.mul(mx[1]), k.mul(mx[2])]);
    assert_eq!(mx[0].add(mx[1]).add(mx[2]), fe(5).mul(fe(6)));
}
