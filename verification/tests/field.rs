use zk_ballot::field::Fe;

fn modulus_minus_one() -> [u8; 32] {
    [
        0, 0, 0, 240, 147, 245, 225, 67, 145, 112, 185, 121, 72, 232, 51, 40, 93, 88, 129, 129,
        182, 69, 80, 184, 41, 160, 49, 225, 114, 78, 100, 48,
    ]
}

fn modulus_bytes() -> [u8; 32] {
    [
        1, 0, 0, 240, 147, 245, 225, 67, 145, 112, 185, 121, 72, 232, 51, 40, 93, 88, 129, 129,
        182, 69, 80, 184, 41, 160, 49, 225, 114, 78, 100, 48,
    ]
}

#[test]
fn from_u64_encodes_little_endian() {
    let x = Fe::from_u64(0x0102);
    let mut expected = [0u8; 32];
    expected[0] = 2;
    expected[1] = 1;
    assert_eq!(x.to_bytes(), expected);
}

#[test]
fn add_and_mul_compute_in_the_field() {
    let two = Fe::from_u64(2);
    let three = Fe::from_u64(3);
    assert_eq!(two.add(three), Fe::from_u64(5));
    assert_eq!(two.mul(three), Fe::from_u64(6));
    assert_eq!(Fe::zero(), Fe::from_u64(0));
    assert_eq!(Fe::one(), Fe::from_u64(1));
}

#[test]
fn addition_wraps_at_the_modulus() {
    let top = Fe::from_bytes(&modulus_minus_one()).expect("p - 1 is canonical");
    assert_eq!(top.add(Fe::one()), Fe::zero());
    assert_eq!(top.add(Fe::from_u64(5)), Fe::from_u64(4));
    // (p - 1)^2 = 1
    assert_eq!(top.mul(top), Fe::one());
}

#[test]
fn from_bytes_accepts_exactly_canonical_encodings() {
    assert!(Fe::from_bytes(&modulus_minus_one()).is_some());
    assert!(Fe::from_bytes(&modulus_bytes()).is_none());
    assert!(Fe::from_bytes(&[0xff; 32]).is_none());
    let x = Fe::from_bytes(&[7u8; 32]).expect("below the modulus");
    assert_eq!(x.to_bytes(), [7u8; 32]);
}
