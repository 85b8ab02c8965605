use zk_ballot::ballot_energy::anonymity_set;

#[test]
fn anonymity_set_is_two_to_the_depth() {
    assert_eq!(anonymity_set(0), 1);
    assert_eq!(anonymity_set(4), 16);
    assert_eq!(anonymity_set(8), 256);
    assert_eq!(anonymity_set(63), 1u64 << 63);
}

#[test]
fn anonymity_set_saturates_from_depth_64() {
    assert_eq!(anonymity_set(64), u64::MAX);
    assert_eq!(anonymity_set(1000), u64::MAX);
}
