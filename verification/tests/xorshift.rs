use vegosh::xorshift::Xorshift128;

#[test]
fn xorshift_first_outputs() {
    let mut rng = Xorshift128::new(0x1234567890abcdef);
    assert_eq!(rng.next_u64(), 0xf4fc5081ad28d77d);
    assert_eq!(rng.next_u64(), 0x7afd63e35350a2d2);
}

#[test]
fn xorshift_first_key() {
    let mut rng = Xorshift128::new(0x1234567890abcdef);
    assert_eq!(
        rng.next_key(),
        [125, 215, 40, 173, 129, 80, 252, 244, 210, 162, 80, 83, 227, 99, 253, 122]
    );
}

#[test]
fn xorshift_next_keys_matches_next_key() {
    let mut a = Xorshift128::new(42);
    let mut b = Xorshift128::new(42);
    let keys = a.next_keys(10);
    assert_eq!(keys.len(), 10);
    for k in keys {
        assert_eq!(k, b.next_key());
    }
    assert_eq!(a.next_u64(), b.next_u64());
}
