use vegosh::keygen::{
    create, generate_key, generate_keys_range, generate_keys_table, key_be_bytes, key_bytes,
    key_from_be_bytes, A, B,
};

#[test]
fn create_is_affine_with_wraparound() {
    assert_eq!(create(0), B);
    assert_eq!(create(1), 0x6fecc3ec50dd6918);
    assert_eq!(create(2), 0x0e243da5d027e52d);
    assert_eq!(create(1), A.wrapping_add(B));
}

#[test]
fn generate_key_halves() {
    assert_eq!(generate_key(0), 0xd1b54a32d192ed03b0f977559fdb46bc);
    assert_eq!(generate_key(1), 0x6fecc3ec50dd691812c1fd9c2090caa7);
}

#[test]
fn key_bytes_little_endian() {
    assert_eq!(
        key_bytes(generate_key(1)),
        [167, 202, 144, 32, 156, 253, 193, 18, 24, 105, 221, 80, 236, 195, 236, 111]
    );
    assert_eq!(key_bytes(0x0102), {
        let mut b = [0u8; 16];
        b[0] = 2;
        b[1] = 1;
        b
    });
}

#[test]
fn key_be_bytes_big_endian_and_roundtrip() {
    let k = generate_key(1);
    assert_eq!(
        key_be_bytes(k),
        [111, 236, 195, 236, 80, 221, 105, 24, 18, 193, 253, 156, 32, 144, 202, 167]
    );
    assert_eq!(key_be_bytes(k), k.to_be_bytes());
    for i in 0..100u64 {
        let k = generate_key(i);
        assert_eq!(key_from_be_bytes(&key_be_bytes(k)), k);
    }
    assert_eq!(key_from_be_bytes(&key_be_bytes(u128::MAX)), u128::MAX);
    assert_eq!(key_from_be_bytes(&[0u8; 16]), 0);
}

#[test]
fn keys_table_and_range() {
    let t = generate_keys_table(5);
    assert_eq!(t.len(), 5);
    for (i, k) in t.iter().enumerate() {
        assert_eq!(*k, generate_key(i as u64));
    }
    let r = generate_keys_range(10, 3);
    assert_eq!(r, vec![generate_key(10), generate_key(11), generate_key(12)]);
    assert!(generate_keys_table(0).is_empty());
}
