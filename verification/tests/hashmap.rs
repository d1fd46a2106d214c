use vegosh::hashmap::{delete, get, get_probed, init, insert, insert_probed, size, HashTable, MAX_KEYS};
use vegosh::keygen::{generate_key, key_bytes};

fn key_of(i: u64) -> [u8; 16] {
    key_bytes(generate_key(i))
}

#[test]
fn hashmap_insert_get_roundtrip() {
    let mut t = HashTable::new();
    let v = [0xabu8; 32];
    assert_eq!(insert(&mut t, &key_of(1), &v, 32), 0);
    let mut out = [0u8; 32];
    let mut len = 0u8;
    assert_eq!(get(&t, &key_of(1), &mut out, &mut len), 0);
    assert_eq!(out, v);
    assert_eq!(len, 32);
    assert_eq!(size(&t), 1);
}

#[test]
fn hashmap_short_value_is_zero_padded() {
    let mut t = HashTable::new();
    let v = [7u8, 8, 9];
    assert_eq!(insert(&mut t, &key_of(2), &v, 3), 0);
    let mut out = [0xffu8; 32];
    let mut len = 0u8;
    assert_eq!(get(&t, &key_of(2), &mut out, &mut len), 0);
    let mut expect = [0u8; 32];
    expect[..3].copy_from_slice(&v);
    assert_eq!(out, expect);
    assert_eq!(len, 3);
}

#[test]
fn hashmap_update_overwrites_prefix_only() {
    let mut t = HashTable::new();
    assert_eq!(insert(&mut t, &key_of(3), &[1u8; 32], 32), 0);
    assert_eq!(insert(&mut t, &key_of(3), &[2u8; 4], 4), 1);
    let mut out = [0u8; 32];
    let mut len = 0u8;
    assert_eq!(get(&t, &key_of(3), &mut out, &mut len), 0);
    let mut expect = [1u8; 32];
    expect[..4].copy_from_slice(&[2u8; 4]);
    assert_eq!(out, expect);
    assert_eq!(len, 4);
    assert_eq!(size(&t), 1);
}

#[test]
fn hashmap_long_length_byte_copies_32_bytes() {
    let mut t = HashTable::new();
    let v: Vec<u8> = (0..40u8).collect();
    assert_eq!(insert(&mut t, &key_of(4), &v, 200), 0);
    let mut out = [0u8; 32];
    let mut len = 0u8;
    assert_eq!(get(&t, &key_of(4), &mut out, &mut len), 0);
    assert_eq!(&out[..], &v[..32]);
    assert_eq!(len, 200);
}

#[test]
fn hashmap_miss_leaves_outputs() {
    let t = HashTable::new();
    let mut out = [9u8; 32];
    let mut len = 4u8;
    assert_eq!(get(&t, &key_of(5), &mut out, &mut len), -1);
    assert_eq!(out, [9u8; 32]);
    assert_eq!(len, 4);
}

#[test]
fn hashmap_delete_codes() {
    let mut t = HashTable::new();
    insert(&mut t, &key_of(6), &[1u8; 32], 32);
    assert_eq!(delete(&mut t, &key_of(7)), -1);
    assert_eq!(delete(&mut t, &key_of(6)), 0);
    assert_eq!(delete(&mut t, &key_of(6)), -1);
    assert_eq!(size(&t), 0);
}

#[test]
fn hashmap_init_empties() {
    let mut t = HashTable::new();
    insert(&mut t, &key_of(8), &[1u8; 32], 32);
    init(&mut t);
    assert_eq!(size(&t), 0);
    let mut out = [0u8; 32];
    let mut len = 0u8;
    assert_eq!(get(&t, &key_of(8), &mut out, &mut len), -1);
}

#[test]
fn hashmap_full_table_returns_minus_one() {
    let mut t = HashTable::new();
    let v = [3u8; 32];
    for i in 0..MAX_KEYS as u64 {
        assert_eq!(insert(&mut t, &key_of(i), &v, 32), 0);
    }
    assert_eq!(size(&t), MAX_KEYS);
    assert_eq!(insert(&mut t, &key_of(MAX_KEYS as u64), &v, 32), -1);
    assert_eq!(insert(&mut t, &key_of(1), &[4u8; 32], 32), -1);
    let mut out = [0u8; 32];
    let mut len = 0u8;
    assert_eq!(get(&t, &key_of(1), &mut out, &mut len), 0);
    assert_eq!(out, v);
    assert_eq!(get(&t, &key_of(MAX_KEYS as u64), &mut out, &mut len), -1);
    assert_eq!(size(&t), MAX_KEYS);
}

#[test]
fn hashmap_probed_calls_match_plain_calls() {
    let mut t = HashTable::new();
    let v = [0x5au8; 32];
    assert_eq!(insert_probed(&mut t, &key_of(3), &v, 32).0, 0);
    assert_eq!(insert_probed(&mut t, &key_of(3), &v, 32).0, 1);
    let mut out = [0u8; 32];
    let mut len = 0u8;
    assert_eq!(get_probed(&t, &key_of(3), &mut out, &mut len).0, 0);
    assert_eq!(out, v);
    assert_eq!(len, 32);
    assert_eq!(get_probed(&t, &key_of(4), &mut out, &mut len).0, -1);
}
