use vegosh::byte_map::HbMap100;
use vegosh::get_jumbo_hb::{generate_table, MAX_KEYS, VALUE};
use vegosh::hashbrown_get::{build_lookup_keys, populate, KEY_SEED, N};
use vegosh::keygen::key_bytes;
use vegosh::xorshift::Xorshift128;

#[test]
fn hb_populate_and_lookup_mix() {
    let mut rng = Xorshift128::new(KEY_SEED);
    let inserted = rng.next_keys(N);
    let map = populate(&inserted, [0xabu8; 32]);
    assert_eq!(map.len(), N);
    let hit_count = 800_000;
    let lookup = build_lookup_keys(&inserted, hit_count);
    assert_eq!(lookup.len(), N);
    let found = lookup.iter().filter(|k| map.contains(k)).count();
    assert_eq!(found, hit_count);
}

#[test]
fn hb_generate_table_all_real() {
    let mut table = HbMap100::with_capacity(MAX_KEYS as usize);
    let keys = generate_table(&mut table, None);
    assert_eq!(keys.len(), MAX_KEYS as usize);
    assert_eq!(table.len(), MAX_KEYS as usize);
    assert!(keys.iter().all(|k| table.contains(&key_bytes(*k))));
    let _ = VALUE;
}

#[test]
fn hb_insert_reports_presence() {
    let mut table = HbMap100::with_capacity(4);
    assert!(!table.insert([1u8; 16], VALUE));
    assert!(table.insert([1u8; 16], VALUE));
    assert!(table.contains(&[1u8; 16]));
    assert!(!table.contains(&[2u8; 16]));
    assert_eq!(table.len(), 1);
}
