use std::collections::HashSet;
use vegosh::get_bench::{generate_table, lookup_mix};
use vegosh::hashmap::{self, HashTable, MAX_KEYS};
use vegosh::insert_del::{self, batch_continues, evict_stop, EvictStop, BATCH_SIZE, MAX_BATCHES};
use vegosh::insert_fuzz::{
    self, checkpoint, checkpoint_due, fuzz_action, operation, FuzzAction, DELETE_OP, INSERT_OP, OPS,
};
use vegosh::insert_jumbo_hist;
use vegosh::keygen::{generate_key, generate_keys_table, key_bytes};
use rand::SeedableRng;
use rand::rngs::SmallRng;

#[test]
fn fuzz_action_choices() {
    assert_eq!(fuzz_action(INSERT_OP, 3, 10), FuzzAction::InsertNew);
    assert_eq!(fuzz_action(INSERT_OP, 10, 10), FuzzAction::DeleteRandom);
    assert_eq!(fuzz_action(DELETE_OP, 0, 10), FuzzAction::InsertNew);
    assert_eq!(fuzz_action(DELETE_OP, 4, 10), FuzzAction::DeleteRandom);
}

#[test]
fn fuzz_checkpoints() {
    assert_eq!(checkpoint(0), (OPS / 4, 25));
    assert_eq!(checkpoint(6), (OPS, 100));
    assert_eq!(checkpoint_due(OPS / 2, 1), Some(50));
    assert_eq!(checkpoint_due(OPS / 2, 0), None);
    assert_eq!(checkpoint_due(OPS, 7), None);
    assert_eq!(checkpoint_due(OPS * 99 / 100, 5), Some(99));
}

#[test]
fn fuzz_pool_delete_random_key() {
    let mut pool = insert_fuzz::LiveKeys::new();
    for k in 0..50u128 {
        pool.add_key(k * 3);
    }
    pool.key_num = 50;
    let mut rng = SmallRng::seed_from_u64(7);
    let mut taken = Vec::new();
    for _ in 0..50 {
        taken.push(pool.delete_random_key(&mut rng));
    }
    assert!(pool.keys.is_empty());
    assert_eq!(pool.key_num, 50);
    taken.sort();
    assert_eq!(taken, (0..50u128).map(|k| k * 3).collect::<Vec<_>>());
}

#[test]
fn evict_pool_add_remove() {
    let mut pool = insert_del::LiveKeys::new();
    pool.add_key(5);
    pool.add_key(9);
    pool.remove_key(5);
    assert!(pool.keys.contains(&9));
    assert!(!pool.keys.contains(&5));
    assert_eq!(pool.key_num, 0);
}

#[test]
fn evict_stop_rules() {
    assert_eq!(evict_stop(10, 10, 0), Some(EvictStop::Full));
    assert_eq!(evict_stop(3, 10, MAX_BATCHES), Some(EvictStop::BatchLimit));
    assert_eq!(evict_stop(3, 10, 5), None);
    assert!(batch_continues(0, 3, 10));
    assert!(!batch_continues(BATCH_SIZE, 3, 10));
    assert!(!batch_continues(0, 10, 10));
}

#[test]
fn lookup_mix_all_real_is_a_permutation() {
    let keys = generate_keys_table(1000);
    let mix = lookup_mix(keys.clone(), None, 1000);
    assert_eq!(mix.len(), 1000);
    assert_ne!(mix, keys);
    let mut sorted = mix.clone();
    sorted.sort();
    let mut expect = keys.clone();
    expect.sort();
    assert_eq!(sorted, expect);
}

#[test]
fn lookup_mix_some_real() {
    let keys = generate_keys_table(1000);
    let mix = lookup_mix(keys.clone(), Some(300), 1000);
    assert_eq!(mix.len(), 1000);
    let real: HashSet<u128> = keys.iter().copied().collect();
    let fake: HashSet<u128> = (1000..1700u64).map(generate_key).collect();
    let hits = mix.iter().filter(|k| real.contains(k)).count();
    let misses = mix.iter().filter(|k| fake.contains(k)).count();
    assert_eq!(hits, 300);
    assert_eq!(misses, 700);
    let distinct: HashSet<u128> = mix.iter().copied().collect();
    assert_eq!(distinct.len(), 1000);
}

#[test]
fn generate_table_loads_all_keys() {
    let mut table = HashTable::new();
    let keys = generate_table(&mut table, Some(400_000));
    assert_eq!(keys.len(), MAX_KEYS);
    assert_eq!(hashmap::size(&table), MAX_KEYS);
    let mut out = [0u8; 32];
    let mut len = 0u8;
    let mut found = 0usize;
    for k in &keys {
        if hashmap::get(&table, &key_bytes(*k), &mut out, &mut len) == 0 {
            assert_eq!(out, vegosh::get_bench::VALUE);
            assert_eq!(len, 32);
            found += 1;
        }
    }
    assert_eq!(found, 400_000);
}

#[test]
fn jumbo_hist_keys_are_shuffled_table() {
    let keys = insert_jumbo_hist::generate_keys_table(500);
    let mut sorted = keys.clone();
    sorted.sort();
    let mut expect = generate_keys_table(500);
    assert_ne!(keys, expect);
    expect.sort();
    assert_eq!(sorted, expect);
}

#[test]
fn workload_operation_bytes() {
    assert_eq!(operation(true), b'I');
    assert_eq!(operation(false), b'D');
    assert_eq!(operation(true), INSERT_OP);
    assert_eq!(operation(false), DELETE_OP);
}
