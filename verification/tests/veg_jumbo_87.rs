use vegosh::keygen::{generate_key, key_bytes};
use vegosh::veg_jumbo::veg_jumbo_87::{
    clear, delete, get, get_probed, init, insert, insert_probed, size, InsertOutcome, NotFound, Vegosh,
    MAX_KEYS, VALUE_SIZE,
};

fn value_of(tag: u8) -> [u8; 100] {
    let mut v = [0u8; 100];
    for (i, b) in v.iter_mut().enumerate() {
        *b = tag.wrapping_add(i as u8);
    }
    v
}

fn key_of(i: u64) -> [u8; 16] {
    key_bytes(generate_key(i))
}

#[test]
fn new_table_is_empty() {
    let table = Vegosh::new();
    assert_eq!(size(&table), 0);
    assert_eq!(get(&table, &key_of(0)), None);
}

#[test]
fn insert_then_get_returns_value() {
    let mut table = Vegosh::new();
    let k = key_of(7);
    let v = value_of(3);
    assert_eq!(insert(&mut table, &k, &v, 100), Ok(InsertOutcome::Inserted));
    assert_eq!(get(&table, &k), Some((v, 100)));
    assert_eq!(size(&table), 1);
}

#[test]
fn second_insert_updates_value() {
    let mut table = Vegosh::new();
    let k = key_of(1);
    assert_eq!(insert(&mut table, &k, &value_of(1), 10), Ok(InsertOutcome::Inserted));
    assert_eq!(insert(&mut table, &k, &value_of(2), 20), Ok(InsertOutcome::Updated));
    assert_eq!(get(&table, &k), Some((value_of(2), 20)));
    assert_eq!(size(&table), 1);
}

#[test]
fn insert_other_key_leaves_first() {
    let mut table = Vegosh::new();
    insert(&mut table, &key_of(1), &value_of(1), 1).unwrap();
    insert(&mut table, &key_of(2), &value_of(2), 2).unwrap();
    assert_eq!(get(&table, &key_of(1)), Some((value_of(1), 1)));
    assert_eq!(get(&table, &key_of(2)), Some((value_of(2), 2)));
    assert_eq!(size(&table), 2);
}

#[test]
fn delete_removes_key_and_second_delete_fails() {
    let mut table = Vegosh::new();
    let k = key_of(5);
    insert(&mut table, &k, &value_of(5), 5).unwrap();
    assert_eq!(delete(&mut table, &k), Ok(()));
    assert_eq!(get(&table, &k), None);
    assert_eq!(size(&table), 0);
    assert_eq!(delete(&mut table, &k), Err(NotFound));
}

#[test]
fn delete_absent_key_is_not_found() {
    let mut table = Vegosh::new();
    insert(&mut table, &key_of(1), &value_of(1), 1).unwrap();
    assert_eq!(delete(&mut table, &key_of(2)), Err(NotFound));
    assert_eq!(size(&table), 1);
}

#[test]
fn delete_undoes_insert_among_many() {
    let mut table = Vegosh::new();
    for i in 0..1000u64 {
        insert(&mut table, &key_of(i), &value_of(i as u8), (i % 101) as u8).unwrap();
    }
    let extra = key_of(5000);
    insert(&mut table, &extra, &value_of(9), 9).unwrap();
    delete(&mut table, &extra).unwrap();
    assert_eq!(size(&table), 1000);
    for i in 0..1000u64 {
        assert_eq!(get(&table, &key_of(i)), Some((value_of(i as u8), (i % 101) as u8)));
    }
}

#[test]
fn clear_and_init_empty_the_table() {
    let mut table = Vegosh::new();
    for i in 0..100u64 {
        insert(&mut table, &key_of(i), &value_of(0), 0).unwrap();
    }
    clear(&mut table);
    assert_eq!(size(&table), 0);
    assert_eq!(get(&table, &key_of(3)), None);
    insert(&mut table, &key_of(3), &value_of(1), 1).unwrap();
    init(&mut table);
    assert_eq!(size(&table), 0);
    assert_eq!(get(&table, &key_of(3)), None);
    assert_eq!(insert(&mut table, &key_of(3), &value_of(1), 1), Ok(InsertOutcome::Inserted));
}

#[test]
fn heavy_load_insert_delete_lookup() {
    // 60% of the slots: long runs, Robin Hood exchanges and backward shifts.
    let mut table = Vegosh::new();
    let n = 1_250_000u64;
    let v = value_of(0x5a);
    for i in 0..n {
        assert_eq!(insert(&mut table, &key_of(i), &v, VALUE_SIZE as u8), Ok(InsertOutcome::Inserted));
    }
    assert_eq!(size(&table), n as usize);
    for i in (0..n).step_by(2) {
        assert_eq!(delete(&mut table, &key_of(i)), Ok(()));
    }
    assert_eq!(size(&table), (n / 2) as usize);
    for i in 0..n {
        let expect = if i % 2 == 0 { None } else { Some((v, VALUE_SIZE as u8)) };
        assert_eq!(get(&table, &key_of(i)), expect);
    }
}

#[test]
fn full_table_refuses_and_stays_unchanged() {
    let mut table = Vegosh::new();
    let v = value_of(1);
    for i in 0..MAX_KEYS as u64 {
        assert_eq!(insert(&mut table, &key_of(i), &v, 1), Ok(InsertOutcome::Inserted));
    }
    assert_eq!(size(&table), MAX_KEYS);
    // A new key is refused; a present key is still updated.
    assert_eq!(insert(&mut table, &key_of(MAX_KEYS as u64), &v, 1), Err(vegosh::veg_jumbo::veg_jumbo_87::TableFull));
    assert_eq!(insert(&mut table, &key_of(0), &value_of(2), 2), Ok(InsertOutcome::Updated));
    assert_eq!(get(&table, &key_of(0)), Some((value_of(2), 2)));
    assert_eq!(get(&table, &key_of(MAX_KEYS as u64)), None);
    assert_eq!(size(&table), MAX_KEYS);
    // After one deletion there is room again.
    delete(&mut table, &key_of(0)).unwrap();
    assert_eq!(insert(&mut table, &key_of(MAX_KEYS as u64), &v, 1), Ok(InsertOutcome::Inserted));
}

#[test]
fn probed_calls_match_plain_calls() {
    let mut table = Vegosh::new();
    let v = value_of(9);
    assert_eq!(insert_probed(&mut table, &key_of(5), &v, 7).0, Ok(InsertOutcome::Inserted));
    assert_eq!(insert_probed(&mut table, &key_of(5), &value_of(4), 8).0, Ok(InsertOutcome::Updated));
    assert_eq!(get_probed(&table, &key_of(5)).0, Some((value_of(4), 8)));
    assert_eq!(get_probed(&table, &key_of(6)).0, None);
    assert_eq!(size(&table), 1);
}

#[test]
fn clear_twice_and_init_agree() {
    let mut a = Vegosh::new();
    let mut b = Vegosh::new();
    for i in 0..50u64 {
        insert(&mut a, &key_of(i), &value_of(i as u8), 3).unwrap();
        insert(&mut b, &key_of(i + 100), &value_of(1), 1).unwrap();
    }
    clear(&mut a);
    clear(&mut a);
    init(&mut b);
    assert_eq!(size(&a), 0);
    assert_eq!(size(&b), 0);
    for i in 0..150u64 {
        assert_eq!(get(&a, &key_of(i)), get(&b, &key_of(i)));
        assert_eq!(get(&a, &key_of(i)), None);
    }
    assert_eq!(insert(&mut a, &key_of(1), &value_of(1), 1), Ok(InsertOutcome::Inserted));
}
