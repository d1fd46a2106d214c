//! Setting up the lookup benchmark: a table loaded with `MAX_KEYS` generated
//! keys, and a shuffled list of keys to look up, a chosen number of them
//! present in the table and the rest not.

use vstd::prelude::*;
use vstd::multiset::Multiset;
use crate::hashmap::{self, HashTable, MAX_KEYS};
use crate::keygen::{generate_key, generate_keys_range, key_bytes, le_bytes, spec_generate_key};
use crate::sampling::{sample, shuffle, thread_rng};

verus! {

/// The value stored under every benchmark key.
pub const VALUE: [u8; 32] = [
    0x9f, 0x4a, 0x7c, 0x2e, 0xd1, 0x83, 0x56, 0xb9, 0x14, 0xea, 0x67, 0x3d, 0x80, 0xc5, 0x29, 0xf2,
    0x71, 0x0b, 0xa8, 0x4f, 0xde, 0x95, 0x32, 0x6c, 0x58, 0xe1, 0x13, 0xaf, 0x7b, 0xc4, 0x90, 0x2d,
];

/// The bytes of benchmark key number `i`.
pub open spec fn bench_key(i: int) -> Seq<u8> {
    le_bytes(spec_generate_key(i as u64) as int, 16)
}

/// The table holding benchmark keys `0 .. n`, each with `VALUE`.
pub open spec fn loaded(n: int) -> hashmap::Model {
    Map::new(
        |k: Seq<u8>| exists|t: int| 0 <= t < n && k == bench_key(t),
        |k: Seq<u8>| (VALUE@, 32u8),
    )
}

/// Key numbers `start .. start + count`.
pub open spec fn key_run(start: int, count: int) -> Seq<u128> {
    Seq::new(count as nat, |i: int| spec_generate_key((start + i) as u64))
}

/// Empties `table` and loads it with benchmark keys `0 .. MAX_KEYS`. Returns
/// the keys to look up, shuffled: with `real_count` absent, every loaded key;
/// otherwise `real_count` loaded keys drawn at random and the keys numbered
/// from `MAX_KEYS` on for the rest, `MAX_KEYS` in all.
pub fn generate_table(table: &mut HashTable, real_count: Option<usize>) -> (r: Vec<u128>)
    requires
        old(table).wf(),
        real_count matches Some(c) ==> c <= MAX_KEYS,
    ensures
        final(table).wf(),
        final(table)@ == loaded(MAX_KEYS as int),
        final(table)@.len() == MAX_KEYS,
        r@.len() == MAX_KEYS,
        match real_count {
            None => r@.to_multiset() == key_run(0, MAX_KEYS as int).to_multiset(),
            Some(c) => exists|drawn: Multiset<u128>|
                {
                    &&& drawn.subset_of(key_run(0, MAX_KEYS as int).to_multiset())
                    &&& drawn.len() == c
                    &&& r@.to_multiset() == drawn.add(
                        key_run(MAX_KEYS as int, MAX_KEYS - c).to_multiset(),
                    )
                },
        },
{
    proof {
        hashmap::law_layout(table);
    }
    hashmap::init(table);
    let mut real_keys: Vec<u128> = Vec::with_capacity(MAX_KEYS);
    let mut i: u64 = 0;
    proof {
        assert(table@ =~= loaded(0));
    }
    while i < MAX_KEYS as u64
        invariant
            table.wf(),
            i <= MAX_KEYS,
            table@ == loaded(i as int),
            table@.len() == i,
            real_keys@ == key_run(0, i as int),
        decreases MAX_KEYS - i,
    {
        let key = generate_key(i);
        let key_b = key_bytes(key);
        let ghost before = *table;
        proof {
            hashmap::lemma_model(table);
            assert(key_b@ == bench_key(i as int));
            if loaded(i as int).contains_key(key_b@) {
                let t = choose|t: int| 0 <= t < i && key_b@ == bench_key(t);
                crate::keygen::law_keys_distinct(t as u64, i);
            }
            hashmap::law_size_accounting(before, key_b@, VALUE@, 32);
        }
        hashmap::insert(table, &key_b, &VALUE, 32);
        real_keys.push(key);
        proof {
            assert(VALUE@.take(32) + hashmap::zero_bytes().skip(32) =~= VALUE@);
            if loaded(i as int).contains_key(key_b@) {
                assert(VALUE@.take(32) + loaded(i as int)[key_b@].0.skip(32) =~= VALUE@);
            }
            assert(table@ =~= loaded(i + 1)) by {
                assert forall|k: Seq<u8>| #[trigger] loaded(i + 1).contains_key(k) implies table@.contains_key(k) by {
                    let t = choose|t: int| 0 <= t < i + 1 && k == bench_key(t);
                    if t < i {
                        assert(loaded(i as int).contains_key(k));
                    }
                }
                assert forall|k: Seq<u8>| #[trigger] table@.contains_key(k) implies loaded(i + 1).contains_key(k) by {
                    if k != key_b@ {
                        assert(loaded(i as int).contains_key(k));
                        let t = choose|t: int| 0 <= t < i && k == bench_key(t);
                        assert(0 <= t < i + 1 && k == bench_key(t));
                    } else {
                        assert(k == bench_key(i as int));
                    }
                }
            }
            assert(real_keys@ =~= key_run(0, i + 1));
        }
        i = i + 1;
    }
    assert(i == MAX_KEYS);
    assert(real_keys@ == key_run(0, MAX_KEYS as int));
    lookup_mix(real_keys, real_count, MAX_KEYS)
}

/// The keys to look up, shuffled: with `real_count` absent, all of
/// `real_keys`; otherwise `real_count` of them drawn at random and the keys
/// numbered from `total` on for the rest, `total` in all.
pub fn lookup_mix(real_keys: Vec<u128>, real_count: Option<usize>, total: usize) -> (r: Vec<u128>)
    requires
        real_keys@ == key_run(0, total as int),
        total <= u64::MAX / 2,
        real_count matches Some(c) ==> c <= total,
    ensures
        r@.len() == total,
        match real_count {
            None => r@.to_multiset() == key_run(0, total as int).to_multiset(),
            Some(c) => exists|drawn: Multiset<u128>|
                {
                    &&& drawn.subset_of(key_run(0, total as int).to_multiset())
                    &&& drawn.len() == c
                    &&& r@.to_multiset() == drawn.add(
                        key_run(total as int, total - c).to_multiset(),
                    )
                },
        },
{
    let mut real_keys = real_keys;
    let mut rng = thread_rng();
    match real_count {
        None => {
            shuffle(&mut rng, &mut real_keys);
            real_keys
        },
        Some(real_count) => {
            let fake_count = total - real_count;
            let mut merged: Vec<u128> = Vec::with_capacity(total);
            let mut drawn = sample(&mut rng, &real_keys, real_count);
            let ghost drawn_before = drawn@;
            let mut fakes = generate_keys_range(total as u64, fake_count as u64);
            merged.append(&mut drawn);
            merged.append(&mut fakes);
            let ghost before = merged@;
            shuffle(&mut rng, &mut merged);
            proof {
                let d = before.subrange(0, real_count as int);
                let f = before.subrange(real_count as int, total as int);
                assert(before =~= d + f);
                vstd::seq_lib::lemma_multiset_commutative(d, f);
                assert(f =~= key_run(total as int, total - real_count));
                vstd::seq_lib::to_multiset_len(d);
                let dm = d.to_multiset();
                assert(d == drawn_before);
                assert(merged@.to_multiset() == dm.add(
                    key_run(total as int, total - real_count).to_multiset(),
                ));
            }
            merged
        },
    }
}

} // verus!
