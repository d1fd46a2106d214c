//! Setting up the lookup benchmark against `hashbrown`: a map loaded with
//! `MAX_KEYS` generated keys, each with a 100-byte value, and the keys to
//! look up.

use vstd::prelude::*;
use vstd::multiset::Multiset;
use crate::byte_map::{hb_map100_contents, HbMap100};
use crate::get_bench::{bench_key, key_run, lookup_mix};
use crate::keygen::{generate_key, key_bytes};

verus! {

/// Number of keys loaded, and of keys looked up.
pub const MAX_KEYS: u64 = 1000000;

/// The value stored under every key.
pub const VALUE: [u8; 100] = [
    0x9f, 0x4a, 0x7c, 0x2e, 0xd1, 0x83, 0x56, 0xb9, 0x14, 0xea, 0x67, 0x3d, 0x80, 0xc5, 0x29, 0xf2,
    0x71, 0x0b, 0xa8, 0x4f, 0xde, 0x95, 0x32, 0x6c, 0x58, 0xe1, 0x13, 0xaf, 0x7b, 0xc4, 0x90, 0x2d,
    0x6e, 0x1a, 0xf5, 0x8c, 0x3b, 0xd2, 0x07, 0x49, 0xe3, 0x78, 0x9a, 0x51, 0xcb, 0x60, 0x24, 0xbd,
    0x8f, 0x15, 0xaa, 0x73, 0x4c, 0xe2, 0x9b, 0x3f, 0x06, 0x5c, 0xd8, 0x61, 0xb4, 0x7e, 0x23, 0x92,
    0x57, 0x0d, 0x81, 0xc9, 0xbe, 0x43, 0xa6, 0x1f, 0x72, 0xdb, 0x54, 0x8e, 0x3c, 0x97, 0x6b, 0x02,
    0xf0, 0x48, 0x1d, 0xa5, 0x79, 0xce, 0x33, 0x8b, 0x52, 0x96, 0x41, 0xb7, 0x0e, 0xd4, 0x68, 0xfa,
    0x35, 0x91, 0xbc, 0x27,
];

/// `m` with benchmark keys `0 .. n` added, each mapping to `VALUE`.
pub open spec fn loaded_into(m: Map<Seq<u8>, Seq<u8>>, n: int) -> Map<Seq<u8>, Seq<u8>> {
    Map::new(
        |k: Seq<u8>| m.contains_key(k) || exists|t: int| 0 <= t < n && k == bench_key(t),
        |k: Seq<u8>|
            if exists|t: int| 0 <= t < n && k == bench_key(t) {
                VALUE@
            } else {
                m[k]
            },
    )
}

/// Loads `table` with benchmark keys `0 .. MAX_KEYS` and returns the keys to
/// look up, as `lookup_mix` chooses them.
pub fn generate_table(table: &mut HbMap100, real_count: Option<usize>) -> (r: Vec<u128>)
    requires
        real_count matches Some(c) ==> c <= MAX_KEYS,
    ensures
        hb_map100_contents(*final(table)) == loaded_into(
            hb_map100_contents(*old(table)),
            MAX_KEYS as int,
        ),
        r@.len() == MAX_KEYS,
        match real_count {
            None => r@.to_multiset() == key_run(0, MAX_KEYS as int).to_multiset(),
            Some(c) => exists|drawn: Multiset<u128>|
                {
                    &&& drawn.subset_of(key_run(0, MAX_KEYS as int).to_multiset())
                    &&& drawn.len() == c
                    &&& r@.to_multiset() == drawn.add(
                        key_run(MAX_KEYS as int, MAX_KEYS - c).to_multiset(),
                    )
                },
        },
{
    let ghost m0 = hb_map100_contents(*table);
    let mut real_keys: Vec<u128> = Vec::with_capacity(MAX_KEYS as usize);
    let mut i: u64 = 0;
    proof {
        assert(m0 =~= loaded_into(m0, 0));
    }
    while i < MAX_KEYS
        invariant
            i <= MAX_KEYS,
            m0 == hb_map100_contents(*old(table)),
            hb_map100_contents(*table) == loaded_into(m0, i as int),
            real_keys@ == key_run(0, i as int),
        decreases MAX_KEYS - i,
    {
        let key = generate_key(i);
        let key_b = key_bytes(key);
        table.insert(key_b, VALUE);
        real_keys.push(key);
        proof {
            let now = hb_map100_contents(*table);
            assert(key_b@ == bench_key(i as int));
            assert(now =~= loaded_into(m0, i + 1)) by {
                assert forall|k: Seq<u8>| #[trigger] loaded_into(m0, i + 1).contains_key(k) implies now.contains_key(k) by {
                    if exists|t: int| 0 <= t < i + 1 && k == bench_key(t) {
                        let t = choose|t: int| 0 <= t < i + 1 && k == bench_key(t);
                        if t < i {
                            assert(loaded_into(m0, i as int).contains_key(k));
                        }
                    } else {
                        assert(loaded_into(m0, i as int).contains_key(k));
                    }
                }
                assert forall|k: Seq<u8>| #[trigger] now.contains_key(k) implies loaded_into(m0, i + 1).contains_key(k) && now[k] == loaded_into(m0, i + 1)[k] by {
                    if k != key_b@ {
                        assert(loaded_into(m0, i as int).contains_key(k));
                        if exists|t: int| 0 <= t < i && k == bench_key(t) {
                            let t = choose|t: int| 0 <= t < i && k == bench_key(t);
                            assert(0 <= t < i + 1 && k == bench_key(t));
                        } else {
                            assert forall|t: int| 0 <= t < i + 1 implies k != bench_key(t) by {
                                if t == i {
                                }
                            }
                        }
                    } else {
                        assert(0 <= i < i + 1 && k == bench_key(i as int));
                    }
                }
            }
            assert(real_keys@ =~= key_run(0, i + 1));
        }
        i = i + 1;
    }
    lookup_mix(real_keys, real_count, MAX_KEYS as usize)
}

} // verus!
