//! Setting up the `hashbrown` lookup benchmark with xorshift keys: the map
//! loaded with random keys, and a shuffled mix of keys that are present
//! (picked from the loaded ones) and keys that are not.

use vstd::prelude::*;
use crate::byte_map::{hb_map32_contents, HbMap32};
use crate::xorshift::{nth_key, nth_output, output, seed_state, state_after, step, Xorshift128};

verus! {

/// Number of keys loaded, and of keys looked up.
pub const N: usize = 1000000;

/// Seed of the generator for the loaded keys.
pub const KEY_SEED: u64 = 0x1234567890abcdef;

/// Seed of the generator that picks the present keys and shuffles.
pub const HIT_SEED: u64 = 0xdeadbeef12345678;

/// Seed of the generator for the absent keys.
pub const MISS_SEED: u64 = 0xfeedface87654321;

/// Key `t` of `keys` has bytes `k`.
pub open spec fn key_is(keys: Seq<[u8; 16]>, t: int, k: Seq<u8>) -> bool {
    0 <= t < keys.len() && keys[t]@ == k
}

/// The map holding each of `keys` with `value`.
pub open spec fn holding(keys: Seq<[u8; 16]>, value: Seq<u8>) -> Map<Seq<u8>, Seq<u8>> {
    Map::new(|k: Seq<u8>| exists|t: int| key_is(keys, t, k), |k: Seq<u8>| value)
}

/// A map of capacity `N` holding each of `keys` with `value`.
pub fn populate(keys: &Vec<[u8; 16]>, value: [u8; 32]) -> (r: HbMap32)
    ensures
        hb_map32_contents(r) == holding(keys@, value@),
{
    let mut map = HbMap32::with_capacity(N);
    let mut i: usize = 0;
    proof {
        assert(hb_map32_contents(map) =~= holding(keys@.take(0), value@));
    }
    while i < keys.len()
        invariant
            i <= keys@.len(),
            hb_map32_contents(map) == holding(keys@.take(i as int), value@),
        decreases keys@.len() - i,
    {
        map.insert(keys[i], value);
        proof {
            let ko = keys@.take(i as int);
            let kn = keys@.take(i + 1);
            let before = holding(ko, value@);
            let after = holding(kn, value@);
            assert forall|k: Seq<u8>| #[trigger] after.contains_key(k) <==> before.insert(
                keys@[i as int]@,
                value@,
            ).contains_key(k) by {
                if after.contains_key(k) {
                    let t = choose|t: int| key_is(kn, t, k);
                    if t < i {
                        assert(ko[t] == kn[t]);
                        assert(key_is(ko, t, k));
                    }
                }
                if before.contains_key(k) {
                    let t = choose|t: int| key_is(ko, t, k);
                    assert(ko[t] == kn[t]);
                    assert(key_is(kn, t, k));
                }
                if k == keys@[i as int]@ {
                    assert(kn[i as int] == keys@[i as int]);
                    assert(key_is(kn, i as int, k));
                }
            }
            let ins = before.insert(keys@[i as int]@, value@);
            assert forall|k: Seq<u8>| #[trigger] ins.contains_key(k) implies ins[k] == after[k] by {
                assert(after.contains_key(k));
                if k != keys@[i as int]@ {
                    assert(before.contains_key(k));
                }
            }
            assert(ins =~= after);
        }
        i = i + 1;
    }
    proof {
        assert(keys@.take(keys@.len() as int) =~= keys@);
    }
    map
}

/// Position of present key `t` among the loaded keys.
pub open spec fn hit_index(t: nat) -> int {
    (nth_output(seed_state(HIT_SEED), t) as usize) as int % N as int
}

/// The lookup keys before shuffling: `hit_count` loaded keys picked by the
/// hit generator, then the first `N - hit_count` keys of the miss generator.
pub open spec fn unshuffled(pre: Seq<[u8; 16]>, inserted: Seq<[u8; 16]>, hit_count: int) -> bool {
    &&& pre.len() == N
    &&& forall|t: int| 0 <= t < hit_count ==> #[trigger] pre[t] == inserted[hit_index(t as nat)]
    &&& forall|t: int|
        0 <= t < N - hit_count ==> (#[trigger] pre[hit_count + t])@ == nth_key(
            seed_state(MISS_SEED),
            t as nat,
        )
}

/// The bytes of each key.
pub open spec fn views(s: Seq<[u8; 16]>) -> Seq<Seq<u8>> {
    s.map_values(|k: [u8; 16]| k@)
}

/// The lookup keys, as bytes, before shuffling.
pub open spec fn unshuffled_views(inserted: Seq<[u8; 16]>, hit_count: int) -> Seq<Seq<u8>> {
    Seq::new(
        N as nat,
        |t: int|
            if t < hit_count {
                inserted[hit_index(t as nat)]@
            } else {
                nth_key(seed_state(MISS_SEED), (t - hit_count) as nat)
            },
    )
}

/// Fisher-Yates from position `i` down to 1: exchange position `i` with the
/// position given by the next generator output modulo `i + 1`.
pub open spec fn fisher_yates(s: Seq<Seq<u8>>, st: (u64, u64), i: nat) -> Seq<Seq<u8>>
    decreases i,
{
    if i == 0 {
        s
    } else {
        let j = (output(st) as usize) as int % (i + 1) as int;
        fisher_yates(s.update(i as int, s[j]).update(j, s[i as int]), step(st), (i - 1) as nat)
    }
}

proof fn lemma_swap_multiset<A>(s: Seq<A>, i: int, j: int)
    requires
        0 <= i < s.len(),
        0 <= j < s.len(),
    ensures
        s.update(i, s[j]).update(j, s[i]).to_multiset() == s.to_multiset(),
{
    broadcast use vstd::multiset::group_multiset_axioms;

    let s1 = s.update(i, s[j]);
    vstd::seq_lib::to_multiset_update(s, i, s[j]);
    vstd::seq_lib::to_multiset_update(s1, j, s[i]);
    if i == j {
        assert(s1 =~= s);
        assert(s1.update(j, s[i]) =~= s);
    } else {
        assert(s1[j] == s[j]);
        assert(s.contains(s[i]));
        assert(s.contains(s[j]));
        vstd::seq_lib::to_multiset_contains(s, s[i]);
        vstd::seq_lib::to_multiset_contains(s, s[j]);
        assert(s1.update(j, s[i]).to_multiset() =~= s.to_multiset());
    }
}

/// One Fisher-Yates step: position `i` is exchanged with position
/// `output(st) mod (i + 1)`, then the shuffle goes on from `i - 1` with the
/// next generator state.
pub proof fn law_fisher_yates_step(s: Seq<Seq<u8>>, st: (u64, u64), i: nat)
    requires
        0 < i < s.len(),
    ensures
        ({
            let j = (output(st) as usize) as int % (i + 1) as int;
            &&& 0 <= j <= i
            &&& fisher_yates(s, st, i) == fisher_yates(
                s.update(i as int, s[j]).update(j, s[i as int]),
                step(st),
                (i - 1) as nat,
            )
        }),
{
}

/// The shuffle from position `i` down keeps the length and every position
/// after `i`, and rearranges the rest: the result holds the same keys the
/// same number of times.
pub proof fn law_fisher_yates_permutes(s: Seq<Seq<u8>>, st: (u64, u64), i: nat)
    requires
        i < s.len(),
    ensures
        fisher_yates(s, st, i).len() == s.len(),
        forall|t: int| i < t < s.len() ==> #[trigger] fisher_yates(s, st, i)[t] == s[t],
        fisher_yates(s, st, i).to_multiset() == s.to_multiset(),
    decreases i,
{
    if i > 0 {
        let j = (output(st) as usize) as int % (i + 1) as int;
        let u = s.update(i as int, s[j]).update(j, s[i as int]);
        lemma_swap_multiset(s, i as int, j);
        law_fisher_yates_permutes(u, step(st), (i - 1) as nat);
    }
}

/// After the shuffle from position `i` down, position `i` holds the key that
/// the first draw picked: the one at `output(st) mod (i + 1)`.
pub proof fn law_fisher_yates_last(s: Seq<Seq<u8>>, st: (u64, u64), i: nat)
    requires
        0 < i < s.len(),
    ensures
        fisher_yates(s, st, i)[i as int] == s[(output(st) as usize) as int % (i + 1) as int],
{
    let j = (output(st) as usize) as int % (i + 1) as int;
    let u = s.update(i as int, s[j]).update(j, s[i as int]);
    law_fisher_yates_permutes(u, step(st), (i - 1) as nat);
    assert(u[i as int] == s[j]);
}

/// The `N` keys to look up: `hit_count` picked from `inserted` by the hit
/// generator, `N - hit_count` fresh ones from the miss generator, then
/// shuffled (Fisher-Yates, driven by the hit generator).
pub fn build_lookup_keys(inserted: &Vec<[u8; 16]>, hit_count: usize) -> (r: Vec<[u8; 16]>)
    requires
        inserted@.len() == N,
        hit_count <= N,
    ensures
        r@.len() == N,
        views(r@) == fisher_yates(
            unshuffled_views(inserted@, hit_count as int),
            state_after(seed_state(HIT_SEED), hit_count as nat),
            (N - 1) as nat,
        ),
        exists|pre: Seq<[u8; 16]>|
            unshuffled(pre, inserted@, hit_count as int) && #[trigger] pre.to_multiset()
                == r@.to_multiset(),
{
    let mut lookup_keys: Vec<[u8; 16]> = Vec::with_capacity(N);
    let mut rng2 = Xorshift128::new(HIT_SEED);
    let mut t: usize = 0;
    while t < hit_count
        invariant
            t <= hit_count <= N,
            inserted@.len() == N,
            lookup_keys@.len() == t,
            rng2.state() == state_after(seed_state(HIT_SEED), t as nat),
            forall|u: int| 0 <= u < t ==> #[trigger] lookup_keys@[u] == inserted@[hit_index(u as nat)],
        decreases hit_count - t,
    {
        let idx = (rng2.next_u64() as usize) % N;
        lookup_keys.push(inserted[idx]);
        t = t + 1;
    }
    let miss_count = N - hit_count;
    let mut rng3 = Xorshift128::new(MISS_SEED);
    let mut m: usize = 0;
    while m < miss_count
        invariant
            m <= miss_count,
            miss_count == N - hit_count,
            hit_count <= N,
            inserted@.len() == N,
            lookup_keys@.len() == hit_count + m,
            rng3.state() == state_after(seed_state(MISS_SEED), 2 * m as nat),
            forall|u: int| 0 <= u < hit_count ==> #[trigger] lookup_keys@[u] == inserted@[hit_index(u as nat)],
            forall|u: int|
                0 <= u < m ==> (#[trigger] lookup_keys@[hit_count + u])@ == nth_key(
                    seed_state(MISS_SEED),
                    u as nat,
                ),
        decreases miss_count - m,
    {
        proof {
            let st = seed_state(MISS_SEED);
            assert(state_after(st, 2 * m as nat + 1) == crate::xorshift::step(state_after(st, 2 * m as nat)));
            assert(state_after(st, 2 * m as nat + 2) == crate::xorshift::step(
                state_after(st, 2 * m as nat + 1),
            ));
        }
        let k = rng3.next_key();
        lookup_keys.push(k);
        m = m + 1;
    }
    let ghost pre = lookup_keys@;
    let ghost target = fisher_yates(
        unshuffled_views(inserted@, hit_count as int),
        state_after(seed_state(HIT_SEED), hit_count as nat),
        (N - 1) as nat,
    );
    proof {
        assert(views(pre) =~= unshuffled_views(inserted@, hit_count as int)) by {
            assert forall|t: int| hit_count <= t < N implies views(pre)[t] == nth_key(
                seed_state(MISS_SEED),
                (t - hit_count) as nat,
            ) by {
                assert(pre[hit_count + (t - hit_count)] == pre[t]);
            }
        }
    }
    let mut i: usize = N - 1;
    while i >= 1
        invariant
            i < N,
            lookup_keys@.len() == N,
            lookup_keys@.to_multiset() == pre.to_multiset(),
            fisher_yates(views(lookup_keys@), rng2.state(), i as nat) == target,
        decreases i,
    {
        let ghost st = rng2.state();
        let ghost s = lookup_keys@;
        let j = (rng2.next_u64() as usize) % (i + 1);
        proof {
            lemma_swap_multiset(lookup_keys@, i as int, j as int);
        }
        let a = lookup_keys[i];
        let b = lookup_keys[j];
        lookup_keys[i] = b;
        lookup_keys[j] = a;
        proof {
            let vs = views(s);
            assert(views(lookup_keys@) =~= vs.update(i as int, vs[j as int]).update(j as int, vs[i as int]));
            assert(fisher_yates(vs, st, i as nat) == fisher_yates(
                vs.update(i as int, vs[j as int]).update(j as int, vs[i as int]),
                step(st),
                (i - 1) as nat,
            ));
        }
        i = i - 1;
    }
    assert(unshuffled(pre, inserted@, hit_count as int));
    lookup_keys
}

} // verus!
