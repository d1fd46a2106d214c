//! The Robin Hood table shared by both front ends: a ring of
//! `TABLE_SIZE` slots with linear probing, where an entry that has travelled
//! further from its home slot takes the place of a "richer" one, and deletion
//! closes the gap by shifting the following run back by one slot.
//!
//! Model: the table is the finite map from key bytes to (value, value length)
//! given by its occupied slots. The internal invariant (`wf`) says that every
//! occupied slot records the rapidhash of its key and its exact distance from
//! the key's home slot, that keys are stored at most once, that the distances
//! along a run grow by at most one from slot to slot, and that the entry count
//! is the number of occupied slots and stays below the number of slots.

use vstd::prelude::*;
use crate::hashing::{hash_key, rapidhash_v3_default};

verus! {

/// Number of slots in a table.
pub const TABLE_SIZE: usize = 2097152;

/// `TABLE_SIZE - 1`, the mask that turns a hash or an index into a slot number.
pub const MASK: u64 = 2097151;

/// Status byte of a free slot.
pub const EMPTY: u8 = 0;

/// Status byte of a slot that holds an entry.
pub const OCCUPIED: u8 = 1;

/// One slot of the ring.
#[derive(Clone, Copy)]
pub struct Slot<T> {
    pub key: [u8; 16],
    pub value: T,
    /// The key's hash, compared before the key bytes.
    pub hash: u64,
    pub value_len: u8,
    /// `EMPTY` or `OCCUPIED`.
    pub status: u8,
    /// How many slots past its home slot the entry sits: always below
    /// `TABLE_SIZE`, so kept exactly.
    pub probe_dist: u32,
}

impl<T: Copy> Slot<T> {
    /// A free slot whose value bytes are `blank`.
    pub fn empty(blank: T) -> (s: Self)
        ensures
            s == blank_slot(blank),
            is_blank(s),
    {
        let zero: [u8; 16] = [0u8; 16];
        assert(zero@ =~= Seq::new(16, |i: int| 0u8)) by {
            broadcast use vstd::array::group_array_axioms;

        }
        let s = Slot { key: zero, value: blank, hash: 0, value_len: 0, status: EMPTY, probe_dist: 0 };
        proof {
            lemma_blank_slot(s, blank);
        }
        s
    }
}

/// A free slot with zero key, hash, length byte and distance.
pub open spec fn is_blank<T>(x: Slot<T>) -> bool {
    &&& x.status == EMPTY
    &&& x.probe_dist == 0
    &&& x.hash == 0
    &&& x.value_len == 0
    &&& x.key@ == Seq::new(16, |i: int| 0u8)
}

/// How many steps slot `j` lies after slot `h` on the ring.
pub open spec fn offset(h: int, j: int) -> int {
    (j - h) % n_slots()
}

/// Slot `m` steps after `h` is the first free one from `h` on.
pub open spec fn first_free<T>(s: Seq<Slot<T>>, h: int, m: int) -> bool {
    &&& 0 <= m < n_slots()
    &&& !occ(s[ring(h, m)])
    &&& forall|t: int| 0 <= t < m ==> occ(#[trigger] s[ring(h, t)])
}

/// No entry is more than `b` slots from home.
pub open spec fn dists_at_most<T>(s: Seq<Slot<T>>, b: int) -> bool {
    forall|i: int| 0 <= i < s.len() && occ(#[trigger] s[i]) ==> s[i].probe_dist <= b
}

/// An entry moved back one slot, one step nearer its home.
pub open spec fn shifted<T>(x: Slot<T>) -> Slot<T> {
    Slot { probe_dist: (x.probe_dist - 1) as u32, ..x }
}

/// `s1` is `s0` with only the value and length byte of slot `j` replaced.
pub open spec fn value_written<T>(s0: Seq<Slot<T>>, s1: Seq<Slot<T>>, j: int, v: T, l: u8) -> bool {
    s1 == s0.update(j, Slot { value: v, value_len: l, ..s0[j] })
}

/// `s1` agrees with `s0` on every slot more than `m` steps after `h`.
pub open spec fn unchanged_past<T>(s0: Seq<Slot<T>>, s1: Seq<Slot<T>>, h: int, m: int) -> bool {
    forall|j: int| 0 <= j < n_slots() && offset(h, j) > m ==> #[trigger] s1[j] == s0[j]
}

/// The blank slot with value bytes `b`: free, with zero key, hash, length
/// byte and distance.
pub open spec fn blank_slot<T>(b: T) -> Slot<T> {
    Slot { key: [0u8; 16usize], value: b, hash: 0, value_len: 0, status: EMPTY, probe_dist: 0 }
}

/// A ring of `TABLE_SIZE` blank slots with value bytes `b`.
pub open spec fn blank_ring<T>(b: T) -> Seq<Slot<T>> {
    Seq::new(TABLE_SIZE as nat, |j: int| blank_slot(b))
}

/// A slot is blank with value bytes `b` exactly when it is `blank_slot(b)`.
proof fn lemma_blank_slot<T>(x: Slot<T>, b: T)
    ensures
        is_blank(x) && x.value == b <==> x == blank_slot(b),
{
    broadcast use vstd::array::group_array_axioms;

    let z: [u8; 16] = [0u8; 16usize];
    assert(z@ =~= Seq::new(16, |i: int| 0u8));
    if is_blank(x) && x.value == b {
        assert(x.key =~= z);
    }
}

/// The slot invariant of a ring whose free slots carry the value bytes `b`:
/// occupied slots record their key's hash and exact distance from home, the
/// Robin Hood ordering holds along every run, no key is stored twice, and
/// every free slot is blank.
pub open spec fn ring_ok<T>(s: Seq<Slot<T>>, b: T) -> bool {
    wf_slots(s) && free_blank(s, b)
}

/// Every free slot is blank and carries the value bytes `b`.
pub open spec fn free_blank<T>(s: Seq<Slot<T>>, b: T) -> bool {
    forall|i: int| 0 <= i < s.len() && !occ(#[trigger] s[i]) ==> s[i] == blank_slot(b)
}

/// Backward-shift deletion at slot `i` of a run of `m` followers: the
/// followers are the next `m` slots, all away from home; the slot after them
/// is free or holds an entry at home; each follower moved back one slot one
/// step nearer home; the last slot of the run is `blank_slot(b)`; nothing
/// past it changed.
pub open spec fn backward_shift<T>(s0: Seq<Slot<T>>, s1: Seq<Slot<T>>, i: int, m: int, b: T) -> bool {
    &&& 0 <= m < n_slots() - 1
    &&& forall|t: int|
        1 <= t <= m ==> occ(#[trigger] s0[ring(i, t)]) && s0[ring(i, t)].probe_dist > 0
    &&& (!occ(s0[ring(i, m + 1)]) || s0[ring(i, m + 1)].probe_dist == 0)
    &&& forall|t: int| 0 <= t < m ==> #[trigger] s1[ring(i, t)] == shifted(s0[ring(i, t + 1)])
    &&& s1[ring(i, m)] == blank_slot(b)
    &&& unchanged_past(s0, s1, i, m)
}

/// The number of slots, as an integer.
pub open spec fn n_slots() -> int {
    TABLE_SIZE as int
}

/// Whether a slot holds an entry.
pub open spec fn occ<T>(s: Slot<T>) -> bool {
    s.status != EMPTY
}

/// The slot at which the probe sequence of a hash starts.
pub open spec fn home(h: u64) -> int {
    h as int % n_slots()
}

/// The slot `t` steps after slot `h` on the ring.
pub open spec fn ring(h: int, t: int) -> int {
    (h + t) % n_slots()
}

/// The hash of a key.
pub open spec fn key_hash(k: Seq<u8>) -> u64 {
    rapidhash_v3_default(k)
}

/// An occupied slot records the hash of its key and its distance from home.
pub open spec fn slot_ok<T>(s: Seq<Slot<T>>, i: int) -> bool {
    occ(s[i]) ==> {
        &&& s[i].hash == key_hash(s[i].key@)
        &&& s[i].probe_dist as int == (i - home(s[i].hash)) % n_slots()
    }
}

/// The Robin Hood ordering between slot `i` and the slot after it: an entry
/// that is away from home is preceded by an entry whose distance is at most
/// one less than its own.
pub open spec fn link_ok<T>(s: Seq<Slot<T>>, i: int) -> bool {
    let j = ring(i, 1);
    (occ(s[j]) && s[j].probe_dist > 0) ==> (occ(s[i]) && s[j].probe_dist <= s[i].probe_dist + 1)
}

/// No key is stored twice.
pub open spec fn distinct<T>(s: Seq<Slot<T>>) -> bool {
    forall|i: int, j: int|
        #![trigger s[i].key@, s[j].key@]
        0 <= i < s.len() && 0 <= j < s.len() && occ(s[i]) && occ(s[j]) && s[i].key@ == s[j].key@
            ==> i == j
}

/// The slot invariant of a ring.
pub open spec fn wf_slots<T>(s: Seq<Slot<T>>) -> bool {
    &&& s.len() == n_slots()
    &&& forall|i: int| 0 <= i < n_slots() ==> #[trigger] slot_ok(s, i)
    &&& forall|i: int| 0 <= i < n_slots() ==> #[trigger] link_ok(s, i)
    &&& distinct(s)
}

/// Slot `i` holds key `k`.
pub open spec fn holds<T>(s: Seq<Slot<T>>, i: int, k: Seq<u8>) -> bool {
    0 <= i < s.len() && occ(s[i]) && s[i].key@ == k
}

/// The map that a ring of slots stores.
pub open spec fn view_of<T>(s: Seq<Slot<T>>) -> Map<Seq<u8>, (T, u8)> {
    Map::new(
        |k: Seq<u8>| exists|i: int| holds(s, i, k),
        |k: Seq<u8>|
            {
                let i = choose|i: int| holds(s, i, k);
                (s[i].value, s[i].value_len)
            },
    )
}

/// Number of occupied slots.
pub open spec fn count_occ<T>(s: Seq<Slot<T>>) -> nat
    decreases s.len(),
{
    if s.len() == 0 {
        0
    } else {
        count_occ(s.drop_last()) + if occ(s.last()) {
            1nat
        } else {
            0nat
        }
    }
}

/// One for an occupied slot, zero for a free one.
pub open spec fn occ_bit<T>(s: Slot<T>) -> int {
    if occ(s) {
        1
    } else {
        0
    }
}

// ------------------------------------------------------------------------
// Counting occupied slots
// ------------------------------------------------------------------------

proof fn lemma_count_update<T>(s: Seq<Slot<T>>, i: int, x: Slot<T>)
    requires
        0 <= i < s.len(),
    ensures
        count_occ(s.update(i, x)) == count_occ(s) - occ_bit(s[i]) + occ_bit(x),
    decreases s.len(),
{
    let u = s.update(i, x);
    if i == s.len() - 1 {
        assert(u.drop_last() =~= s.drop_last());
    } else {
        assert(u.drop_last() =~= s.drop_last().update(i, x));
        lemma_count_update(s.drop_last(), i, x);
    }
}

proof fn lemma_count_full<T>(s: Seq<Slot<T>>)
    requires
        forall|i: int| 0 <= i < s.len() ==> occ(#[trigger] s[i]),
    ensures
        count_occ(s) == s.len(),
    decreases s.len(),
{
    if s.len() > 0 {
        lemma_count_full(s.drop_last());
    }
}

proof fn lemma_count_le<T>(s: Seq<Slot<T>>)
    ensures
        count_occ(s) <= s.len(),
    decreases s.len(),
{
    if s.len() > 0 {
        lemma_count_le(s.drop_last());
    }
}

/// If every slot `h, h+1, ..., h+N-1` is occupied then the whole ring is full.
proof fn lemma_ring_full<T>(s: Seq<Slot<T>>, h: int)
    requires
        s.len() == n_slots(),
        0 <= h < n_slots(),
        forall|t: int| 0 <= t < n_slots() ==> occ(#[trigger] s[ring(h, t)]),
    ensures
        count_occ(s) == n_slots(),
{
    assert forall|i: int| 0 <= i < s.len() implies occ(#[trigger] s[i]) by {
        let t = (i - h) % n_slots();
        assert(ring(h, t) == i);
        assert(occ(s[ring(h, t)]));
    }
    lemma_count_full(s);
}

// ------------------------------------------------------------------------
// Runs and probing
// ------------------------------------------------------------------------

/// Walking back from an occupied slot towards its home, every slot is
/// occupied and far enough from its own home.
proof fn lemma_prefix<T>(s: Seq<Slot<T>>, p: int, t: int)
    requires
        wf_slots(s),
        0 <= p < n_slots(),
        occ(s[p]),
        0 <= t <= s[p].probe_dist,
    ensures
        occ(s[(p - t) % n_slots()]),
        s[(p - t) % n_slots()].probe_dist >= s[p].probe_dist - t,
    decreases t,
{
    if t > 0 {
        lemma_prefix(s, p, t - 1);
        let q = (p - t) % n_slots();
        assert(ring(q, 1) == (p - (t - 1)) % n_slots());
        assert(link_ok(s, q));
    }
}

/// The slot `t` steps after the home of an occupied slot's hash, for `t` its
/// distance, is the slot itself.
proof fn lemma_home_ring<T>(s: Seq<Slot<T>>, p: int)
    requires
        wf_slots(s),
        0 <= p < n_slots(),
        occ(s[p]),
    ensures
        ring(home(s[p].hash), s[p].probe_dist as int) == p,
{
    assert(slot_ok(s, p));
}

/// What a probe for key `k` has seen in its first `d` steps from home `h`.
pub open spec fn passed<T>(s: Seq<Slot<T>>, h: int, t: int, k: Seq<u8>) -> bool {
    let q = ring(h, t);
    &&& occ(s[q])
    &&& s[q].key@ != k
    &&& s[q].probe_dist >= t
}

/// A probe that has passed `d` slots without meeting `k`, and then stops at a
/// free slot or at a slot nearer its home than `d`, proves `k` absent.
proof fn lemma_absent<T>(s: Seq<Slot<T>>, k: Seq<u8>, d: int)
    requires
        wf_slots(s),
        0 <= d < n_slots(),
        forall|t: int| 0 <= t < d ==> #[trigger] passed(s, home(key_hash(k)), t, k),
        ({
            let q = ring(home(key_hash(k)), d);
            !occ(s[q]) || (s[q].key@ != k && s[q].probe_dist < d)
        }),
    ensures
        !view_of(s).contains_key(k),
        forall|i: int| !holds(s, i, k),
{
    let h = home(key_hash(k));
    assert forall|p: int| !holds(s, p, k) by {
        if holds(s, p, k) {
            assert(slot_ok(s, p));
            let e = s[p].probe_dist as int;
            assert(ring(h, e) == p);
            if e < d {
                assert(passed(s, h, e, k));
            } else if e > d {
                lemma_prefix(s, p, e - d);
                assert((p - (e - d)) % n_slots() == ring(h, d));
            }
        }
    }
}

/// A slot's entry as the map stores it.
pub open spec fn entry<T>(x: Slot<T>) -> (T, u8) {
    (x.value, x.value_len)
}

proof fn lemma_view_at<T>(s: Seq<Slot<T>>, i: int)
    requires
        distinct(s),
        0 <= i < s.len(),
        occ(s[i]),
    ensures
        view_of(s).contains_key(s[i].key@),
        view_of(s)[s[i].key@] == entry(s[i]),
{
    let k = s[i].key@;
    assert(holds(s, i, k));
    let j = choose|j: int| holds(s, j, k);
    assert(s[i].key@ == s[j].key@);
}

/// Writing one slot changes the stored map by at most one removal and one
/// insertion.
proof fn lemma_view_update<T>(s: Seq<Slot<T>>, i: int, x: Slot<T>)
    requires
        distinct(s),
        distinct(s.update(i, x)),
        0 <= i < s.len(),
    ensures
        view_of(s.update(i, x)) == ({
            let m = if occ(s[i]) {
                view_of(s).remove(s[i].key@)
            } else {
                view_of(s)
            };
            if occ(x) {
                m.insert(x.key@, entry(x))
            } else {
                m
            }
        }),
{
    let u = s.update(i, x);
    let m0 = if occ(s[i]) {
        view_of(s).remove(s[i].key@)
    } else {
        view_of(s)
    };
    let m1 = if occ(x) {
        m0.insert(x.key@, entry(x))
    } else {
        m0
    };
    assert forall|k: Seq<u8>| #[trigger] view_of(u).contains_key(k) <==> m1.contains_key(k) by {
        if view_of(u).contains_key(k) {
            let j = choose|j: int| holds(u, j, k);
            if j != i {
                assert(holds(s, j, k));
            }
        }
        if m1.contains_key(k) {
            if occ(x) && k == x.key@ {
                assert(holds(u, i, k));
            } else {
                let j = choose|j: int| holds(s, j, k);
                assert(holds(s, j, k));
                if j == i {
                    assert(false);
                }
                assert(holds(u, j, k));
            }
        }
    }
    assert forall|k: Seq<u8>| #[trigger] view_of(u).contains_key(k) implies view_of(u)[k] == m1[k] by {
        let j = choose|j: int| holds(u, j, k);
        lemma_view_at(u, j);
        if j != i {
            assert(holds(s, j, k));
            lemma_view_at(s, j);
            if occ(s[i]) {
                assert(s[i].key@ != s[j].key@);
            }
            if occ(x) {
                assert(u[i].key@ != u[j].key@);
            }
        }
    }
    assert(view_of(u) =~= m1);
}

/// A ring with no occupied slot is a well-formed, empty table.
proof fn lemma_all_free<T>(s: Seq<Slot<T>>)
    requires
        s.len() == n_slots(),
        forall|i: int| 0 <= i < n_slots() ==> !occ(#[trigger] s[i]),
    ensures
        wf_slots(s),
        count_occ(s) == 0,
        view_of(s) == Map::<Seq<u8>, (T, u8)>::empty(),
    decreases s.len(),
{
    assert forall|i: int| 0 <= i < n_slots() implies #[trigger] link_ok(s, i) by {
        assert(!occ(s[ring(i, 1)]));
    }
    lemma_count_none(s);
    assert(view_of(s) =~= Map::<Seq<u8>, (T, u8)>::empty());
}

proof fn lemma_count_none<T>(s: Seq<Slot<T>>)
    requires
        forall|i: int| 0 <= i < s.len() ==> !occ(#[trigger] s[i]),
    ensures
        count_occ(s) == 0,
    decreases s.len(),
{
    if s.len() > 0 {
        lemma_count_none(s.drop_last());
    }
}

/// In a ring that is not full, no entry is `N - 1` slots from home.
proof fn lemma_dist_bound<T>(s: Seq<Slot<T>>, p: int)
    requires
        wf_slots(s),
        0 <= p < n_slots(),
        occ(s[p]),
        count_occ(s) < n_slots(),
    ensures
        s[p].probe_dist < n_slots() - 1,
{
    assert(slot_ok(s, p));
    if s[p].probe_dist == n_slots() - 1 {
        assert forall|i: int| 0 <= i < s.len() implies occ(#[trigger] s[i]) by {
            let t = (p - i) % n_slots();
            lemma_prefix(s, p, t);
            assert((p - t) % n_slots() == i);
        }
        lemma_count_full(s);
    }
}

/// The occupied slots of `s[lo..hi)`, all occupied, add `hi - lo` to the
/// count of the prefix.
proof fn lemma_count_run<T>(s: Seq<Slot<T>>, lo: int, hi: int)
    requires
        0 <= lo <= hi <= s.len(),
        forall|j: int| lo <= j < hi ==> occ(#[trigger] s[j]),
    ensures
        count_occ(s.take(hi)) == count_occ(s.take(lo)) + (hi - lo),
    decreases hi - lo,
{
    if hi > lo {
        lemma_count_run(s, lo, hi - 1);
        assert(s.take(hi).drop_last() =~= s.take(hi - 1));
    }
}

/// A longer prefix holds at least as many entries.
proof fn lemma_count_prefix<T>(s: Seq<Slot<T>>, a: int, b: int)
    requires
        0 <= a <= b <= s.len(),
    ensures
        count_occ(s.take(a)) <= count_occ(s.take(b)),
    decreases b - a,
{
    if b > a {
        lemma_count_prefix(s, a, b - 1);
        assert(s.take(b).drop_last() =~= s.take(b - 1));
    }
}

/// An entry is fewer slots from home than there are entries: the slots from
/// its home to it are all occupied.
proof fn lemma_dist_below_count<T>(s: Seq<Slot<T>>, p: int)
    requires
        wf_slots(s),
        0 <= p < n_slots(),
        occ(s[p]),
        count_occ(s) < n_slots(),
    ensures
        s[p].probe_dist < count_occ(s),
{
    lemma_dist_bound(s, p);
    let d = s[p].probe_dist as int;
    let n = n_slots();
    assert(s.take(n) =~= s);
    if p - d >= 0 {
        assert forall|j: int| p - d <= j < p + 1 implies occ(#[trigger] s[j]) by {
            lemma_prefix(s, p, p - j);
        }
        lemma_count_run(s, p - d, p + 1);
        lemma_count_prefix(s, p + 1, n);
    } else {
        let lo = n - (d - p);
        assert forall|j: int| 0 <= j < p + 1 implies occ(#[trigger] s[j]) by {
            lemma_prefix(s, p, p - j);
        }
        assert forall|j: int| lo <= j < n implies occ(#[trigger] s[j]) by {
            lemma_prefix(s, p, p - j + n);
            assert((p - (p - j + n)) % n == j);
        }
        lemma_count_run(s, 0, p + 1);
        lemma_count_prefix(s, p + 1, lo);
        lemma_count_run(s, lo, n);
        assert(s.take(0) =~= Seq::<Slot<T>>::empty());
    }
}

/// The slot before `i` on the ring is the one whose successor is `i`.
proof fn lemma_prev(i: int, j: int)
    requires
        0 <= i < n_slots(),
        0 <= j < n_slots(),
    ensures
        ring((i - 1) % n_slots(), 1) == i,
        ring(j, 1) == i ==> j == (i - 1) % n_slots(),
        0 <= (i - 1) % n_slots() < n_slots(),
        (i - 1) % n_slots() != i,
{
}

/// One more step along the ring.
proof fn lemma_ring_succ(h: int, t: int)
    requires
        0 <= h < n_slots(),
        0 <= t,
    ensures
        ring(ring(h, t), 1) == ring(h, t + 1),
        0 <= ring(h, t) < n_slots(),
{
}

/// Writing an entry whose key the ring does not store into slot `i`, at its
/// exact distance from home, keeps the ring well formed when the slot was free
/// or held an entry no farther from its home.
proof fn lemma_write_entry<T>(s: Seq<Slot<T>>, i: int, x: Slot<T>)
    requires
        wf_slots(s),
        0 <= i < n_slots(),
        occ(x),
        x.hash == key_hash(x.key@),
        x.probe_dist as int == (i - home(x.hash)) % n_slots(),
        !view_of(s).contains_key(x.key@),
        x.probe_dist > 0 ==> ({
            let pm = (i - 1) % n_slots();
            occ(s[pm]) && x.probe_dist <= s[pm].probe_dist + 1
        }),
        occ(s[i]) ==> x.probe_dist >= s[i].probe_dist,
    ensures
        wf_slots(s.update(i, x)),
        view_of(s.update(i, x)) == (if occ(s[i]) {
            view_of(s).remove(s[i].key@)
        } else {
            view_of(s)
        }).insert(x.key@, entry(x)),
        count_occ(s.update(i, x)) == count_occ(s) + if occ(s[i]) {
            0int
        } else {
            1int
        },
{
    let u = s.update(i, x);
    assert forall|j: int| 0 <= j < n_slots() && occ(s[j]) implies s[j].key@ != x.key@ by {
        if s[j].key@ == x.key@ {
            assert(holds(s, j, x.key@));
        }
    }
    assert(distinct(u)) by {
        assert forall|a: int, b: int|
            #![trigger u[a].key@, u[b].key@]
            0 <= a < u.len() && 0 <= b < u.len() && occ(u[a]) && occ(u[b]) && u[a].key@
                == u[b].key@ implies a == b by {
            if a != i && b != i {
                assert(s[a].key@ == s[b].key@);
            }
        }
    }
    assert forall|j: int| 0 <= j < n_slots() implies #[trigger] slot_ok(u, j) by {
        assert(slot_ok(s, j));
    }
    assert forall|j: int| 0 <= j < n_slots() implies #[trigger] link_ok(u, j) by {
        lemma_prev(i, j);
        assert(link_ok(s, j));
    }
    lemma_view_update(s, i, x);
    lemma_count_update(s, i, x);
}

/// The shape of a ring with a hole at `i` left by a deletion: every slot is
/// in order except the link from the hole to its successor, and the hole
/// stands in for an entry at distance `hd` from home.
pub open spec fn holed<T>(s: Seq<Slot<T>>, i: int, hd: int) -> bool {
    let pm = (i - 1) % n_slots();
    let nx = ring(i, 1);
    &&& s.len() == n_slots()
    &&& 0 <= i < n_slots()
    &&& !occ(s[i])
    &&& forall|j: int| 0 <= j < n_slots() ==> #[trigger] slot_ok(s, j)
    &&& forall|j: int| 0 <= j < n_slots() && j != i ==> #[trigger] link_ok(s, j)
    &&& distinct(s)
    &&& 0 <= hd
    &&& hd > 0 ==> occ(s[pm]) && hd <= s[pm].probe_dist + 1
    &&& (occ(s[nx]) && s[nx].probe_dist > 0) ==> s[nx].probe_dist <= hd + 1
}

/// Moving the successor of the hole back into the hole, one slot nearer its
/// home, moves the hole forward and keeps the stored map.
proof fn lemma_shift_step<T>(s: Seq<Slot<T>>, i: int, hd: int, b: Slot<T>)
    requires
        holed(s, i, hd),
        !occ(b),
        occ(s[ring(i, 1)]),
        s[ring(i, 1)].probe_dist > 0,
    ensures
        ({
            let nx = ring(i, 1);
            let x = s[nx];
            let moved = Slot { probe_dist: (x.probe_dist - 1) as u32, ..x };
            let u = s.update(i, moved).update(nx, b);
            &&& holed(u, nx, x.probe_dist as int)
            &&& view_of(u) == view_of(s)
            &&& count_occ(u) == count_occ(s)
        }),
{
    let nx = ring(i, 1);
    let pm = (i - 1) % n_slots();
    let x = s[nx];
    let moved = Slot { probe_dist: (x.probe_dist - 1) as u32, ..x };
    let u = s.update(i, moved).update(nx, b);
    lemma_prev(i, 0);
    lemma_prev(nx, 0);
    lemma_ring_succ(nx, 0);
    assert(slot_ok(s, nx));
    assert(link_ok(s, nx));
    assert(nx != pm);
    assert(ring(nx, 1) != i);
    assert(distinct(u)) by {
        assert forall|a: int, c: int|
            #![trigger u[a].key@, u[c].key@]
            0 <= a < u.len() && 0 <= c < u.len() && occ(u[a]) && occ(u[c]) && u[a].key@
                == u[c].key@ implies a == c by {
            let a0 = if a == i {
                nx
            } else {
                a
            };
            let c0 = if c == i {
                nx
            } else {
                c
            };
            assert(s[a0].key@ == s[c0].key@);
        }
    }
    assert forall|j: int| 0 <= j < n_slots() implies #[trigger] slot_ok(u, j) by {
        assert(slot_ok(s, j));
    }
    assert forall|j: int| 0 <= j < n_slots() && j != nx implies #[trigger] link_ok(u, j) by {
        lemma_prev(i, j);
        lemma_prev(nx, j);
        if j != i {
            assert(link_ok(s, j));
        }
    }
    // The map: first the successor is taken out, then put into the hole.
    let w = s.update(nx, b);
    assert(u =~= w.update(i, moved));
    assert(distinct(w)) by {
        assert forall|a: int, c: int|
            #![trigger w[a].key@, w[c].key@]
            0 <= a < w.len() && 0 <= c < w.len() && occ(w[a]) && occ(w[c]) && w[a].key@
                == w[c].key@ implies a == c by {
            assert(s[a].key@ == s[c].key@);
        }
    }
    lemma_view_update(s, nx, b);
    lemma_view_update(w, i, moved);
    lemma_view_at(s, nx);
    assert(view_of(u) =~= view_of(s));
    lemma_count_update(s, nx, b);
    lemma_count_update(w, i, moved);
}

/// A probe that has passed `d` slots has examined at most two more slots
/// than the largest distance, and no slot past the first free one.
proof fn lemma_find_bounds<T>(s: Seq<Slot<T>>, k: Seq<u8>, d: int)
    requires
        s.len() == n_slots(),
        0 <= d < n_slots(),
        forall|t: int| 0 <= t < d ==> #[trigger] passed(s, home(key_hash(k)), t, k),
    ensures
        forall|b: int| 0 <= b && #[trigger] dists_at_most(s, b) ==> d + 1 <= b + 2,
        forall|m: int| #[trigger] first_free(s, home(key_hash(k)), m) ==> d + 1 <= m + 1,
{
    let h = home(key_hash(k));
    assert forall|b: int| 0 <= b && #[trigger] dists_at_most(s, b) implies d + 1 <= b + 2 by {
        if d > 0 {
            assert(passed(s, h, d - 1, k));
            let q = ring(h, d - 1);
            assert(0 <= q < n_slots());
            assert(occ(s[q]));
            assert(s[q].probe_dist <= b);
        }
    }
    assert forall|m: int| #[trigger] first_free(s, h, m) implies d + 1 <= m + 1 by {
        if m < d {
            assert(passed(s, h, m, k));
        }
    }
}

/// Slot `t` steps after `h` lies `t` steps after `h`.
proof fn lemma_offset_ring(h: int, t: int)
    requires
        0 <= h < n_slots(),
        0 <= t < n_slots(),
    ensures
        offset(h, ring(h, t)) == t,
        0 <= ring(h, t) < n_slots(),
{
}

/// Writing an occupied slot, or a blank one with value `b`, keeps free
/// slots blank.
proof fn lemma_free_blank_update<T>(s: Seq<Slot<T>>, i: int, x: Slot<T>, b: T)
    requires
        free_blank(s, b),
        0 <= i < s.len(),
        occ(x) || x == blank_slot(b),
    ensures
        free_blank(s.update(i, x), b),
{
    let u = s.update(i, x);
    assert forall|j: int| 0 <= j < u.len() && !occ(#[trigger] u[j]) implies u[j] == blank_slot(b) by {
        if j != i {
            assert(u[j] == s[j]);
        }
    }
}

/// A ring of `TABLE_SIZE` slots, each blank with value bytes `b`, is
/// `blank_ring(b)` and keeps free slots blank.
proof fn lemma_all_blank<T>(s: Seq<Slot<T>>, b: T)
    requires
        s.len() == n_slots(),
        forall|j: int| 0 <= j < n_slots() ==> #[trigger] s[j] == blank_slot(b),
    ensures
        s == blank_ring(b),
        free_blank(s, b),
{
    assert(s =~= blank_ring(b));
}

// ------------------------------------------------------------------------
// Executable helpers
// ------------------------------------------------------------------------

/// Compares two keys byte by byte.
pub fn same_key(a: &[u8; 16], b: &[u8; 16]) -> (r: bool)
    ensures
        r == (a@ == b@),
{
    let mut i: usize = 0;
    while i < 16
        invariant
            0 <= i <= 16,
            a@.len() == 16,
            b@.len() == 16,
            forall|j: int| 0 <= j < i ==> a@[j] == b@[j],
        decreases 16 - i,
    {
        if a[i] != b[i] {
            return false;
        }
        i = i + 1;
    }
    assert(a@ =~= b@);
    true
}

/// The home slot of a hash: its low 21 bits.
fn home_index(hash: u64) -> (r: usize)
    ensures
        r as int == home(hash),
        r < TABLE_SIZE,
{
    let m = hash & MASK;
    assert(hash & 0x1F_FFFF == hash % 0x20_0000) by (bit_vector);
    m as usize
}

/// The slot after `i` on the ring.
fn next_index(i: usize) -> (r: usize)
    requires
        i < TABLE_SIZE,
    ensures
        r as int == ring(i as int, 1),
        r < TABLE_SIZE,
{
    let j = ((i as u64 + 1) & MASK) as usize;
    assert(((i as u64 + 1) as u64) & 0x1F_FFFF == ((i as u64 + 1) as u64) % 0x20_0000) by (bit_vector);
    j
}

// ------------------------------------------------------------------------
// The table
// ------------------------------------------------------------------------

/// What `place` did with an entry.
pub enum Placement {
    /// The key was absent; the entry now occupies a slot.
    Inserted,
    /// The key is already held in this slot; nothing was changed.
    Found(usize),
}

/// A ring of `TABLE_SIZE` slots, with the number of entries it holds.
pub struct RobinHood<T> {
    slots: Vec<Slot<T>>,
    /// Number of occupied slots.
    count: usize,
    /// The value bytes a free slot carries.
    blank: T,
}

impl<T: Copy> View for RobinHood<T> {
    type V = Map<Seq<u8>, (T, u8)>;

    closed spec fn view(&self) -> Map<Seq<u8>, (T, u8)> {
        view_of(self.slots@)
    }
}

impl<T: Copy> RobinHood<T> {
    /// The table invariant.
    pub closed spec fn wf(&self) -> bool {
        &&& wf_slots(self.slots@)
        &&& self.count as nat == count_occ(self.slots@)
        &&& self.count < TABLE_SIZE
        &&& view_of(self.slots@).dom().finite()
        &&& view_of(self.slots@).dom().len() == self.count
        &&& free_blank(self.slots@, self.blank)
    }

    /// The value bytes that free slots carry.
    pub closed spec fn blank_value(&self) -> T {
        self.blank
    }

    /// The number of entries.
    pub closed spec fn spec_len(&self) -> nat {
        self.count as nat
    }

    /// Under the invariant the entry count is the size of the stored map,
    /// which is finite.
    pub proof fn lemma_len(&self)
        requires
            self.wf(),
        ensures
            self.spec_len() == self@.len(),
            self@.dom().finite(),
            self@.len() < TABLE_SIZE,
    {
    }

    /// The slots, in ring order.
    pub closed spec fn layout(&self) -> Seq<Slot<T>> {
        self.slots@
    }

    /// What the invariant says of the slots: the ring is well formed, the
    /// entry count is the number of occupied slots, the stored map is what
    /// the occupied slots hold, and every entry is fewer slots from home than
    /// there are entries.
    pub proof fn lemma_layout(&self)
        requires
            self.wf(),
        ensures
            self.layout().len() == TABLE_SIZE,
            ring_ok(self.layout(), self.blank_value()),
            self.spec_len() == count_occ(self.layout()),
            self.spec_len() < TABLE_SIZE,
            forall|k: Seq<u8>| #[trigger]
                self@.contains_key(k) <==> exists|i: int| holds(self.layout(), i, k),
            forall|i: int|
                0 <= i < TABLE_SIZE && occ(#[trigger] self.layout()[i]) ==> {
                    &&& self@.contains_key(self.layout()[i].key@)
                    &&& self@[self.layout()[i].key@] == entry(self.layout()[i])
                    &&& self.layout()[i].probe_dist < self.spec_len()
                },
    {
        let s = self.slots@;
        assert forall|i: int| 0 <= i < TABLE_SIZE && occ(#[trigger] s[i]) implies {
            &&& view_of(s).contains_key(s[i].key@)
            &&& view_of(s)[s[i].key@] == entry(s[i])
            &&& s[i].probe_dist < self.count
        } by {
            lemma_view_at(s, i);
            lemma_dist_below_count(s, i);
        }
    }

    /// Slot `i` holds an entry.
    pub open spec fn occupied_at(&self, i: int) -> bool {
        0 <= i < n_slots() && occ(self.layout()[i])
    }

    /// The key held in slot `i`.
    pub open spec fn key_at(&self, i: int) -> Seq<u8> {
        self.layout()[i].key@
    }

    /// The number of entries.
    pub fn len(&self) -> (r: usize)
        requires
            self.wf(),
        ensures
            r == self.spec_len(),
            r == self@.len(),
            r < TABLE_SIZE,
    {
        self.count
    }

    /// The entry held in slot `i`.
    pub fn entry_at(&self, i: usize) -> (r: (T, u8))
        requires
            self.wf(),
            self.occupied_at(i as int),
        ensures
            self@.contains_key(self.key_at(i as int)),
            r == self@[self.key_at(i as int)],
    {
        proof {
            lemma_view_at(self.slots@, i as int);
        }
        let slot = self.slots[i];
        (slot.value, slot.value_len)
    }

    /// A table with every slot free; free slots carry `blank` as their value.
    pub fn new(blank: T) -> (r: Self)
        ensures
            r.wf(),
            r@ == Map::<Seq<u8>, (T, u8)>::empty(),
            r.spec_len() == 0,
            r.layout().len() == TABLE_SIZE,
            r.blank_value() == blank,
            r.layout() == blank_ring(blank),
    {
        let mut slots: Vec<Slot<T>> = Vec::with_capacity(TABLE_SIZE);
        let mut i: usize = 0;
        while i < TABLE_SIZE
            invariant
                0 <= i <= TABLE_SIZE,
                slots@.len() == i,
                forall|j: int| 0 <= j < i ==> #[trigger] slots@[j] == blank_slot(blank),
            decreases TABLE_SIZE - i,
        {
            slots.push(Slot::empty(blank));
            i = i + 1;
        }
        proof {
            lemma_all_free(slots@);
            lemma_all_blank(slots@, blank);
        }
        RobinHood { slots, count: 0, blank }
    }

    /// Frees every slot, whatever it held, and makes `blank` the value bytes
    /// of free slots; the slots are rewritten in place.
    pub fn reset(&mut self, blank: T)
        requires
            old(self).layout().len() == TABLE_SIZE,
        ensures
            final(self).wf(),
            final(self)@ == Map::<Seq<u8>, (T, u8)>::empty(),
            final(self).spec_len() == 0,
            final(self).blank_value() == blank,
            final(self).layout() == blank_ring(blank),
    {
        self.blank = blank;
        let mut i: usize = 0;
        while i < TABLE_SIZE
            invariant
                0 <= i <= TABLE_SIZE,
                self.slots@.len() == TABLE_SIZE,
                forall|j: int| 0 <= j < i ==> #[trigger] self.slots@[j] == blank_slot(blank),
                self.blank == blank,
            decreases TABLE_SIZE - i,
        {
            self.slots[i] = Slot::empty(blank);
            i = i + 1;
        }
        self.count = 0;
        proof {
            lemma_all_free(self.slots@);
            lemma_all_blank(self.slots@, self.blank);
        }
    }

    /// Replaces the value of the entry in slot `i`.
    pub fn set_entry(&mut self, i: usize, value: T, value_len: u8)
        requires
            old(self).wf(),
            old(self).occupied_at(i as int),
        ensures
            final(self).wf(),
            final(self)@ == old(self)@.insert(old(self).key_at(i as int), (value, value_len)),
            final(self).spec_len() == old(self).spec_len(),
            final(self).blank_value() == old(self).blank_value(),
            value_written(old(self).layout(), final(self).layout(), i as int, value, value_len),
    {
        let ghost s = self.slots@;
        let mut slot = self.slots[i];
        slot.value = value;
        slot.value_len = value_len;
        self.slots[i] = slot;
        proof {
            let u = self.slots@;
            assert(u == s.update(i as int, slot));
            assert(distinct(u)) by {
                assert forall|a: int, b: int|
                    #![trigger u[a].key@, u[b].key@]
                    0 <= a < u.len() && 0 <= b < u.len() && occ(u[a]) && occ(u[b]) && u[a].key@
                        == u[b].key@ implies a == b by {
                    assert(s[a].key@ == s[b].key@);
                }
            }
            assert forall|j: int| 0 <= j < n_slots() implies #[trigger] slot_ok(u, j) by {
                assert(slot_ok(s, j));
            }
            assert forall|j: int| 0 <= j < n_slots() implies #[trigger] link_ok(u, j) by {
                assert(link_ok(s, j));
            }
            lemma_view_update(s, i as int, slot);
            lemma_view_at(s, i as int);
            lemma_count_update(s, i as int, slot);
            lemma_free_blank_update(s, i as int, slot, self.blank);
            assert(view_of(u).dom() =~= view_of(s).dom());
        }
    }

    /// Robin Hood insertion of `key`: walks the probe sequence from the key's
    /// home slot; stops at the slot that already holds the key (changing
    /// nothing), or carries the entry onward, exchanging it for any entry that
    /// is nearer its own home, until a free slot takes what is carried.
    #[verifier::rlimit(40)]
    pub fn place(&mut self, key: &[u8; 16], value: T, value_len: u8, hash: u64) -> (r: (
        Placement,
        Ghost<int>,
    ))
        requires
            old(self).wf(),
            hash == key_hash(key@),
            old(self).spec_len() + 1 < TABLE_SIZE,
        ensures
            final(self).wf(),
            final(self).blank_value() == old(self).blank_value(),
            // r.1 counts the slots visited: home(hash), then one by one,
            // never past the first free slot from home.
            1 <= r.1@,
            forall|m: int| #[trigger] first_free(old(self).layout(), home(hash), m) ==> r.1@ <= m + 1,
            match r.0 {
                Placement::Inserted => {
                    &&& !old(self)@.contains_key(key@)
                    &&& final(self)@ == old(self)@.insert(key@, (value, value_len))
                    &&& final(self).spec_len() == old(self).spec_len() + 1
                    &&& first_free(old(self).layout(), home(hash), r.1@ - 1)
                    &&& unchanged_past(old(self).layout(), final(self).layout(), home(hash), r.1@ - 1)
                },
                Placement::Found(i) => {
                    &&& old(self)@.contains_key(key@)
                    &&& final(self)@ == old(self)@
                    &&& final(self).layout() == old(self).layout()
                    &&& final(self).spec_len() == old(self).spec_len()
                    &&& final(self).occupied_at(i as int)
                    &&& final(self).key_at(i as int) == key@
                    &&& i as int == ring(home(hash), r.1@ - 1)
                },
            },
    {
        let ghost s0 = self.slots@;
        let ghost h0 = home(hash);
        let ghost e0 = (value, value_len);
        let mut index = home_index(hash);
        let mut incoming = Slot {
            key: *key,
            value,
            hash,
            value_len,
            status: OCCUPIED,
            probe_dist: 0,
        };
        let ghost mut k: int = 0;
        let ghost mut swapped = false;
        loop
            invariant
                old(self).wf(),
                s0 == old(self).slots@,
                self.count == old(self).count,
                self.count + 1 < TABLE_SIZE,
                wf_slots(self.slots@),
                count_occ(self.slots@) == count_occ(s0),
                self.blank == old(self).blank,
                free_blank(self.slots@, self.blank),
                h0 == home(hash),
                hash == key_hash(key@),
                e0 == (value, value_len),
                occ(incoming),
                incoming.hash == key_hash(incoming.key@),
                incoming.probe_dist < TABLE_SIZE,
                index as int == ring(home(incoming.hash), incoming.probe_dist as int),
                index < TABLE_SIZE,
                incoming.probe_dist > 0 ==> ({
                    let pm = (index - 1) % n_slots();
                    &&& occ(self.slots@[pm])
                    &&& self.slots@[pm].probe_dist + 1 >= incoming.probe_dist
                }),
                0 <= k < n_slots(),
                index as int == ring(h0, k),
                forall|t: int| 0 <= t < k ==> occ(#[trigger] self.slots@[ring(h0, t)]),
                forall|t: int| 0 <= t < k ==> occ(#[trigger] s0[ring(h0, t)]),
                forall|j: int|
                    0 <= j < n_slots() && offset(h0, j) >= k ==> #[trigger] self.slots@[j] == s0[j],
                !swapped ==> {
                    &&& self.slots@ == s0
                    &&& incoming.key@ == key@
                    &&& entry(incoming) == e0
                    &&& incoming.probe_dist == k
                    &&& forall|t: int| 0 <= t < k ==> #[trigger] passed(s0, h0, t, key@)
                },
                swapped ==> {
                    &&& !view_of(s0).contains_key(key@)
                    &&& !view_of(self.slots@).contains_key(incoming.key@)
                    &&& view_of(self.slots@).insert(incoming.key@, entry(incoming))
                        == view_of(s0).insert(key@, e0)
                },
            decreases n_slots() - k,
        {
            let ghost s = self.slots@;
            let slot = self.slots[index];
            proof {
                lemma_offset_ring(h0, k);
                assert(s[index as int] == s0[index as int]);
                lemma_prev(index as int, 0);
                lemma_ring_succ(h0, k);
                lemma_ring_succ(home(incoming.hash), incoming.probe_dist as int);
                assert(slot_ok(s, index as int));
                assert(link_ok(s, index as int));
                if !swapped {
                    assert(home(incoming.hash) == h0);
                }
            }
            if slot.status == EMPTY {
                self.slots[index] = incoming;
                self.count = self.count + 1;
                proof {
                    let u = self.slots@;
                    assert(u == s.update(index as int, incoming));
                    if !swapped {
                        lemma_absent(s0, key@, k);
                    }
                    lemma_write_entry(s, index as int, incoming);
                    lemma_free_blank_update(s, index as int, incoming, self.blank);
                    assert(view_of(u) == view_of(s0).insert(key@, e0));
                    assert(view_of(u).dom() =~= view_of(s0).dom().insert(key@));
                    assert forall|t: int| 0 <= t < k implies occ(#[trigger] s0[ring(h0, t)]) by {}
                    assert(first_free(s0, h0, k));
                    assert forall|m: int| #[trigger] first_free(s0, h0, m) implies k + 1 <= m + 1 by {
                        if m < k {
                            assert(occ(s0[ring(h0, m)]));
                        }
                    }
                    assert forall|j: int|
                        0 <= j < n_slots() && offset(h0, j) > k implies #[trigger] u[j] == s0[j] by {}
                }
                return (Placement::Inserted, Ghost(k + 1));
            }
            if slot.hash == incoming.hash && same_key(&slot.key, &incoming.key) {
                proof {
                    if swapped {
                        assert(holds(s, index as int, incoming.key@));
                    }
                    lemma_view_at(s0, index as int);
                    assert(occ(s0[ring(h0, k)]));
                    assert forall|m: int| #[trigger] first_free(s0, h0, m) implies k + 1 <= m + 1 by {
                        if m < k {
                            assert(occ(s0[ring(h0, m)]));
                        }
                    }
                }
                return (Placement::Found(index), Ghost(k + 1));
            }
            proof {
                lemma_dist_bound(s, index as int);
                lemma_home_ring(s, index as int);
                lemma_ring_succ(home(slot.hash), slot.probe_dist as int);
            }
            if incoming.probe_dist > slot.probe_dist {
                self.slots[index] = incoming;
                let ghost carried = incoming;
                incoming = slot;
                proof {
                    let u = self.slots@;
                    assert(u == s.update(index as int, carried));
                    if !swapped {
                        lemma_absent(s0, key@, k);
                    }
                    lemma_write_entry(s, index as int, carried);
                    lemma_free_blank_update(s, index as int, carried, self.blank);
                    lemma_view_at(s, index as int);
                    let vs = view_of(s);
                    assert(view_of(u).insert(slot.key@, entry(slot)) =~= vs.insert(
                        carried.key@,
                        entry(carried),
                    ));
                    if !swapped {
                        assert(vs == view_of(s0));
                    }
                    swapped = true;
                }
            }
            proof {
                let u = self.slots@;
                assert(occ(u[index as int]));
                assert(occ(s0[ring(h0, k)]));
                assert forall|j: int|
                    0 <= j < n_slots() && offset(h0, j) >= k + 1 implies #[trigger] u[j] == s0[j] by {
                    assert(j != index);
                }
                if !swapped {
                    assert(passed(s0, h0, k, key@));
                }
                if k + 1 == n_slots() {
                    assert forall|t: int| 0 <= t < n_slots() implies occ(#[trigger] u[ring(h0, t)]) by {
                        if t < k {
                        } else {
                            assert(t == k);
                        }
                    }
                    lemma_ring_full(u, h0);
                }
                k = k + 1;
            }
            index = next_index(index);
            incoming.probe_dist = incoming.probe_dist + 1;
        }
    }

    /// Removes the entry in slot `i` by backward shifting: each following
    /// entry that is away from home moves back one slot, until a free slot or
    /// an entry already at home closes the run.
    #[verifier::rlimit(40)]
    pub fn remove_at(&mut self, i: usize) -> (m: Ghost<int>)
        requires
            old(self).wf(),
            old(self).occupied_at(i as int),
        ensures
            final(self).wf(),
            old(self)@.contains_key(old(self).key_at(i as int)),
            final(self)@ == old(self)@.remove(old(self).key_at(i as int)),
            final(self).spec_len() + 1 == old(self).spec_len(),
            final(self).blank_value() == old(self).blank_value(),
            backward_shift(old(self).layout(), final(self).layout(), i as int, m@, old(self).blank_value()),
    {
        let ghost s0 = self.slots@;
        let ghost k0 = s0[i as int].key@;
        let hole = Slot::empty(self.blank);
        let mut index = i;
        let ghost mut m: int = 0;
        let ghost mut hd: int = s0[i as int].probe_dist as int;
        proof {
            let hs = s0.update(i as int, hole);
            lemma_prev(i as int, 0);
            assert(link_ok(s0, i as int));
            assert(link_ok(s0, (i - 1) % n_slots()));
            assert(distinct(hs)) by {
                assert forall|a: int, c: int|
                    #![trigger hs[a].key@, hs[c].key@]
                    0 <= a < hs.len() && 0 <= c < hs.len() && occ(hs[a]) && occ(hs[c]) && hs[a].key@
                        == hs[c].key@ implies a == c by {
                    assert(s0[a].key@ == s0[c].key@);
                }
            }
            assert forall|j: int| 0 <= j < n_slots() implies #[trigger] slot_ok(hs, j) by {
                assert(slot_ok(s0, j));
            }
            assert forall|j: int| 0 <= j < n_slots() && j != i implies #[trigger] link_ok(hs, j) by {
                lemma_prev(i as int, j);
                assert(link_ok(s0, j));
            }
            lemma_view_update(s0, i as int, hole);
            lemma_view_at(s0, i as int);
            lemma_count_update(s0, i as int, hole);
            lemma_free_blank_update(s0, i as int, hole, self.blank);
        }
        loop
            invariant
                old(self).wf(),
                s0 == old(self).slots@,
                k0 == s0[i as int].key@,
                old(self).occupied_at(i as int),
                self.count == old(self).count,
                !occ(hole),
                hole == blank_slot(self.blank),
                self.blank == old(self).blank,
                free_blank(self.slots@.update(index as int, hole), self.blank),
                self.slots@.len() == n_slots(),
                index < TABLE_SIZE,
                holed(self.slots@.update(index as int, hole), index as int, hd),
                view_of(self.slots@.update(index as int, hole)) == view_of(s0).remove(k0),
                count_occ(self.slots@.update(index as int, hole)) + 1 == count_occ(s0),
                0 <= m < n_slots() - 1,
                index as int == ring(i as int, m),
                forall|t: int|
                    0 <= t < m ==> occ(#[trigger] self.slots@.update(index as int, hole)[ring(
                        i as int,
                        t,
                    )]),
                forall|t: int|
                    1 <= t <= m ==> occ(#[trigger] s0[ring(i as int, t)]) && s0[ring(
                        i as int,
                        t,
                    )].probe_dist > 0,
                forall|t: int|
                    0 <= t < m ==> #[trigger] self.slots@[ring(i as int, t)] == shifted(
                        s0[ring(i as int, t + 1)],
                    ),
                unchanged_past(s0, self.slots@, i as int, m),
            decreases n_slots() - m,
        {
            let ghost hs = self.slots@.update(index as int, hole);
            let next = next_index(index);
            proof {
                lemma_ring_succ(i as int, m);
                lemma_prev(index as int, 0);
                assert(hs[next as int] == self.slots@[next as int]);
                lemma_offset_ring(i as int, m + 1);
                assert(self.slots@[next as int] == s0[next as int]);
            }
            if self.slots[next].status == EMPTY || self.slots[next].probe_dist == 0 {
                self.slots[index] = hole;
                self.count = self.count - 1;
                proof {
                    let u = self.slots@;
                    assert(u == hs);
                    assert forall|j: int| 0 <= j < n_slots() implies #[trigger] link_ok(u, j) by {
                        if j != index {
                        }
                    }
                    lemma_view_at(s0, i as int);
                    assert(view_of(u).dom() =~= view_of(s0).dom().remove(k0));
                    lemma_offset_ring(i as int, m);
                    assert forall|t: int| 0 <= t < m implies #[trigger] u[ring(i as int, t)] == shifted(
                        s0[ring(i as int, t + 1)],
                    ) by {
                        lemma_offset_ring(i as int, t);
                    }
                    assert(backward_shift(s0, u, i as int, m, self.blank));
                }
                return Ghost(m);
            }
            let ghost before = self.slots@;
            let mut moved = self.slots[next];
            moved.probe_dist = moved.probe_dist - 1;
            self.slots[index] = moved;
            proof {
                let x = hs[next as int];
                let now = self.slots@;
                lemma_offset_ring(i as int, m);
                assert(moved == shifted(s0[ring(i as int, m + 1)]));
                assert forall|t: int| 0 <= t < m + 1 implies #[trigger] now[ring(i as int, t)]
                    == shifted(s0[ring(i as int, t + 1)]) by {
                    lemma_offset_ring(i as int, t);
                    if t < m {
                        assert(now[ring(i as int, t)] == before[ring(i as int, t)]);
                    }
                }
                assert forall|t: int| 1 <= t <= m + 1 implies occ(#[trigger] s0[ring(i as int, t)])
                    && s0[ring(i as int, t)].probe_dist > 0 by {}
                assert forall|j: int| 0 <= j < n_slots() && offset(i as int, j) > m + 1 implies #[trigger] now[j]
                    == s0[j] by {
                    assert(j != index);
                }
                lemma_shift_step(hs, index as int, hd, hole);
                let u = self.slots@.update(next as int, hole);
                assert(u =~= hs.update(index as int, moved).update(next as int, hole));
                lemma_free_blank_update(hs, index as int, moved, self.blank);
                lemma_free_blank_update(hs.update(index as int, moved), next as int, hole, self.blank);
                hd = x.probe_dist as int;
                // No full lap: all slots but the new hole would be occupied.
                assert forall|t: int| 0 <= t < m + 1 implies occ(#[trigger] u[ring(i as int, t)]) by {
                    lemma_ring_succ(i as int, t);
                    if t < m {
                        assert(hs[ring(i as int, t)] == u[ring(i as int, t)]);
                    }
                }
                if m + 2 == n_slots() {
                    let full = u.update(next as int, x);
                    assert forall|t: int| 0 <= t < n_slots() implies occ(#[trigger] full[ring(i as int, t)]) by {
                        lemma_ring_succ(i as int, t);
                    }
                    lemma_ring_full(full, i as int);
                    lemma_count_update(u, next as int, x);
                    lemma_count_le(s0);
                }
                m = m + 1;
            }
            index = next;
        }
    }

    /// Looks `key` up: the slot that holds it, or `None` if it is absent.
    pub fn find(&self, key: &[u8; 16], hash: u64) -> (r: (Option<usize>, Ghost<int>))
        requires
            self.wf(),
            hash == key_hash(key@),
        ensures
            // r.1 counts the slots examined: home(hash), then one by one.
            1 <= r.1@,
            forall|b: int| 0 <= b && #[trigger] dists_at_most(self.layout(), b) ==> r.1@ <= b + 2,
            forall|m: int| #[trigger] first_free(self.layout(), home(hash), m) ==> r.1@ <= m + 1,
            r.0 matches Some(i) ==> i as int == ring(home(hash), r.1@ - 1),
            match r.0 {
                Some(i) => {
                    &&& i < TABLE_SIZE
                    &&& self.occupied_at(i as int)
                    &&& self.key_at(i as int) == key@
                    &&& self@.contains_key(key@)
                },
                None => !self@.contains_key(key@),
            },
    {
        let ghost s = self.slots@;
        let ghost h = home(hash);
        let mut index = home_index(hash);
        let mut probe_dist: u32 = 0;
        loop
            invariant
                self.wf(),
                s == self.slots@,
                hash == key_hash(key@),
                h == home(hash),
                0 <= h < n_slots(),
                probe_dist < TABLE_SIZE,
                index as int == ring(h, probe_dist as int),
                forall|t: int| 0 <= t < probe_dist ==> #[trigger] passed(s, h, t, key@),
            decreases TABLE_SIZE - probe_dist,
        {
            let slot = &self.slots[index];
            if slot.status == EMPTY {
                proof {
                    lemma_absent(s, key@, probe_dist as int);
                    lemma_find_bounds(s, key@, probe_dist as int);
                }
                return (None, Ghost(probe_dist + 1));
            }
            if slot.hash == hash && same_key(&slot.key, key) {
                proof {
                    lemma_view_at(s, index as int);
                    lemma_find_bounds(s, key@, probe_dist as int);
                }
                return (Some(index), Ghost(probe_dist + 1));
            }
            proof {
                assert(slot_ok(s, index as int));
            }
            if probe_dist > slot.probe_dist {
                proof {
                    lemma_absent(s, key@, probe_dist as int);
                    lemma_find_bounds(s, key@, probe_dist as int);
                }
                return (None, Ghost(probe_dist + 1));
            }
            proof {
                assert(passed(s, h, probe_dist as int, key@));
                if probe_dist + 1 == TABLE_SIZE {
                    assert forall|t: int| 0 <= t < n_slots() implies occ(#[trigger] s[ring(h, t)]) by {
                        assert(passed(s, h, t, key@));
                    }
                    lemma_ring_full(s, h);
                }
            }
            index = next_index(index);
            probe_dist = probe_dist + 1;
        }
    }
}

} // verus!
