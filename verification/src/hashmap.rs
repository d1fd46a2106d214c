//! A Robin Hood table of 2^21 slots that maps 16-byte keys to 32-byte values
//! with a length byte, admitting at most `MAX_KEYS` entries. Results are
//! reported as status codes: `0` success, `1` value replaced, `-1` refused or
//! not found.

use vstd::prelude::*;
use crate::hashing::hash_key;
use crate::robin_hood::{
    self, backward_shift, blank_ring, blank_slot, count_occ, dists_at_most, entry, first_free, holds,
    home, key_hash, occ, ring_ok, unchanged_past, value_written, Placement, RobinHood, Slot,
};

verus! {

/// Number of slots in a table.
pub const TABLE_SIZE: usize = robin_hood::TABLE_SIZE;

/// `TABLE_SIZE - 1`.
pub const MASK: usize = 2097151;

/// Most entries a table admits.
pub const MAX_KEYS: usize = 1000000;

/// Status byte of a free slot.
pub const EMPTY: u8 = robin_hood::EMPTY;

/// Status byte of a slot in use.
pub const OCCUPIED: u8 = robin_hood::OCCUPIED;

/// Number of value bytes a slot keeps.
pub const VALUE_SIZE: usize = 32;

/// A table. Its model maps key bytes to (the 32 stored value bytes, the
/// length byte given at insertion).
pub struct HashTable {
    table: RobinHood<[u8; 32]>,
}

/// The stored map, with values seen as byte sequences.
pub open spec fn as_bytes(m: Map<Seq<u8>, ([u8; 32], u8)>) -> Map<Seq<u8>, (Seq<u8>, u8)> {
    Map::new(|k: Seq<u8>| m.contains_key(k), |k: Seq<u8>| (m[k].0@, m[k].1))
}

impl View for HashTable {
    type V = Map<Seq<u8>, (Seq<u8>, u8)>;

    closed spec fn view(&self) -> Map<Seq<u8>, (Seq<u8>, u8)> {
        as_bytes(self.table@)
    }
}

/// Number of value bytes that an insertion copies: `value_len`, at most 32.
pub open spec fn copied_len(value_len: u8) -> int {
    if value_len < 32 {
        value_len as int
    } else {
        32
    }
}

/// The 32 bytes kept after writing the first `copied_len(value_len)` bytes of
/// `value` over `base`.
pub open spec fn stored_bytes(base: Seq<u8>, value: Seq<u8>, value_len: u8) -> Seq<u8> {
    value.take(copied_len(value_len)) + base.skip(copied_len(value_len))
}

/// The 32 zero bytes that a new entry starts from.
pub open spec fn zero_bytes() -> Seq<u8> {
    Seq::new(32, |i: int| 0u8)
}

proof fn lemma_as_bytes_insert(m: Map<Seq<u8>, ([u8; 32], u8)>, k: Seq<u8>, v: [u8; 32], l: u8)
    ensures
        as_bytes(m.insert(k, (v, l))) == as_bytes(m).insert(k, (v@, l)),
{
    assert(as_bytes(m.insert(k, (v, l))) =~= as_bytes(m).insert(k, (v@, l)));
}

proof fn lemma_as_bytes_remove(m: Map<Seq<u8>, ([u8; 32], u8)>, k: Seq<u8>)
    ensures
        as_bytes(m.remove(k)) == as_bytes(m).remove(k),
{
    assert(as_bytes(m.remove(k)) =~= as_bytes(m).remove(k));
}

proof fn lemma_as_bytes_dom(m: Map<Seq<u8>, ([u8; 32], u8)>)
    ensures
        as_bytes(m).dom() == m.dom(),
{
    assert(as_bytes(m).dom() =~= m.dom());
}

/// The value bytes of a free slot: all zero.
pub open spec fn zero_value() -> [u8; 32] {
    [0u8; 32usize]
}

/// A free slot as a table keeps it: every byte of it zero.
pub open spec fn empty_slot() -> Slot<[u8; 32]> {
    blank_slot(zero_value())
}

/// The slots of an empty table: `TABLE_SIZE` copies of `empty_slot()`.
pub open spec fn empty_layout() -> Seq<Slot<[u8; 32]>> {
    blank_ring(zero_value())
}

/// The slot invariant of a table: the ring is well formed (each occupied
/// slot records its key's hash and its exact distance from home, the Robin
/// Hood ordering holds along every run, no key is stored twice) and every
/// free slot is `empty_slot()`.
pub open spec fn table_ok(s: Seq<Slot<[u8; 32]>>) -> bool {
    s.len() == TABLE_SIZE && ring_ok(s, zero_value())
}

impl HashTable {
    /// The slots, in ring order.
    pub closed spec fn layout(&self) -> Seq<Slot<[u8; 32]>> {
        self.table.layout()
    }

    /// The table invariant.
    pub closed spec fn wf(&self) -> bool {
        &&& self.table.wf()
        &&& self.table@.len() <= MAX_KEYS
        &&& self.table.blank_value() == zero_value()
    }

    /// An empty table: every slot is `empty_slot()`.
    pub fn new() -> (t: Self)
        ensures
            t.wf(),
            t@ == Map::<Seq<u8>, (Seq<u8>, u8)>::empty(),
            t.layout() == empty_layout(),
            table_ok(t.layout()),
    {
        let table = RobinHood::new([0u8; 32]);
        let t = HashTable { table };
        proof {
            table.lemma_len();
            assert(as_bytes(table@) =~= Map::<Seq<u8>, (Seq<u8>, u8)>::empty());
            lemma_layout_ok(&t);
        }
        t
    }
}

/// What the invariant says of a table's slots: `table_ok` holds, the size is
/// the number of occupied slots, the model is exactly what the occupied
/// slots hold, and no entry is as many slots from home as there are entries.
pub proof fn law_layout(t: &HashTable)
    requires
        t.wf(),
    ensures
        table_ok(t.layout()),
        t@.len() == count_occ(t.layout()),
        t@.len() <= MAX_KEYS,
        forall|k: Seq<u8>| #[trigger] t@.contains_key(k) <==> exists|i: int| holds(t.layout(), i, k),
        forall|i: int|
            0 <= i < TABLE_SIZE && occ(#[trigger] t.layout()[i]) ==> t@.contains_key(
                t.layout()[i].key@,
            ) && t@[t.layout()[i].key@] == (t.layout()[i].value@, t.layout()[i].value_len) && t.layout()[i].probe_dist < t@.len(),
{
    lemma_layout_ok(t);
    t.table.lemma_len();
    t.table.lemma_layout();
}

proof fn lemma_layout_ok(t: &HashTable)
    requires
        t.wf(),
    ensures
        table_ok(t.layout()),
        t@.len() == count_occ(t.layout()),
        forall|k: Seq<u8>| #[trigger] t@.contains_key(k) <==> exists|i: int| holds(t.layout(), i, k),
        forall|i: int|
            0 <= i < TABLE_SIZE && occ(#[trigger] t.layout()[i]) ==> t@.contains_key(
                t.layout()[i].key@,
            ) && t@[t.layout()[i].key@] == (t.layout()[i].value@, t.layout()[i].value_len) && t.layout()[i].probe_dist < t@.len(),
{
    t.table.lemma_layout();
    t.table.lemma_len();
    lemma_as_bytes_dom(t.table@);
}

/// Two valid tables with the same slots hold the same entries: the slots
/// determine the model and the size. So `init`, which leaves
/// `empty_layout()`, leaves a table equal to a new one, and initialising
/// twice changes nothing.
pub proof fn law_layout_determines_model(a: &HashTable, b: &HashTable)
    requires
        a.wf(),
        b.wf(),
        a.layout() == b.layout(),
    ensures
        a@ == b@,
        a@.len() == b@.len(),
{
    lemma_layout_ok(a);
    lemma_layout_ok(b);
    assert forall|k: Seq<u8>| #[trigger] a@.contains_key(k) implies a@[k] == b@[k] by {
        let i = choose|i: int| holds(a.layout(), i, k);
        assert(holds(b.layout(), i, k));
    }
    assert(a@ =~= b@);
}

/// Writes the first `n` bytes of `value` over `base`.
fn overwrite_prefix(base: [u8; 32], value: &[u8], n: usize) -> (r: [u8; 32])
    requires
        n <= 32,
        n <= value@.len(),
    ensures
        r@ == value@.take(n as int) + base@.skip(n as int),
{
    let mut v = base;
    let mut j: usize = 0;
    while j < n
        invariant
            j <= n,
            n <= 32,
            n <= value@.len(),
            v@.len() == 32,
            forall|t: int| 0 <= t < j ==> v@[t] == value@[t],
            forall|t: int| j <= t < 32 ==> v@[t] == base@[t],
        decreases n - j,
    {
        v[j] = value[j];
        j = j + 1;
    }
    assert(v@ =~= value@.take(n as int) + base@.skip(n as int));
    v
}

/// A table's model: key bytes to (stored value bytes, length byte).
pub type Model = Map<Seq<u8>, (Seq<u8>, u8)>;

/// The status `insert` returns: `-1` when full, `1` when the key is present,
/// `0` when it is new.
pub open spec fn insert_code(m: Model, k: Seq<u8>) -> i32 {
    if m.len() >= MAX_KEYS {
        -1i32
    } else if m.contains_key(k) {
        1i32
    } else {
        0i32
    }
}

/// The model after `insert`.
pub open spec fn after_insert(m: Model, k: Seq<u8>, value: Seq<u8>, l: u8) -> Model {
    if m.len() >= MAX_KEYS {
        m
    } else if m.contains_key(k) {
        m.insert(k, (stored_bytes(m[k].0, value, l), l))
    } else {
        m.insert(k, (stored_bytes(zero_bytes(), value, l), l))
    }
}

/// The status `get` and `delete` return: `0` when the key is present, else `-1`.
pub open spec fn found_code(m: Model, k: Seq<u8>) -> i32 {
    if m.contains_key(k) {
        0i32
    } else {
        -1i32
    }
}

/// Empties the table, whatever its slots held: every slot becomes
/// `empty_slot()` and the size becomes zero.
pub fn init(table: &mut HashTable)
    requires
        old(table).layout().len() == TABLE_SIZE,
    ensures
        final(table).wf(),
        final(table)@ == Map::<Seq<u8>, (Seq<u8>, u8)>::empty(),
        final(table).layout() == empty_layout(),
        table_ok(final(table).layout()),
{
    table.table.reset([0u8; 32]);
    proof {
        table.table.lemma_len();
        assert(as_bytes(table.table@) =~= Map::<Seq<u8>, (Seq<u8>, u8)>::empty());
        lemma_layout_ok(table);
    }
}

/// `insert`, also counting the slots it visits (`r.1`): none when the table
/// is full, else from the key's home slot one by one, never past the first
/// free slot from home.
pub fn insert_probed(table: &mut HashTable, key: &[u8; 16], value: &[u8], value_len: u8) -> (r: (
    i32,
    Ghost<int>,
))
    requires
        old(table).wf(),
        copied_len(value_len) <= value@.len(),
    ensures
        final(table).wf(),
        table_ok(final(table).layout()),
        r.0 == insert_code(old(table)@, key@),
        final(table)@ == after_insert(old(table)@, key@, value@, value_len),
        r.0 == -1 <==> r.1@ == 0,
        0 <= r.1@,
        forall|m: int| #[trigger] first_free(old(table).layout(), home(key_hash(key@)), m) ==> r.1@ <= m + 1,
        // Where the slots change: nowhere on refusal; an update rewrites only
        // the value and length byte of the key's slot; an insertion changes
        // only the run from the key's home slot to the first free slot.
        r.0 == -1 ==> final(table).layout() == old(table).layout(),
        r.0 == 1 ==> exists|j: int, v: [u8; 32]|
            occ(old(table).layout()[j]) && old(table).layout()[j].key@ == key@
                && #[trigger] value_written(
                old(table).layout(),
                final(table).layout(),
                j,
                v,
                value_len,
            ),
        r.0 == 0 ==> exists|m: int|
            #[trigger] first_free(old(table).layout(), home(key_hash(key@)), m) && unchanged_past(
                old(table).layout(),
                final(table).layout(),
                home(key_hash(key@)),
                m,
            ),
{
    proof {
        table.table.lemma_len();
        lemma_as_bytes_dom(table.table@);
    }
    if table.table.len() >= MAX_KEYS {
        proof {
            lemma_layout_ok(table);
        }
        return (-1, Ghost(0));
    }
    let hash = hash_key(key);
    let n: usize = if (value_len as usize) < 32 {
        value_len as usize
    } else {
        32
    };
    let zeros: [u8; 32] = [0u8; 32];
    proof {
        assert(zeros@ =~= zero_bytes());
    }
    let fresh = overwrite_prefix(zeros, value, n);
    let (placement, visited) = table.table.place(key, fresh, value_len, hash);
    match placement {
        Placement::Inserted => {
            proof {
                table.table.lemma_len();
                lemma_as_bytes_insert(old(table).table@, key@, fresh, value_len);
                lemma_layout_ok(table);
                assert(first_free(old(table).layout(), home(key_hash(key@)), visited@ - 1));
            }
            (0, visited)
        },
        Placement::Found(i) => {
            let (current, _) = table.table.entry_at(i);
            let merged = overwrite_prefix(current, value, n);
            table.table.set_entry(i, merged, value_len);
            proof {
                table.table.lemma_len();
                lemma_as_bytes_insert(old(table).table@, key@, merged, value_len);
                lemma_layout_ok(table);
                assert(value_written(
                    old(table).layout(),
                    table.layout(),
                    i as int,
                    merged,
                    value_len,
                ));
            }
            (1, visited)
        },
    }
}

/// Inserts `key`, keeping the first `min(value_len, 32)` bytes of `value`
/// over a zeroed value, or, when `key` is present, writes those bytes over
/// the start of its stored value (the rest of it stays) and records the new
/// length byte. Returns `0` for a new key, `1` for a present one, and `-1`
/// (leaving the table unchanged) when it already holds `MAX_KEYS` entries.
pub fn insert(table: &mut HashTable, key: &[u8; 16], value: &[u8], value_len: u8) -> (r: i32)
    requires
        old(table).wf(),
        copied_len(value_len) <= value@.len(),
    ensures
        final(table).wf(),
        table_ok(final(table).layout()),
        r == insert_code(old(table)@, key@),
        final(table)@ == after_insert(old(table)@, key@, value@, value_len),
        r == -1 ==> final(table).layout() == old(table).layout(),
        r == 1 ==> exists|j: int, v: [u8; 32]|
            occ(old(table).layout()[j]) && old(table).layout()[j].key@ == key@
                && #[trigger] value_written(
                old(table).layout(),
                final(table).layout(),
                j,
                v,
                value_len,
            ),
        r == 0 ==> exists|m: int|
            #[trigger] first_free(old(table).layout(), home(key_hash(key@)), m) && unchanged_past(
                old(table).layout(),
                final(table).layout(),
                home(key_hash(key@)),
                m,
            ),
{
    insert_probed(table, key, value, value_len).0
}

/// `get`, also counting the slots it examines (`r.1`): from the key's home
/// slot one by one, at most two more than the largest distance from home of
/// any entry, and never past the first free slot from home.
pub fn get_probed(table: &HashTable, key: &[u8; 16], out: &mut [u8; 32], value_len: &mut u8) -> (r: (
    i32,
    Ghost<int>,
))
    requires
        table.wf(),
    ensures
        r.0 == found_code(table@, key@),
        r.0 == 0 ==> final(out)@ == table@[key@].0 && *final(value_len) == table@[key@].1,
        r.0 == -1 ==> *final(out) == *old(out) && *final(value_len) == *old(value_len),
        1 <= r.1@ <= TABLE_SIZE,
        forall|b: int| 0 <= b && #[trigger] dists_at_most(table.layout(), b) ==> r.1@ <= b + 2,
        forall|m: int| #[trigger] first_free(table.layout(), home(key_hash(key@)), m) ==> r.1@ <= m + 1,
{
    let hash = hash_key(key);
    let (found, visited) = table.table.find(key, hash);
    proof {
        table.table.lemma_layout();
        assert(dists_at_most(table.layout(), TABLE_SIZE - 2));
    }
    match found {
        Some(i) => {
            let (v, l) = table.table.entry_at(i);
            *out = v;
            *value_len = l;
            (0, visited)
        },
        None => (-1, visited),
    }
}

/// Copies the value stored under `key` into `out` and its length byte into
/// `value_len`, returning `0`; returns `-1` and writes nothing when `key` is
/// absent.
pub fn get(table: &HashTable, key: &[u8; 16], out: &mut [u8; 32], value_len: &mut u8) -> (r: i32)
    requires
        table.wf(),
    ensures
        r == found_code(table@, key@),
        r == 0 ==> final(out)@ == table@[key@].0 && *final(value_len) == table@[key@].1,
        r == -1 ==> *final(out) == *old(out) && *final(value_len) == *old(value_len),
{
    get_probed(table, key, out, value_len).0
}

/// Removes `key`, returning `0`; returns `-1` (no change) if it is absent.
pub fn delete(table: &mut HashTable, key: &[u8; 16]) -> (r: i32)
    requires
        old(table).wf(),
    ensures
        final(table).wf(),
        table_ok(final(table).layout()),
        r == found_code(old(table)@, key@),
        final(table)@ == old(table)@.remove(key@),
        // Where the slots change: nowhere when absent; else the key's slot
        // and the run after it are shifted back as `backward_shift` says,
        // and the slot that ends the run becomes `empty_slot()`.
        r == -1 ==> final(table).layout() == old(table).layout(),
        r == 0 ==> exists|j: int, m: int|
            occ(old(table).layout()[j]) && old(table).layout()[j].key@ == key@
                && #[trigger] backward_shift(
                old(table).layout(),
                final(table).layout(),
                j,
                m,
                zero_value(),
            ),
{
    let hash = hash_key(key);
    match table.table.find(key, hash).0 {
        Some(i) => {
            let shifted = table.table.remove_at(i);
            proof {
                assert(backward_shift(
                    old(table).layout(),
                    table.layout(),
                    i as int,
                    shifted@,
                    zero_value(),
                ));
                old(table).table.lemma_len();
                table.table.lemma_len();
                lemma_as_bytes_remove(old(table).table@, key@);
                lemma_layout_ok(table);
            }
            0
        },
        None => {
            proof {
                assert(table@ =~= table@.remove(key@));
                lemma_layout_ok(table);
            }
            -1
        },
    }
}

/// Number of entries.
pub fn size(table: &HashTable) -> (r: usize)
    requires
        table.wf(),
    ensures
        r == table@.len(),
        r == count_occ(table.layout()),
{
    proof {
        lemma_as_bytes_dom(table.table@);
        lemma_layout_ok(table);
    }
    table.table.len()
}

} // verus!

verus! {

/// The model of a valid table is a finite map of at most `MAX_KEYS` entries,
/// each with 32 value bytes.
pub proof fn lemma_model(t: &HashTable)
    requires
        t.wf(),
    ensures
        t@.dom().finite(),
        t@.len() <= MAX_KEYS,
        forall|k: Seq<u8>| #[trigger] t@.contains_key(k) ==> t@[k].0.len() == 32,
{
    t.table.lemma_len();
    lemma_as_bytes_dom(t.table@);
}

/// A lookup right after a successful insertion finds the key with the bytes
/// the insertion stored and the new length byte; other keys are untouched.
pub proof fn law_get_after_insert(t: HashTable, k: Seq<u8>, value: Seq<u8>, l: u8, other: Seq<u8>)
    requires
        t.wf(),
        insert_code(t@, k) != -1,
        copied_len(l) <= value.len(),
    ensures
        found_code(after_insert(t@, k, value, l), k) == 0,
        after_insert(t@, k, value, l)[k].1 == l,
        after_insert(t@, k, value, l)[k].0.take(copied_len(l)) == value.take(copied_len(l)),
        other != k ==> after_insert(t@, k, value, l).contains_key(other) == t@.contains_key(other),
        other != k && t@.contains_key(other) ==> after_insert(t@, k, value, l)[other] == t@[other],
{
    lemma_model(&t);
    let m = after_insert(t@, k, value, l);
    let n = copied_len(l);
    if t@.contains_key(k) {
        assert(m[k].0.take(n) =~= value.take(n));
    } else {
        assert(m[k].0.take(n) =~= value.take(n));
    }
}

/// The bytes an insertion stores, byte by byte: for a new key the first
/// `min(l, 32)` bytes come from `value` and the rest are zero; for a present
/// key the first `min(l, 32)` bytes come from `value` and the rest are the
/// bytes it held. Either way 32 bytes are kept and the length byte is `l`.
pub proof fn law_stored_bytes(m: Model, k: Seq<u8>, value: Seq<u8>, l: u8)
    requires
        m.len() < MAX_KEYS,
        copied_len(l) <= value.len(),
        m.contains_key(k) ==> m[k].0.len() == 32,
    ensures
        after_insert(m, k, value, l).contains_key(k),
        after_insert(m, k, value, l)[k].1 == l,
        after_insert(m, k, value, l)[k].0.len() == 32,
        forall|b: int|
            0 <= b < 32 ==> #[trigger] after_insert(m, k, value, l)[k].0[b] == if b < copied_len(l) {
                value[b]
            } else if m.contains_key(k) {
                m[k].0[b]
            } else {
                0u8
            },
{
}

/// A value given with a length of 32 or more replaces all 32 stored bytes,
/// whatever the key held before.
pub proof fn law_full_overwrite(t: HashTable, k: Seq<u8>, value: Seq<u8>, l: u8)
    requires
        t.wf(),
        insert_code(t@, k) != -1,
        l >= 32,
        value.len() >= 32,
    ensures
        after_insert(t@, k, value, l)[k].0 == value.take(32),
{
    lemma_model(&t);
    let m = after_insert(t@, k, value, l);
    assert(m[k].0 =~= value.take(32));
}

/// Replacing the value of a present key keeps the stored bytes past the
/// ones the new value covers.
pub proof fn law_update_keeps_tail(t: HashTable, k: Seq<u8>, value: Seq<u8>, l: u8)
    requires
        t.wf(),
        insert_code(t@, k) == 1,
        copied_len(l) <= value.len(),
    ensures
        after_insert(t@, k, value, l)[k].0.skip(copied_len(l)) == t@[k].0.skip(copied_len(l)),
{
    let n = copied_len(l);
    assert(after_insert(t@, k, value, l)[k].0.skip(n) =~= t@[k].0.skip(n));
}

/// A refused insertion (full table) changes nothing.
pub proof fn law_full_table_unchanged(t: HashTable, k: Seq<u8>, value: Seq<u8>, l: u8)
    requires
        t.wf(),
        t@.len() == MAX_KEYS,
    ensures
        insert_code(t@, k) == -1,
        after_insert(t@, k, value, l) == t@,
{
}

/// After a deletion the key is gone and the other keys are as before.
pub proof fn law_get_after_delete(t: HashTable, k: Seq<u8>, other: Seq<u8>)
    requires
        t.wf(),
    ensures
        found_code(t@.remove(k), k) == -1,
        other != k ==> found_code(t@.remove(k), other) == found_code(t@, other),
        other != k && t@.contains_key(other) ==> t@.remove(k)[other] == t@[other],
{
}

/// Deleting a key that an insertion has just added gives back the table as it
/// was before the insertion.
pub proof fn law_delete_undoes_insert(t: HashTable, k: Seq<u8>, value: Seq<u8>, l: u8)
    requires
        t.wf(),
        insert_code(t@, k) == 0,
    ensures
        after_insert(t@, k, value, l).remove(k) == t@,
        found_code(after_insert(t@, k, value, l), k) == 0,
{
    assert(after_insert(t@, k, value, l).remove(k) =~= t@);
}

/// The size grows by one exactly when an insertion returns `0`, and shrinks
/// by one exactly when a deletion returns `0`.
pub proof fn law_size_accounting(t: HashTable, k: Seq<u8>, value: Seq<u8>, l: u8)
    requires
        t.wf(),
    ensures
        after_insert(t@, k, value, l).len() == t@.len() + if insert_code(t@, k) == 0 {
            1int
        } else {
            0int
        },
        t@.remove(k).len() == t@.len() - if found_code(t@, k) == 0 {
            1int
        } else {
            0int
        },
{
    lemma_model(&t);
    if t@.contains_key(k) {
        let m = after_insert(t@, k, value, l);
        if t@.len() < MAX_KEYS {
            assert(m.dom() =~= t@.dom());
        }
    } else {
        assert(t@.remove(k) =~= t@);
    }
}

} // verus!
