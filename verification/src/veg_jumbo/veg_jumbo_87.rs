//! A Robin Hood table of 2^21 slots that maps 16-byte keys to 100-byte values
//! (with a length byte), admitting at most `MAX_KEYS` entries (seven eighths
//! of the slots).

use vstd::prelude::*;
use crate::hashing::hash_key;
use crate::robin_hood::{
    self, backward_shift, blank_ring, blank_slot, count_occ, dists_at_most, entry, first_free, holds,
    home, key_hash, occ, ring, ring_ok, unchanged_past, value_written, Placement, RobinHood, Slot,
};

verus! {

/// Number of slots in a table.
pub const TABLE_SIZE: usize = robin_hood::TABLE_SIZE;

/// `TABLE_SIZE - 1`.
pub const MASK: u32 = 2097151;

/// Most entries a table admits.
pub const MAX_KEYS: usize = 1835008;

/// Status byte of a free slot.
pub const EMPTY: u8 = robin_hood::EMPTY;

/// Status byte of a slot in use.
pub const OCCUPIED: u8 = robin_hood::OCCUPIED;

/// Number of bytes in a key.
pub const KEY_SIZE: usize = 16;

/// Number of bytes in a value.
pub const VALUE_SIZE: usize = 100;

/// A table. Its model is the map from key bytes to (value, value length).
pub struct Vegosh {
    table: RobinHood<[u8; 100]>,
}

impl View for Vegosh {
    type V = Map<Seq<u8>, ([u8; 100], u8)>;

    closed spec fn view(&self) -> Map<Seq<u8>, ([u8; 100], u8)> {
        self.table@
    }
}

/// The value bytes of a free slot: all zero.
pub open spec fn zero_value() -> [u8; 100] {
    [0u8; 100usize]
}

/// A free slot as a table keeps it: every byte of it zero.
pub open spec fn empty_slot() -> Slot<[u8; 100]> {
    blank_slot(zero_value())
}

/// The slots of an empty table: `TABLE_SIZE` copies of `empty_slot()`.
pub open spec fn empty_layout() -> Seq<Slot<[u8; 100]>> {
    blank_ring(zero_value())
}

/// The slot invariant of a table: the ring is well formed (each occupied
/// slot records its key's hash and its exact distance from home, the Robin
/// Hood ordering holds along every run, no key is stored twice), every free
/// slot is `empty_slot()`, and no stored length byte exceeds `VALUE_SIZE`.
pub open spec fn table_ok(s: Seq<Slot<[u8; 100]>>) -> bool {
    &&& s.len() == TABLE_SIZE
    &&& ring_ok(s, zero_value())
    &&& forall|i: int| 0 <= i < s.len() && occ(#[trigger] s[i]) ==> s[i].value_len <= VALUE_SIZE
}

impl Vegosh {
    /// The table invariant.
    pub closed spec fn wf(&self) -> bool {
        &&& self.table.wf()
        &&& self.table@.len() <= MAX_KEYS
        &&& self.table.blank_value() == zero_value()
        &&& forall|k: Seq<u8>| #[trigger] self.table@.contains_key(k) ==> self.table@[k].1 <= VALUE_SIZE
    }

    /// The slots, in ring order.
    pub closed spec fn layout(&self) -> Seq<Slot<[u8; 100]>> {
        self.table.layout()
    }

    /// An empty table: every slot is `empty_slot()`.
    pub fn new() -> (t: Self)
        ensures
            t.wf(),
            t@ == Map::<Seq<u8>, ([u8; 100], u8)>::empty(),
            t.layout() == empty_layout(),
            table_ok(t.layout()),
    {
        let table = RobinHood::new([0u8; 100]);
        let t = Vegosh { table };
        proof {
            table.lemma_len();
            lemma_layout_ok(&t);
        }
        t
    }
}

/// What the invariant says of a table's slots: `table_ok` holds, the size is
/// the number of occupied slots, the model is exactly what the occupied
/// slots hold, and no entry is as many slots from home as there are entries.
pub proof fn law_layout(t: &Vegosh)
    requires
        t.wf(),
    ensures
        table_ok(t.layout()),
        t@.len() == count_occ(t.layout()),
        t@.len() <= MAX_KEYS,
        forall|k: Seq<u8>| #[trigger] t@.contains_key(k) <==> exists|i: int| holds(t.layout(), i, k),
        forall|i: int|
            0 <= i < TABLE_SIZE && occ(#[trigger] t.layout()[i]) ==> t@.contains_key(
                t.layout()[i].key@,
            ) && t@[t.layout()[i].key@] == entry(t.layout()[i]) && t.layout()[i].probe_dist < t@.len(),
{
    lemma_layout_ok(t);
}

proof fn lemma_layout_ok(t: &Vegosh)
    requires
        t.wf(),
    ensures
        table_ok(t.layout()),
        t@.len() == count_occ(t.layout()),
        forall|k: Seq<u8>| #[trigger] t@.contains_key(k) <==> exists|i: int| holds(t.layout(), i, k),
        forall|i: int|
            0 <= i < TABLE_SIZE && occ(#[trigger] t.layout()[i]) ==> t@.contains_key(
                t.layout()[i].key@,
            ) && t@[t.layout()[i].key@] == entry(t.layout()[i]) && t.layout()[i].probe_dist < t@.len(),
{
    t.table.lemma_layout();
    t.table.lemma_len();
    let s = t.layout();
    assert forall|i: int| 0 <= i < s.len() && occ(#[trigger] s[i]) implies s[i].value_len <= VALUE_SIZE by {
        assert(t.table@.contains_key(s[i].key@));
    }
}

/// What a successful insertion did.
#[derive(Debug, Clone, Copy, PartialEq, Eq, Structural)]
pub enum InsertOutcome {
    /// The key was new.
    Inserted,
    /// The key was present; its value was replaced.
    Updated,
}

/// The table already holds `MAX_KEYS` entries.
#[derive(Debug, Clone, Copy, PartialEq, Eq, Structural)]
pub struct TableFull;

/// The key is not in the table.
#[derive(Debug, Clone, Copy, PartialEq, Eq, Structural)]
pub struct NotFound;

/// A table's model: key bytes to (value, value length).
pub type Model = Map<Seq<u8>, ([u8; 100], u8)>;

/// What `insert` answers on a table whose model is `m`.
/// A present key is updated whatever the count; an absent key is refused
/// when the table is full.
pub open spec fn insert_outcome(m: Model, k: Seq<u8>) -> Result<InsertOutcome, TableFull> {
    if m.contains_key(k) {
        Ok(InsertOutcome::Updated)
    } else if m.len() >= MAX_KEYS {
        Err(TableFull)
    } else {
        Ok(InsertOutcome::Inserted)
    }
}

/// The model after `insert`: unchanged when refused, else `k` maps to the
/// new value.
pub open spec fn after_insert(m: Model, k: Seq<u8>, v: [u8; 100], l: u8) -> Model {
    if !m.contains_key(k) && m.len() >= MAX_KEYS {
        m
    } else {
        m.insert(k, (v, l))
    }
}

/// What `get` answers.
pub open spec fn lookup(m: Model, k: Seq<u8>) -> Option<([u8; 100], u8)> {
    if m.contains_key(k) {
        Some(m[k])
    } else {
        None
    }
}

/// What `delete` answers.
pub open spec fn delete_outcome(m: Model, k: Seq<u8>) -> Result<(), NotFound> {
    if m.contains_key(k) {
        Ok(())
    } else {
        Err(NotFound)
    }
}

/// Empties the table, whatever its slots held: every slot becomes
/// `empty_slot()` and the size becomes zero.
pub fn init(table: &mut Vegosh)
    requires
        old(table).layout().len() == TABLE_SIZE,
    ensures
        final(table).wf(),
        final(table)@ == Map::<Seq<u8>, ([u8; 100], u8)>::empty(),
        final(table).layout() == empty_layout(),
        table_ok(final(table).layout()),
{
    table.table.reset([0u8; 100]);
    proof {
        table.table.lemma_len();
        lemma_layout_ok(table);
    }
}

/// `insert`, also counting the slots it visits (`r.1`): from the key's home
/// slot one by one, never past the first free slot from home.
pub fn insert_probed(table: &mut Vegosh, key: &[u8; 16], value: &[u8; 100], value_len: u8) -> (r: (
    Result<InsertOutcome, TableFull>,
    Ghost<int>,
))
    requires
        old(table).wf(),
        value_len as usize <= VALUE_SIZE,
    ensures
        final(table).wf(),
        table_ok(final(table).layout()),
        r.0 == insert_outcome(old(table)@, key@),
        final(table)@ == after_insert(old(table)@, key@, *value, value_len),
        1 <= r.1@,
        forall|m: int| #[trigger] first_free(old(table).layout(), home(key_hash(key@)), m) ==> r.1@ <= m + 1,
        // Where the slots change: nowhere on refusal; an update rewrites only
        // the value and length byte of the key's slot; an insertion changes
        // only the run from the key's home slot to the first free slot.
        r.0 is Err ==> final(table).layout() == old(table).layout(),
        r.0 == Ok::<InsertOutcome, TableFull>(InsertOutcome::Updated) ==> exists|j: int|
            occ(old(table).layout()[j]) && old(table).layout()[j].key@ == key@
                && #[trigger] value_written(
                old(table).layout(),
                final(table).layout(),
                j,
                *value,
                value_len,
            ),
        r.0 == Ok::<InsertOutcome, TableFull>(InsertOutcome::Inserted) ==> exists|m: int|
            #[trigger] first_free(old(table).layout(), home(key_hash(key@)), m) && unchanged_past(
                old(table).layout(),
                final(table).layout(),
                home(key_hash(key@)),
                m,
            ),
{
    proof {
        table.table.lemma_len();
    }
    let hash = hash_key(key);
    if table.table.len() >= MAX_KEYS {
        // Full: only a key already present can be written.
        let (found, visited) = table.table.find(key, hash);
        return match found {
            Some(i) => {
                table.table.set_entry(i, *value, value_len);
                proof {
                    table.table.lemma_len();
                    lemma_layout_ok(table);
                    assert(value_written(
                        old(table).layout(),
                        table.layout(),
                        i as int,
                        *value,
                        value_len,
                    ));
                }
                (Ok(InsertOutcome::Updated), visited)
            },
            None => {
                proof {
                    lemma_layout_ok(table);
                }
                (Err(TableFull), visited)
            },
        };
    }
    let (placement, visited) = table.table.place(key, *value, value_len, hash);
    match placement {
        Placement::Inserted => {
            proof {
                table.table.lemma_len();
                lemma_layout_ok(table);
                assert(first_free(old(table).layout(), home(key_hash(key@)), visited@ - 1));
            }
            (Ok(InsertOutcome::Inserted), visited)
        },
        Placement::Found(i) => {
            table.table.set_entry(i, *value, value_len);
            proof {
                table.table.lemma_len();
                lemma_layout_ok(table);
                assert(value_written(
                    old(table).layout(),
                    table.layout(),
                    i as int,
                    *value,
                    value_len,
                ));
            }
            (Ok(InsertOutcome::Updated), visited)
        },
    }
}

/// Inserts `key` with `value` (of which `value_len` bytes are meaningful),
/// or replaces the value of `key` if it is present. A new key is refused,
/// and the table left unchanged, when the table already holds `MAX_KEYS`
/// entries; a present key is updated even then.
pub fn insert(table: &mut Vegosh, key: &[u8; 16], value: &[u8; 100], value_len: u8) -> (r: Result<
    InsertOutcome,
    TableFull,
>)
    requires
        old(table).wf(),
        value_len as usize <= VALUE_SIZE,
    ensures
        final(table).wf(),
        table_ok(final(table).layout()),
        r == insert_outcome(old(table)@, key@),
        final(table)@ == after_insert(old(table)@, key@, *value, value_len),
        r is Err ==> final(table).layout() == old(table).layout(),
        r == Ok::<InsertOutcome, TableFull>(InsertOutcome::Updated) ==> exists|j: int|
            occ(old(table).layout()[j]) && old(table).layout()[j].key@ == key@
                && #[trigger] value_written(
                old(table).layout(),
                final(table).layout(),
                j,
                *value,
                value_len,
            ),
        r == Ok::<InsertOutcome, TableFull>(InsertOutcome::Inserted) ==> exists|m: int|
            #[trigger] first_free(old(table).layout(), home(key_hash(key@)), m) && unchanged_past(
                old(table).layout(),
                final(table).layout(),
                home(key_hash(key@)),
                m,
            ),
{
    insert_probed(table, key, value, value_len).0
}

/// `get`, also counting the slots it examines (`r.1`): from the key's home
/// slot one by one, at most two more than the largest distance from home of
/// any entry, and never past the first free slot from home.
pub fn get_probed(table: &Vegosh, key: &[u8; 16]) -> (r: (Option<([u8; 100], u8)>, Ghost<int>))
    requires
        table.wf(),
    ensures
        r.0 == lookup(table@, key@),
        1 <= r.1@ <= TABLE_SIZE,
        forall|b: int| 0 <= b && #[trigger] dists_at_most(table.layout(), b) ==> r.1@ <= b + 2,
        forall|m: int| #[trigger] first_free(table.layout(), home(key_hash(key@)), m) ==> r.1@ <= m + 1,
{
    let hash = hash_key(key);
    let (found, visited) = table.table.find(key, hash);
    proof {
        table.table.lemma_layout();
        assert(dists_at_most(table.layout(), TABLE_SIZE - 2));
    }
    match found {
        Some(i) => (Some(table.table.entry_at(i)), visited),
        None => (None, visited),
    }
}

/// The value stored under `key`, with its length byte.
pub fn get(table: &Vegosh, key: &[u8; 16]) -> (r: Option<([u8; 100], u8)>)
    requires
        table.wf(),
    ensures
        r == lookup(table@, key@),
{
    get_probed(table, key).0
}

/// Removes `key`; `NotFound` (and no change) if it is absent.
pub fn delete(table: &mut Vegosh, key: &[u8; 16]) -> (r: Result<(), NotFound>)
    requires
        old(table).wf(),
    ensures
        final(table).wf(),
        table_ok(final(table).layout()),
        r == delete_outcome(old(table)@, key@),
        final(table)@ == old(table)@.remove(key@),
        // Where the slots change: nowhere when absent; else the key's slot
        // and the run after it are shifted back as `backward_shift` says,
        // and the slot that ends the run becomes `empty_slot()`.
        r is Err ==> final(table).layout() == old(table).layout(),
        r is Ok ==> exists|j: int, m: int|
            occ(old(table).layout()[j]) && old(table).layout()[j].key@ == key@
                && #[trigger] backward_shift(
                old(table).layout(),
                final(table).layout(),
                j,
                m,
                zero_value(),
            ),
{
    let hash = hash_key(key);
    match table.table.find(key, hash).0 {
        Some(i) => {
            let shifted = table.table.remove_at(i);
            proof {
                old(table).table.lemma_len();
                table.table.lemma_len();
                lemma_layout_ok(table);
                assert(backward_shift(
                    old(table).layout(),
                    table.layout(),
                    i as int,
                    shifted@,
                    zero_value(),
                ));
            }
            Ok(())
        },
        None => {
            proof {
                assert(table@ =~= table@.remove(key@));
                lemma_layout_ok(table);
            }
            Err(NotFound)
        },
    }
}

/// Number of entries.
pub fn size(table: &Vegosh) -> (r: usize)
    requires
        table.wf(),
    ensures
        r == table@.len(),
        r == count_occ(table.layout()),
{
    proof {
        lemma_layout_ok(table);
    }
    table.table.len()
}

/// Empties the table without allocating: every slot becomes `empty_slot()`
/// and the size becomes zero.
pub fn clear(table: &mut Vegosh)
    requires
        old(table).layout().len() == TABLE_SIZE,
    ensures
        final(table).wf(),
        final(table)@ == Map::<Seq<u8>, ([u8; 100], u8)>::empty(),
        final(table).layout() == empty_layout(),
        table_ok(final(table).layout()),
{
    table.table.reset([0u8; 100]);
    proof {
        table.table.lemma_len();
        lemma_layout_ok(table);
    }
}

} // verus!

verus! {

/// The model of a valid table is a finite map of at most `MAX_KEYS` entries.
pub proof fn lemma_model(t: &Vegosh)
    requires
        t.wf(),
    ensures
        t@.dom().finite(),
        t@.len() <= MAX_KEYS,
{
    t.table.lemma_len();
}

/// Two valid tables with the same slots hold the same entries: the slots
/// determine the model and the size. So `init` and `clear`, which both leave
/// `empty_layout()`, leave equal tables, and clearing a cleared table changes
/// nothing.
pub proof fn law_layout_determines_model(a: &Vegosh, b: &Vegosh)
    requires
        a.wf(),
        b.wf(),
        a.layout() == b.layout(),
    ensures
        a@ == b@,
        a@.len() == b@.len(),
{
    lemma_layout_ok(a);
    lemma_layout_ok(b);
    assert forall|k: Seq<u8>| #[trigger] a@.contains_key(k) implies a@[k] == b@[k] by {
        let i = choose|i: int| holds(a.layout(), i, k);
        assert(holds(b.layout(), i, k));
    }
    assert(a@ =~= b@);
}

/// A lookup right after a successful insertion finds the inserted value, and
/// the insertion leaves every other key's lookup as it was.
pub proof fn law_get_after_insert(t: Vegosh, k: Seq<u8>, v: [u8; 100], l: u8, other: Seq<u8>)
    requires
        t.wf(),
        insert_outcome(t@, k) is Ok,
    ensures
        lookup(after_insert(t@, k, v, l), k) == Some((v, l)),
        other != k ==> lookup(after_insert(t@, k, v, l), other) == lookup(t@, other),
{
}

/// On a full table a new key is refused and changes nothing, while a present
/// key is still updated.
pub proof fn law_full_table_unchanged(t: Vegosh, k: Seq<u8>, v: [u8; 100], l: u8)
    requires
        t.wf(),
        t@.len() == MAX_KEYS,
    ensures
        !t@.contains_key(k) ==> insert_outcome(t@, k) == Err::<InsertOutcome, TableFull>(
            TableFull,
        ),
        !t@.contains_key(k) ==> after_insert(t@, k, v, l) == t@,
        t@.contains_key(k) ==> insert_outcome(t@, k) == Ok::<InsertOutcome, TableFull>(
            InsertOutcome::Updated,
        ),
        t@.contains_key(k) ==> after_insert(t@, k, v, l) == t@.insert(k, (v, l)),
{
}

/// After a deletion the key is gone, and every other key's lookup is as before.
pub proof fn law_get_after_delete(t: Vegosh, k: Seq<u8>, other: Seq<u8>)
    requires
        t.wf(),
    ensures
        lookup(t@.remove(k), k) == None::<([u8; 100], u8)>,
        other != k ==> lookup(t@.remove(k), other) == lookup(t@, other),
{
}

/// Deleting a key that an insertion has just added gives back the table as it
/// was before the insertion.
pub proof fn law_delete_undoes_insert(t: Vegosh, k: Seq<u8>, v: [u8; 100], l: u8)
    requires
        t.wf(),
        insert_outcome(t@, k) == Ok::<InsertOutcome, TableFull>(InsertOutcome::Inserted),
    ensures
        after_insert(t@, k, v, l).remove(k) == t@,
        delete_outcome(after_insert(t@, k, v, l), k) == Ok::<(), NotFound>(()),
{
    assert(after_insert(t@, k, v, l).remove(k) =~= t@);
}

/// Inserting the same entry again reports an update and changes nothing more.
pub proof fn law_insert_twice(t: Vegosh, k: Seq<u8>, v: [u8; 100], l: u8)
    requires
        t.wf(),
        insert_outcome(t@, k) is Ok,
    ensures
        insert_outcome(after_insert(t@, k, v, l), k) == Ok::<InsertOutcome, TableFull>(
            InsertOutcome::Updated,
        ),
        after_insert(after_insert(t@, k, v, l), k, v, l) == after_insert(t@, k, v, l),
{
    assert(after_insert(t@, k, v, l).insert(k, (v, l)) =~= after_insert(t@, k, v, l));
}

/// A second deletion of the same key finds nothing.
pub proof fn law_delete_twice(t: Vegosh, k: Seq<u8>)
    requires
        t.wf(),
    ensures
        delete_outcome(t@.remove(k), k) == Err::<(), NotFound>(NotFound),
        t@.remove(k).remove(k) == t@.remove(k),
{
    assert(t@.remove(k).remove(k) =~= t@.remove(k));
}

/// The size grows by one exactly when an insertion adds a new key, and shrinks
/// by one exactly when a deletion removes a key.
pub proof fn law_size_accounting(t: Vegosh, k: Seq<u8>, v: [u8; 100], l: u8)
    requires
        t.wf(),
    ensures
        after_insert(t@, k, v, l).len() == t@.len() + if insert_outcome(t@, k) == Ok::<
            InsertOutcome,
            TableFull,
        >(InsertOutcome::Inserted) {
            1int
        } else {
            0int
        },
        t@.remove(k).len() == t@.len() - if delete_outcome(t@, k) is Ok {
            1int
        } else {
            0int
        },
{
    lemma_model(&t);
    if t@.contains_key(k) {
        assert(t@.insert(k, (v, l)).dom() =~= t@.dom());
    } else {
        assert(t@.remove(k) =~= t@);
    }
}

} // verus!
