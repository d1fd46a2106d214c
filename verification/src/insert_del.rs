//! The batch-insert / evict workload: the pool of live keys, and when the
//! batches stop.

use vstd::prelude::*;
use std::collections::HashSet;

verus! {

/// Keys inserted per batch.
pub const BATCH_SIZE: usize = 10000;

/// Entries farther than this from home are evicted after each batch.
pub const PROBE_THRESHOLD: u16 = 8;

/// Most batches run.
pub const MAX_BATCHES: usize = 1000000;

/// The set of keys currently live, and how many keys have been created.
pub struct LiveKeys {
    pub key_num: u32,
    pub keys: HashSet<u128>,
}

impl LiveKeys {
    /// No key created, none live.
    pub fn new() -> (r: Self)
        ensures
            r.key_num == 0,
            r.keys@ == Set::<u128>::empty(),
    {
        LiveKeys { key_num: 0, keys: HashSet::new() }
    }

    /// Records `key` as live.
    pub fn add_key(&mut self, key: u128)
        ensures
            final(self).keys@ == old(self).keys@.insert(key),
            final(self).key_num == old(self).key_num,
    {
        broadcast use vstd::std_specs::hash::group_hash_axioms;

        self.keys.insert(key);
    }

    /// Records `key`, which must be live, as evicted.
    pub fn remove_key(&mut self, key: u128)
        requires
            old(self).keys@.contains(key),
        ensures
            final(self).keys@ == old(self).keys@.remove(key),
            final(self).key_num == old(self).key_num,
    {
        broadcast use vstd::std_specs::hash::group_hash_axioms;

        let removed = self.keys.remove(&key);
        assert(removed);
    }
}

/// Why the batches stopped.
#[derive(Debug, Clone, Copy, PartialEq, Eq, Structural)]
pub enum EvictStop {
    /// The table holds `max_keys` entries.
    Full,
    /// `MAX_BATCHES` batches ran without filling the table.
    BatchLimit,
}

/// Checked before each batch: stop when the table is full, or else when the
/// batch limit is reached.
pub fn evict_stop(size: usize, max_keys: usize, batch_num: usize) -> (r: Option<EvictStop>)
    ensures
        r == if size >= max_keys {
            Some(EvictStop::Full)
        } else if batch_num >= MAX_BATCHES {
            Some(EvictStop::BatchLimit)
        } else {
            None
        },
{
    if size >= max_keys {
        Some(EvictStop::Full)
    } else if batch_num >= MAX_BATCHES {
        Some(EvictStop::BatchLimit)
    } else {
        None
    }
}

/// Within a batch: insert another key while the batch is short and the
/// table is not full.
pub fn batch_continues(inserted_this_batch: usize, size: usize, max_keys: usize) -> (r: bool)
    ensures
        r == (inserted_this_batch < BATCH_SIZE && size < max_keys),
{
    inserted_this_batch < BATCH_SIZE && size < max_keys
}

} // verus!
