//! The insert/delete fuzzing workload: a random sequence of operations,
//! the pool of keys currently live in the table, and the choice of what each
//! operation does given the pool.

use vstd::prelude::*;
use rand::rngs::SmallRng;
use crate::sampling::{random_index, random_ratio, small_rng};

verus! {

/// Number of operations in a workload.
pub const OPS: usize = 500000000;

/// Chance that an operation is an insertion: numerator ...
pub const INSERT_NUMERATOR: u32 = 67;

/// ... over denominator.
pub const INSERT_DENOMINATOR: u32 = 100;

/// The byte that marks an insertion in a workload (`b'I'`).
pub const INSERT_OP: u8 = 0x49;

/// The byte that marks a deletion in a workload (`b'D'`).
pub const DELETE_OP: u8 = 0x44;

/// The keys currently live, and how many keys have been created so far.
pub struct LiveKeys {
    pub key_num: u32,
    pub keys: Vec<u128>,
}

impl LiveKeys {
    /// No key created, none live.
    pub fn new() -> (r: Self)
        ensures
            r.key_num == 0,
            r.keys@ == Seq::<u128>::empty(),
    {
        LiveKeys { key_num: 0, keys: Vec::new() }
    }

    /// Records `key` as live.
    pub fn add_key(&mut self, key: u128)
        ensures
            final(self).keys@ == old(self).keys@.push(key),
            final(self).key_num == old(self).key_num,
    {
        self.keys.push(key);
    }

    /// Takes a live key chosen at random out of the pool: the last key fills
    /// its place.
    pub fn delete_random_key(&mut self, rng: &mut SmallRng) -> (r: u128)
        requires
            old(self).keys@.len() > 0,
        ensures
            final(self).key_num == old(self).key_num,
            exists|i: int|
                0 <= i < old(self).keys@.len() && r == old(self).keys@[i] && final(self).keys@
                    == old(self).keys@.update(i, old(self).keys@.last()).drop_last(),
    {
        let idx = random_index(rng, self.keys.len());
        let r = self.keys.swap_remove(idx);
        assert(0 <= idx < old(self).keys@.len() && r == old(self).keys@[idx as int]);
        r
    }
}

/// The operation byte for one draw: an insertion when the draw came out
/// `true` (chance 67 in 100), else a deletion.
pub open spec fn op_of(draw: bool) -> u8 {
    if draw {
        INSERT_OP
    } else {
        DELETE_OP
    }
}

/// The operation byte for one draw, as `op_of` says.
pub fn operation(draw: bool) -> (r: u8)
    ensures
        r == op_of(draw),
{
    if draw {
        INSERT_OP
    } else {
        DELETE_OP
    }
}

/// `OPS` operations seeded by `seed`: the `i`-th is `op_of` of the `i`-th
/// draw of `random_ratio(numerator, denominator)`, so an insertion with
/// chance `numerator` in `denominator` and otherwise a deletion. Which draws
/// come out is left to the generator, but at the two ends of the ratio the
/// outcome is fixed: all insertions when the chance is one, all deletions
/// when it is zero.
pub fn generate_workload_with_ratio(seed: u64, numerator: u32, denominator: u32) -> (r: Vec<u8>)
    requires
        0 < denominator,
        numerator <= denominator,
    ensures
        r@.len() == OPS,
        forall|i: int| 0 <= i < r@.len() ==> r@[i] == INSERT_OP || r@[i] == DELETE_OP,
        numerator == denominator ==> forall|i: int| 0 <= i < r@.len() ==> r@[i] == INSERT_OP,
        numerator == 0 ==> forall|i: int| 0 <= i < r@.len() ==> r@[i] == DELETE_OP,
{
    let mut rng = small_rng(seed);
    let mut workload: Vec<u8> = Vec::with_capacity(OPS);
    let mut n: usize = 0;
    while n < OPS
        invariant
            n <= OPS,
            0 < denominator,
            numerator <= denominator,
            workload@.len() == n,
            forall|i: int| 0 <= i < n ==> workload@[i] == INSERT_OP || workload@[i] == DELETE_OP,
            numerator == denominator ==> forall|i: int| 0 <= i < n ==> workload@[i] == INSERT_OP,
            numerator == 0 ==> forall|i: int| 0 <= i < n ==> workload@[i] == DELETE_OP,
        decreases OPS - n,
    {
        let draw = random_ratio(&mut rng, numerator, denominator);
        workload.push(operation(draw));
        n = n + 1;
    }
    workload
}

/// `OPS` operations seeded by `seed`, each an insertion with chance
/// `INSERT_NUMERATOR` in `INSERT_DENOMINATOR` (67 in 100) and otherwise a
/// deletion: `generate_workload_with_ratio` at that ratio.
pub fn generate_workload(seed: u64) -> (r: Vec<u8>)
    ensures
        r@.len() == OPS,
        forall|i: int| 0 <= i < r@.len() ==> r@[i] == INSERT_OP || r@[i] == DELETE_OP,
{
    generate_workload_with_ratio(seed, INSERT_NUMERATOR, INSERT_DENOMINATOR)
}

/// The operation byte follows the draw: `true` gives an insertion, `false` a
/// deletion, and the two draws give different bytes.
pub proof fn law_operation_follows_draw(draw: bool)
    ensures
        op_of(draw) == INSERT_OP <==> draw,
        op_of(draw) == DELETE_OP <==> !draw,
        op_of(true) != op_of(false),
{
}

/// What one workload operation does to the table.
#[derive(Debug, Clone, Copy, PartialEq, Eq, Structural)]
pub enum FuzzAction {
    /// Delete a live key chosen at random.
    DeleteRandom,
    /// Insert the next new key.
    InsertNew,
}

/// An insertion deletes instead when `live` keys already fill the table; a
/// deletion inserts instead when no key is live.
pub fn fuzz_action(work: u8, live: usize, max_keys: usize) -> (r: FuzzAction)
    ensures
        r == if work == INSERT_OP {
            if live >= max_keys {
                FuzzAction::DeleteRandom
            } else {
                FuzzAction::InsertNew
            }
        } else {
            if live == 0 {
                FuzzAction::InsertNew
            } else {
                FuzzAction::DeleteRandom
            }
        },
{
    if work == INSERT_OP {
        if live >= max_keys {
            FuzzAction::DeleteRandom
        } else {
            FuzzAction::InsertNew
        }
    } else {
        if live == 0 {
            FuzzAction::InsertNew
        } else {
            FuzzAction::DeleteRandom
        }
    }
}

/// Number of snapshot points in a workload.
pub const N_CHECKPOINTS: usize = 7;

/// Snapshot point `i`: after how many operations, and the percentage of the
/// workload that is.
pub open spec fn spec_checkpoint(i: int) -> (usize, u8) {
    if i == 0 {
        ((OPS * 25 / 100) as usize, 25u8)
    } else if i == 1 {
        ((OPS * 50 / 100) as usize, 50u8)
    } else if i == 2 {
        ((OPS * 75 / 100) as usize, 75u8)
    } else if i == 3 {
        ((OPS * 90 / 100) as usize, 90u8)
    } else if i == 4 {
        ((OPS * 95 / 100) as usize, 95u8)
    } else if i == 5 {
        ((OPS * 99 / 100) as usize, 99u8)
    } else {
        (OPS, 100u8)
    }
}

/// Snapshot point `i`.
pub fn checkpoint(i: usize) -> (r: (usize, u8))
    requires
        i < N_CHECKPOINTS,
    ensures
        r == spec_checkpoint(i as int),
{
    if i == 0 {
        (OPS / 100 * 25, 25)
    } else if i == 1 {
        (OPS / 100 * 50, 50)
    } else if i == 2 {
        (OPS / 100 * 75, 75)
    } else if i == 3 {
        (OPS / 100 * 90, 90)
    } else if i == 4 {
        (OPS / 100 * 95, 95)
    } else if i == 5 {
        (OPS / 100 * 99, 99)
    } else {
        (OPS, 100)
    }
}

/// The percentage to snapshot at after `ops_done` operations, when that is
/// the next snapshot point still due.
pub fn checkpoint_due(ops_done: usize, next_checkpoint: usize) -> (r: Option<u8>)
    ensures
        r == if next_checkpoint < N_CHECKPOINTS && ops_done == spec_checkpoint(
            next_checkpoint as int,
        ).0 {
            Some(spec_checkpoint(next_checkpoint as int).1)
        } else {
            None
        },
{
    if next_checkpoint < N_CHECKPOINTS {
        let (at, period) = checkpoint(next_checkpoint);
        if ops_done == at {
            return Some(period);
        }
    }
    None
}

} // verus!
