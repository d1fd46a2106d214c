//! Keys for the insertion histogram run: all generated keys, in random order.

use vstd::prelude::*;
use crate::get_bench::key_run;
use crate::keygen;
use crate::sampling::{shuffle, thread_rng};

verus! {

/// The keys numbered `0 .. count`, shuffled.
pub fn generate_keys_table(count: u64) -> (r: Vec<u128>)
    ensures
        r@.len() == count,
        r@.to_multiset() == key_run(0, count as int).to_multiset(),
{
    let mut keys = keygen::generate_keys_table(count);
    assert(keys@ =~= key_run(0, count as int));
    let mut rng = thread_rng();
    shuffle(&mut rng, &mut keys);
    keys
}

} // verus!
