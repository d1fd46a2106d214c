//! The hash of a table key.

use vstd::prelude::*;
use rapidhash::v3::{rapidhash_v3_seeded, DEFAULT_RAPID_SECRETS};

verus! {

/// The rapidhash V3 digest of `data` under the crate's default secrets
/// (`rapidhash::v3::DEFAULT_RAPID_SECRETS`).
pub uninterp spec fn rapidhash_v3_default(data: Seq<u8>) -> u64;

/// Hashes a key with `rapidhash::v3::rapidhash_v3_seeded` and the default
/// secrets. The contract claims only that the result is the rapidhash V3
/// digest of the key's bytes: a pure function of those bytes.
#[verifier::external_body]
pub(crate) fn hash_key(key: &[u8; 16]) -> (h: u64)
    ensures
        h == rapidhash_v3_default(key@),
{
    rapidhash_v3_seeded(key, &DEFAULT_RAPID_SECRETS)
}

} // verus!
