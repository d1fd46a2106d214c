//! `hashbrown::HashMap`s from 16-byte keys to fixed-size values, the
//! reference tables of the comparison benchmarks.

use vstd::prelude::*;
use hashbrown::HashMap;

verus! {

/// The map with no entries.
pub open spec fn no_entries() -> Map<Seq<u8>, Seq<u8>> {
    Map::empty()
}

/// A `hashbrown::HashMap<[u8; 16], [u8; 32]>`.
#[verifier::external_body]
pub struct HbMap32 {
    map: HashMap<[u8; 16], [u8; 32]>,
}

/// What an `HbMap32` holds: key bytes to value bytes.
pub uninterp spec fn hb_map32_contents(m: HbMap32) -> Map<Seq<u8>, Seq<u8>>;

impl HbMap32 {
    /// `HashMap::with_capacity`: an empty map. (Its panic on capacity
    /// overflow lies beyond the bound required here.)
    #[verifier::external_body]
    fn hb_with_capacity(capacity: usize) -> (r: HbMap32)
        requires
            capacity <= usize::MAX / 1024,
        ensures
            hb_map32_contents(r) == no_entries(),
    {
        HbMap32 { map: HashMap::with_capacity(capacity) }
    }

    /// `HashMap::insert`: afterwards `key` maps to `value`; the result tells
    /// whether the key was present before. (Growing the table fails only on
    /// allocation failure or a capacity beyond `isize::MAX` bytes.)
    #[verifier::external_body]
    fn hb_insert(&mut self, key: [u8; 16], value: [u8; 32]) -> (r: bool)
        ensures
            hb_map32_contents(*final(self)) == hb_map32_contents(*old(self)).insert(key@, value@),
            r == hb_map32_contents(*old(self)).contains_key(key@),
    {
        self.map.insert(key, value).is_some()
    }

    /// `HashMap::get`, telling whether `key` is present.
    #[verifier::external_body]
    fn hb_get(&self, key: &[u8; 16]) -> (r: bool)
        ensures
            r == hb_map32_contents(*self).contains_key(key@),
    {
        self.map.get(key).is_some()
    }

    /// `HashMap::len`: the number of entries.
    #[verifier::external_body]
    fn hb_len(&self) -> (r: usize)
        ensures
            r == hb_map32_contents(*self).len(),
    {
        self.map.len()
    }

    /// An empty map with room for `capacity` entries.
    pub fn with_capacity(capacity: usize) -> (r: HbMap32)
        requires
            capacity <= usize::MAX / 1024,
        ensures
            hb_map32_contents(r) == no_entries(),
    {
        HbMap32::hb_with_capacity(capacity)
    }

    /// Maps `key` to `value`; tells whether `key` was present.
    pub fn insert(&mut self, key: [u8; 16], value: [u8; 32]) -> (r: bool)
        ensures
            hb_map32_contents(*final(self)) == hb_map32_contents(*old(self)).insert(key@, value@),
            r == hb_map32_contents(*old(self)).contains_key(key@),
    {
        self.hb_insert(key, value)
    }

    /// Whether `key` is present.
    pub fn contains(&self, key: &[u8; 16]) -> (r: bool)
        ensures
            r == hb_map32_contents(*self).contains_key(key@),
    {
        self.hb_get(key)
    }

    /// Number of entries.
    pub fn len(&self) -> (r: usize)
        ensures
            r == hb_map32_contents(*self).len(),
    {
        self.hb_len()
    }
}

/// A `hashbrown::HashMap<[u8; 16], [u8; 100]>`.
#[verifier::external_body]
pub struct HbMap100 {
    map: HashMap<[u8; 16], [u8; 100]>,
}

/// What an `HbMap100` holds: key bytes to value bytes.
pub uninterp spec fn hb_map100_contents(m: HbMap100) -> Map<Seq<u8>, Seq<u8>>;

impl HbMap100 {
    /// `HashMap::with_capacity`: an empty map. (Its panic on capacity
    /// overflow lies beyond the bound required here.)
    #[verifier::external_body]
    fn hb_with_capacity(capacity: usize) -> (r: HbMap100)
        requires
            capacity <= usize::MAX / 1024,
        ensures
            hb_map100_contents(r) == no_entries(),
    {
        HbMap100 { map: HashMap::with_capacity(capacity) }
    }

    /// `HashMap::insert`: afterwards `key` maps to `value`; the result tells
    /// whether the key was present before. (Growing the table fails only on
    /// allocation failure or a capacity beyond `isize::MAX` bytes.)
    #[verifier::external_body]
    fn hb_insert(&mut self, key: [u8; 16], value: [u8; 100]) -> (r: bool)
        ensures
            hb_map100_contents(*final(self)) == hb_map100_contents(*old(self)).insert(key@, value@),
            r == hb_map100_contents(*old(self)).contains_key(key@),
    {
        self.map.insert(key, value).is_some()
    }

    /// `HashMap::get`, telling whether `key` is present.
    #[verifier::external_body]
    fn hb_get(&self, key: &[u8; 16]) -> (r: bool)
        ensures
            r == hb_map100_contents(*self).contains_key(key@),
    {
        self.map.get(key).is_some()
    }

    /// `HashMap::len`: the number of entries.
    #[verifier::external_body]
    fn hb_len(&self) -> (r: usize)
        ensures
            r == hb_map100_contents(*self).len(),
    {
        self.map.len()
    }

    /// An empty map with room for `capacity` entries.
    pub fn with_capacity(capacity: usize) -> (r: HbMap100)
        requires
            capacity <= usize::MAX / 1024,
        ensures
            hb_map100_contents(r) == no_entries(),
    {
        HbMap100::hb_with_capacity(capacity)
    }

    /// Maps `key` to `value`; tells whether `key` was present.
    pub fn insert(&mut self, key: [u8; 16], value: [u8; 100]) -> (r: bool)
        ensures
            hb_map100_contents(*final(self)) == hb_map100_contents(*old(self)).insert(key@, value@),
            r == hb_map100_contents(*old(self)).contains_key(key@),
    {
        self.hb_insert(key, value)
    }

    /// Whether `key` is present.
    pub fn contains(&self, key: &[u8; 16]) -> (r: bool)
        ensures
            r == hb_map100_contents(*self).contains_key(key@),
    {
        self.hb_get(key)
    }

    /// Number of entries.
    pub fn len(&self) -> (r: usize)
        ensures
            r == hb_map100_contents(*self).len(),
    {
        self.hb_len()
    }
}

} // verus!
