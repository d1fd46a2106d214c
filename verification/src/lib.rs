//! Robin Hood hash tables keyed by 16-byte keys, with verified
//! insert / lookup / backward-shift delete.

pub mod hashing;
pub mod robin_hood;
pub mod veg_jumbo;
pub mod hashmap;
pub mod keygen;
pub mod xorshift;
pub mod bench;
pub mod sampling;
pub mod get_bench;
pub mod insert_fuzz;
pub mod insert_del;
pub mod byte_map;
pub mod get_jumbo_hb;
pub mod hashbrown_get;
pub mod insert_jumbo_hist;
