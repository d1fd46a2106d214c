# vegosh

Robin Hood hash tables with 16-byte keys, verified with Verus, and the
benchmark workloads that exercise them.

- `src/robin_hood.rs` — the shared table: a ring of 2^21 slots, Robin Hood
  insertion, lookup with early exit, backward-shift deletion. Its model is a
  finite map from key bytes to (value, length byte).
- `src/veg_jumbo/veg_jumbo_87.rs` — 100-byte values, up to 1 835 008 entries,
  `Result`-returning API.
- `src/hashmap.rs` — 32-byte values, up to 1 000 000 entries, status-code API.
- `src/hashing.rs` — key hashing with rapidhash V3.
- `src/keygen.rs`, `src/xorshift.rs` — benchmark key generation.
- `src/bench.rs`, `src/get_bench.rs`, `src/get_jumbo_hb.rs`,
  `src/hashbrown_get.rs`, `src/insert_fuzz.rs`, `src/insert_del.rs`,
  `src/insert_jumbo_hist.rs` — workload set-up and cycle statistics.
- `src/sampling.rs`, `src/byte_map.rs` — the calls into `rand` and `hashbrown`.
- `app/` — the benchmark driver: time-stamp counter reads, floating-point
  statistics, printing.
