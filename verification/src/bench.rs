//! Cycle-count bookkeeping for the benchmarks: net cycles of one timed call,
//! the measuring overhead, and the order statistics of a run.

use vstd::prelude::*;

verus! {

/// Cycles between two counter readings less the measuring overhead, or zero
/// when the overhead is not smaller.
pub fn net_cycles(start: u64, end: u64, overhead: u64) -> (r: u64)
    requires
        start <= end,
    ensures
        r == if end - start > overhead {
            end - start - overhead
        } else {
            0
        },
{
    let mut cycles = end - start;
    if cycles > overhead {
        cycles = cycles - overhead;
    } else {
        cycles = 0;
    }
    cycles
}

/// One round of measuring the overhead of two back-to-back counter
/// readings: the smaller of the best so far and this round.
pub fn overhead_step(best: u64, start: u64, end: u64) -> (r: u64)
    requires
        start <= end,
    ensures
        r == if end - start < best {
            end - start
        } else {
            best as int
        },
        r <= best,
{
    let cycles = end - start;
    if cycles < best {
        cycles
    } else {
        best
    }
}

/// Appends one sample and adds it to the running total.
pub fn record(samples: &mut Vec<u64>, total: &mut u64, cycles: u64)
    requires
        *old(total) + cycles <= u64::MAX,
    ensures
        final(samples)@ == old(samples)@.push(cycles),
        *final(total) == *old(total) + cycles,
{
    samples.push(cycles);
    *total = *total + cycles;
}

/// Ascending order.
pub open spec fn sorted(s: Seq<u64>) -> bool {
    forall|i: int, j: int| 0 <= i <= j < s.len() ==> s[i] <= s[j]
}

/// The index of the `p`-th percentile among `n` sorted samples.
pub open spec fn rank(n: int, p: int) -> int {
    n * p / 100
}

/// Order statistics of a run of cycle counts.
pub struct Results {
    pub min: u64,
    pub max: u64,
    pub p25: u64,
    pub median: u64,
    pub p75: u64,
    pub p90: u64,
    pub p95: u64,
    pub p99: u64,
    /// Sum of the samples, as accumulated by the caller.
    pub total: u64,
    /// Number of samples.
    pub n: usize,
}

/// Sorts with `slice::sort_unstable`; the contract claims what its
/// documentation says: the result is in ascending order and holds the same
/// elements.
#[verifier::external_body]
fn sort_unstable(v: &mut Vec<u64>)
    ensures
        final(v)@.len() == old(v)@.len(),
        final(v)@.to_multiset() == old(v)@.to_multiset(),
        sorted(final(v)@),
{
    v.sort_unstable()
}

/// Sorts the samples and reads off min, max and the 25th, 50th, 75th, 90th,
/// 95th and 99th percentiles (the sample at index `n * p / 100`).
pub fn summarize(samples: &mut Vec<u64>, total: u64) -> (r: Results)
    requires
        old(samples).len() > 0,
        old(samples).len() * 99 <= usize::MAX,
    ensures
        final(samples)@.len() == old(samples)@.len(),
        final(samples)@.to_multiset() == old(samples)@.to_multiset(),
        sorted(final(samples)@),
        r.n == old(samples).len(),
        r.total == total,
        r.min == final(samples)@[0],
        r.max == final(samples)@[r.n - 1],
        r.p25 == final(samples)@[rank(r.n as int, 25)],
        r.median == final(samples)@[(r.n / 2) as int],
        r.p75 == final(samples)@[rank(r.n as int, 75)],
        r.p90 == final(samples)@[rank(r.n as int, 90)],
        r.p95 == final(samples)@[rank(r.n as int, 95)],
        r.p99 == final(samples)@[rank(r.n as int, 99)],
{
    sort_unstable(samples);
    let n = samples.len();
    assert(rank(n as int, 99) < n) by (nonlinear_arith)
        requires
            n > 0,
    ;
    assert(rank(n as int, 25) <= rank(n as int, 99)) by (nonlinear_arith)
        requires
            n > 0,
    ;
    assert(rank(n as int, 75) <= rank(n as int, 99)) by (nonlinear_arith)
        requires
            n > 0,
    ;
    assert(rank(n as int, 90) <= rank(n as int, 99)) by (nonlinear_arith)
        requires
            n > 0,
    ;
    assert(rank(n as int, 95) <= rank(n as int, 99)) by (nonlinear_arith)
        requires
            n > 0,
    ;
    Results {
        min: samples[0],
        max: samples[n - 1],
        p25: samples[n * 25 / 100],
        median: samples[n / 2],
        p75: samples[n * 75 / 100],
        p90: samples[n * 90 / 100],
        p95: samples[n * 95 / 100],
        p99: samples[n * 99 / 100],
        total,
        n,
    }
}

} // verus!
