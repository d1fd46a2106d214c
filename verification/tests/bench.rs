use vegosh::bench::{net_cycles, overhead_step, record, summarize};

#[test]
fn net_cycles_subtracts_overhead() {
    assert_eq!(net_cycles(100, 150, 20), 30);
    assert_eq!(net_cycles(100, 110, 20), 0);
    assert_eq!(net_cycles(100, 120, 20), 0);
}

#[test]
fn overhead_step_keeps_minimum() {
    assert_eq!(overhead_step(u64::MAX, 10, 40), 30);
    assert_eq!(overhead_step(25, 10, 40), 25);
    assert_eq!(overhead_step(30, 10, 40), 30);
}

#[test]
fn record_accumulates() {
    let mut samples = Vec::new();
    let mut total = 0u64;
    record(&mut samples, &mut total, 5);
    record(&mut samples, &mut total, 7);
    assert_eq!(samples, vec![5, 7]);
    assert_eq!(total, 12);
}

#[test]
fn summarize_sorts_and_reads_percentiles() {
    let mut samples: Vec<u64> = (0..200u64).rev().collect();
    let r = summarize(&mut samples, 19900);
    assert_eq!(samples, (0..200u64).collect::<Vec<_>>());
    assert_eq!(r.n, 200);
    assert_eq!(r.min, 0);
    assert_eq!(r.max, 199);
    assert_eq!(r.p25, 50);
    assert_eq!(r.median, 100);
    assert_eq!(r.p75, 150);
    assert_eq!(r.p90, 180);
    assert_eq!(r.p95, 190);
    assert_eq!(r.p99, 198);
    assert_eq!(r.total, 19900);
}

#[test]
fn summarize_single_sample() {
    let mut samples = vec![42u64];
    let r = summarize(&mut samples, 42);
    assert_eq!((r.min, r.max, r.median, r.p99), (42, 42, 42, 42));
}
