use rpow_miner::shared::SharedStats;
use rpow_miner::stats::{Reported, Stats};

#[test]
fn totals_begin_empty() {
    let stats = Stats::new();
    assert_eq!(stats.total_hashes, 0);
    assert_eq!(stats.total_minted, 0);
}

#[test]
fn hashes_add_up() {
    let mut stats = Stats::new();
    stats.add_hashes(100_000);
    stats.add_hashes(17);
    assert_eq!(stats.total_hashes, 100_017);
    assert_eq!(stats.total_minted, 0);
}

#[test]
fn hash_total_wraps_around() {
    let mut stats = Stats::new();
    stats.add_hashes(u64::MAX);
    stats.add_hashes(3);
    assert_eq!(stats.total_hashes, 2);
}

#[test]
fn shared_totals_keep_the_beginning() {
    let mut stats = Stats::new();
    stats.add_hashes(5);
    let shared = SharedStats::new(stats);
    let snapshot = shared.snapshot();
    assert!(snapshot.start_time == stats.start_time);
    assert_eq!(snapshot.total_hashes, 5);
    assert_eq!(snapshot.total_minted, 0);
    assert!(snapshot.start_time <= std::time::Instant::now());
}

#[test]
fn order_of_adds_does_not_matter() {
    let amounts = [u64::MAX, 17, 100_000, u64::MAX - 3];
    let mut forward = Stats::new();
    let mut backward = Stats::new();
    for n in amounts.iter() {
        forward.add_hashes(*n);
    }
    for n in amounts.iter().rev() {
        backward.add_hashes(*n);
    }
    assert_eq!(forward.total_hashes, backward.total_hashes);
    let sum: u128 = amounts.iter().map(|n| *n as u128).sum();
    assert_eq!(forward.total_hashes as u128, sum % (1u128 << 64));
}

#[test]
fn reports_reach_the_totals() {
    let mut stats = Stats::new();
    let mut reported = Reported::nothing();
    reported.report(&mut stats, 12);
    reported.report(&mut stats, 30);
    assert_eq!(reported.count(), 42);
    assert_eq!(stats.total_hashes, 42);
    let shared = SharedStats::new(stats);
    shared.add_hashes(8, &mut reported);
    assert_eq!(reported.count(), 50);
    assert_eq!(shared.snapshot().total_hashes, 50);
}
