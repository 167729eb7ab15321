use rpow_miner::difficulty::{DifficultyGroup, DifficultyLog};
use std::time::Duration;

fn secs(n: u64) -> Duration {
    Duration::from_secs(n)
}

fn plain(groups: Vec<DifficultyGroup>) -> Vec<(u32, Vec<(u64, Duration)>)> {
    groups.into_iter().map(|g| (g.difficulty, g.samples)).collect()
}

#[test]
fn analysis_needs_two_mints() {
    let mut log = DifficultyLog::new();
    assert!(log.analysis().is_none());
    log.record(20, 1, secs(3));
    assert!(log.analysis().is_none());
    log.record(20, 2, secs(4));
    assert_eq!(
        plain(log.analysis().unwrap()),
        vec![(20, vec![(1, secs(3)), (2, secs(4))])]
    );
}

#[test]
fn mints_are_grouped_by_difficulty() {
    let mut log = DifficultyLog::new();
    log.record(22, 5, secs(1));
    log.record(20, 6, secs(2));
    log.record(24, 7, secs(3));
    log.record(20, 8, secs(4));
    log.record(22, 9, secs(5));
    assert_eq!(
        plain(log.analysis().unwrap()),
        vec![
            (20, vec![(6, secs(2)), (8, secs(4))]),
            (22, vec![(5, secs(1)), (9, secs(5))]),
            (24, vec![(7, secs(3))]),
        ]
    );
}

#[test]
fn log_keeps_the_latest_fifty() {
    let mut log = DifficultyLog::new();
    for i in 0..53u64 {
        log.record(1, i, secs(i));
    }
    let groups = plain(log.analysis().unwrap());
    assert_eq!(groups.len(), 1);
    let rewards: Vec<u64> = groups[0].1.iter().map(|s| s.0).collect();
    assert_eq!(rewards, (3..53).collect::<Vec<u64>>());
}

#[test]
fn groups_hold_every_mint() {
    let mut log = DifficultyLog::new();
    for i in 0..40u32 {
        log.record(i % 7, 1, secs(0));
    }
    let total: usize = log.analysis().unwrap().iter().map(|g| g.samples.len()).sum();
    assert_eq!(total, 40);
}
