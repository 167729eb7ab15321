use rpow_miner::found::FoundFlag;
use rpow_miner::miner::{mine_range_tracked, MineAction, MineOutcome, MineRange, Mined};
use rpow_miner::shared::SharedStats;
use rpow_miner::stats::Stats;

const PREFIX: [u8; 4] = [0xde, 0xad, 0xbe, 0xef];

#[derive(Debug, PartialEq)]
enum End {
    Solved(u64, Option<u64>),
    Stopped(Option<u64>, u64),
    Exhausted,
}

fn end(mined: &Mined) -> End {
    match &mined.outcome {
        MineOutcome::Solved { nonce, winner } => End::Solved(*nonce, winner.nonce()),
        MineOutcome::Stopped { winner, tried } => End::Stopped(winner.nonce(), *tried),
        MineOutcome::Exhausted => End::Exhausted,
    }
}

/// The nonce that is found alone, and the hashes that this takes.
fn mine(prefix: &[u8], difficulty: u32, start: u64, step: u64) -> (u64, u64) {
    let found = FoundFlag::new(prefix, difficulty, step, start);
    let stats = SharedStats::new(Stats::new());
    let mined = mine_range_tracked(prefix, difficulty, start, step, &found, &stats);
    let nonce = match end(&mined) {
        End::Solved(nonce, winner) => {
            assert_eq!(winner, Some(nonce));
            nonce
        }
        other => panic!("{:?}", other),
    };
    let hashes = stats.snapshot().total_hashes;
    assert_eq!(mined.reported.count(), hashes as u128);
    // Whoever looks at the flag from now on stops at once and learns of the nonce.
    let late = mine_range_tracked(prefix, difficulty, start, step, &found, &stats);
    assert_eq!(end(&late), End::Stopped(Some(nonce), 0));
    assert_eq!(late.reported.count(), 0);
    assert_eq!(stats.snapshot().total_hashes, hashes);
    (nonce, hashes)
}

#[test]
fn mining_finds_the_first_solution() {
    assert_eq!(mine(&PREFIX, 8, 0, 1), (382, 383));
    assert_eq!(mine(&PREFIX, 12, 0, 1), (7295, 7296));
    assert_eq!(mine(&[], 6, 0, 1), (111, 112));
}

#[test]
fn mining_follows_its_progression() {
    assert_eq!(mine(&PREFIX, 12, 1, 3), (13891, 4631));
    assert_eq!(mine(&PREFIX, 12, 3, 4), (7295, 1824));
    assert_eq!(mine(&PREFIX, 12, 0, 4), (25008, 6253));
}

#[test]
fn nonces_wrap_around() {
    assert_eq!(mine(&PREFIX, 10, u64::MAX - 4, 7), (8129, 1163));
}

#[test]
fn every_nonce_solves_difficulty_zero() {
    assert_eq!(mine(&PREFIX, 0, 5, 1), (5, 1));
}

#[test]
fn every_hash_is_reported_over_full_batches() {
    assert_eq!(mine(&[8], 17, 0, 1), (124_889, 124_890));
}

#[test]
fn raised_flag_ends_the_search_without_a_hash() {
    let found = FoundFlag::new(&PREFIX, 0, 1, 9);
    let stats = SharedStats::new(Stats::new());
    let first = mine_range_tracked(&PREFIX, 0, 9, 1, &found, &stats);
    assert_eq!(end(&first), End::Solved(9, Some(9)));
    let second = mine_range_tracked(&PREFIX, 0, 0, 1, &found, &stats);
    assert_eq!(end(&second), End::Stopped(Some(9), 0));
    assert_eq!(stats.snapshot().total_hashes, 1);
}

#[test]
fn largest_nonce_raises_the_flag_but_leaves_no_winner() {
    let found = FoundFlag::new(&PREFIX, 0, 1, u64::MAX);
    let stats = SharedStats::new(Stats::new());
    let first = mine_range_tracked(&PREFIX, 0, u64::MAX, 1, &found, &stats);
    assert_eq!(end(&first), End::Solved(u64::MAX, None));
    let second = mine_range_tracked(&PREFIX, 0, 0, 1, &found, &stats);
    assert_eq!(end(&second), End::Stopped(None, 0));
}

#[test]
fn steps_report_batches_and_the_rest() {
    let mut range = MineRange::new(&[8], 17, 0, 1);
    for _ in 0..99_999 {
        assert_eq!(range.advance(false), MineAction::Continue);
    }
    assert_eq!(range.unreported(), 99_999);
    assert_eq!(range.advance(false), MineAction::Report { hashes: 100_000 });
    assert_eq!(range.unreported(), 0);
    for _ in 0..24_889 {
        assert_eq!(range.advance(false), MineAction::Continue);
    }
    assert_eq!(range.advance(true), MineAction::Stop { hashes: 24_889 });
    assert_eq!(
        range.advance(false),
        MineAction::Solved { nonce: 124_889, hashes: 24_890 }
    );
}

#[test]
fn impossible_difficulty_is_never_met() {
    let mut range = MineRange::new(&PREFIX, 257, 0, 1);
    for _ in 0..10_000 {
        assert_eq!(range.advance(false), MineAction::Continue);
    }
    assert_eq!(range.advance(true), MineAction::Stop { hashes: 10_000 });
}
