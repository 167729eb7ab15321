use rpow_miner::miner::MineOutcome;
use rpow_miner::pow::{message_solves, write_nonce};
use rpow_miner::shared::SharedStats;
use rpow_miner::solver::{Challenge, Search};
use rpow_miner::stats::Stats;

fn challenge(prefix: &str, difficulty_bits: u32) -> Challenge {
    Challenge {
        challenge_id: "c-1".to_string(),
        nonce_prefix: prefix.to_string(),
        difficulty_bits,
    }
}

fn shareable<T: Send + Sync>(_: &T) {}

fn solved(outcome: &MineOutcome) -> Option<u64> {
    match outcome {
        MineOutcome::Solved { nonce, .. } => Some(*nonce),
        _ => None,
    }
}

#[test]
fn one_worker_solves_a_challenge() {
    let search = Search::new(&challenge("deadbeef", 12), 1).ok().unwrap();
    let stats = SharedStats::new(Stats::new());
    let mined = search.run_worker(0, &stats);
    assert_eq!(solved(&mined.outcome), Some(7295));
    assert_eq!(mined.reported.count(), 7296);
    assert_eq!(search.solution(&vec![mined.outcome]), Some(7295));
    assert_eq!(stats.snapshot().total_hashes, 7296);
    let mut message = vec![0xde, 0xad, 0xbe, 0xef, 0, 0, 0, 0, 0, 0, 0, 0];
    write_nonce(&mut message, 7295);
    assert!(message_solves(&message, 12));
}

#[test]
fn later_workers_stop_once_there_is_a_solution() {
    let search = Search::new(&challenge("DEADBEEF", 12), 4).ok().unwrap();
    let stats = SharedStats::new(Stats::new());
    shareable(&search);
    shareable(&stats);
    let third = search.run_worker(3, &stats).outcome;
    let zeroth = search.run_worker(0, &stats).outcome;
    let first = search.run_worker(1, &stats).outcome;
    let second = search.run_worker(2, &stats).outcome;
    assert_eq!(solved(&third), Some(7295));
    for outcome in [&zeroth, &first, &second] {
        match outcome {
            MineOutcome::Stopped { winner, .. } => assert_eq!(winner.nonce(), Some(7295)),
            _ => panic!("the worker went on"),
        }
    }
    assert_eq!(search.solution(&vec![zeroth, first, second, third]), Some(7295));
    assert_eq!(stats.snapshot().total_hashes, 1824);
}

#[test]
fn search_without_workers_has_no_solution() {
    let search = Search::new(&challenge("", 0), 0).ok().unwrap();
    assert_eq!(search.solution(&vec![]), None);
}

#[test]
fn workers_that_only_stopped_still_know_the_solution() {
    let search = Search::new(&challenge("deadbeef", 8), 2).ok().unwrap();
    let stats = SharedStats::new(Stats::new());
    let nonce = solved(&search.run_worker(0, &stats).outcome);
    let stopped = search.run_worker(1, &stats).outcome;
    assert_eq!(solved(&stopped), None);
    assert!(nonce.is_some());
    assert_eq!(search.solution(&vec![stopped]), nonce);
}

#[test]
fn challenge_with_a_bad_prefix_is_refused() {
    assert_eq!(
        Search::new(&challenge("abc", 1), 1).err(),
        Some("Hex length ganjil: 3".to_string())
    );
    assert_eq!(
        Search::new(&challenge("00zz", 1), 1).err(),
        Some("Hex invalid di pos 2: invalid digit found in string".to_string())
    );
}

/// What each of four workers finds alone at difficulty 8.
fn found_alone() -> Vec<u64> {
    let mut nonces = vec![];
    for worker in 0..4usize {
        let search = Search::new(&challenge("deadbeef", 8), 4).ok().unwrap();
        let stats = SharedStats::new(Stats::new());
        let outcome = search.run_worker(worker, &stats).outcome;
        let nonce = solved(&outcome).unwrap();
        assert_eq!(search.solution(&vec![outcome]), Some(nonce));
        nonces.push(nonce);
    }
    nonces
}

#[test]
fn workers_share_out_the_nonces() {
    // The least solution of all falls to exactly one of them.
    let nonces = found_alone();
    assert_eq!(nonces.iter().filter(|n| **n == 382).count(), 1);
    assert_eq!(nonces.iter().min(), Some(&382));
    assert_eq!(nonces[382 % 4], 382);
}

#[test]
fn delivered_nonce_is_the_least_of_its_remainder() {
    for (worker, nonce) in found_alone().into_iter().enumerate() {
        assert_eq!(nonce % 4, worker as u64);
        let mut message = vec![0xde, 0xad, 0xbe, 0xef, 0, 0, 0, 0, 0, 0, 0, 0];
        let mut smaller = worker as u64;
        while smaller < nonce {
            write_nonce(&mut message, smaller);
            assert!(!message_solves(&message, 8));
            smaller += 4;
        }
    }
}

#[test]
fn without_difficulty_a_worker_delivers_its_own_number() {
    let search = Search::new(&challenge("00", 0), 6).ok().unwrap();
    let stats = SharedStats::new(Stats::new());
    let outcome = search.run_worker(5, &stats).outcome;
    assert_eq!(solved(&outcome), Some(5));
    assert_eq!(search.solution(&vec![outcome]), Some(5));
}
