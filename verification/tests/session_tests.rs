use rpow_miner::difficulty::DifficultyLog;
use rpow_miner::session::{mint_event, MintReport, Profile, RoundAction, RoundEvent, Session};
use std::time::Duration;

fn minted(balance: Option<u64>) -> RoundEvent {
    RoundEvent::Minted { difficulty: 20, balance, time: Duration::from_secs(2) }
}

fn profile(email: Option<&str>, balance: Option<u64>) -> Option<Profile> {
    Some(Profile { email: email.map(|e| e.to_string()), balance })
}

#[test]
fn account_is_named_by_its_address() {
    let session = Session::start(4, profile(Some("a@b.c"), Some(12)));
    assert_eq!(session.label(), "a@b.c");
    assert_eq!(session.balance(), 12);
    assert_eq!(session.total_minted(), 0);
}

#[test]
fn account_without_address_is_numbered() {
    let session = Session::start(4, profile(None, Some(12)));
    assert_eq!(session.label(), "account-5");
    assert_eq!(session.balance(), 12);
    let session = Session::start(0, None);
    assert_eq!(session.label(), "account-1");
    assert_eq!(session.balance(), 0);
    assert_eq!(Session::start(1, profile(Some("x"), None)).balance(), 0);
}

#[test]
fn mint_is_reported_and_logged() {
    let mut log = DifficultyLog::new();
    let mut session = Session::start(0, profile(None, Some(10)));
    let expected = MintReport { number: 1, delta: 5, balance: 15, analysis_due: false };
    assert_eq!(
        session.finish_round(minted(Some(15)), &mut log),
        RoundAction::Report(expected)
    );
    let expected = MintReport { number: 2, delta: 0, balance: 15, analysis_due: false };
    assert_eq!(
        session.finish_round(minted(None), &mut log),
        RoundAction::Report(expected)
    );
    let expected = MintReport { number: 3, delta: 0, balance: 9, analysis_due: false };
    assert_eq!(
        session.finish_round(minted(Some(9)), &mut log),
        RoundAction::Report(expected)
    );
    assert_eq!(session.balance(), 9);
    assert_eq!(session.total_minted(), 3);
    let groups = log.analysis().unwrap();
    assert_eq!(groups[0].difficulty, 20);
    let rewards: Vec<u64> = groups[0].samples.iter().map(|s| s.0).collect();
    assert_eq!(rewards, vec![5, 0, 0]);
}

#[test]
fn analysis_is_due_after_every_fifth_mint() {
    let mut log = DifficultyLog::new();
    let mut session = Session::start(0, None);
    for number in 1..=11u64 {
        match session.finish_round(minted(None), &mut log) {
            RoundAction::Report(report) => {
                assert_eq!(report.number, number);
                assert_eq!(report.analysis_due, number == 5 || number == 10);
            }
            other => panic!("{:?}", other),
        }
    }
}

#[test]
fn sixth_failure_in_a_row_stops_the_account() {
    let mut log = DifficultyLog::new();
    let mut session = Session::start(0, None);
    for _ in 0..5 {
        assert_eq!(
            session.finish_round(RoundEvent::Refused, &mut log),
            RoundAction::Continue
        );
    }
    assert_eq!(
        session.finish_round(RoundEvent::Refused, &mut log),
        RoundAction::Stop { announce: true }
    );
}

#[test]
fn unsolved_challenges_stop_the_account_silently() {
    let mut log = DifficultyLog::new();
    let mut session = Session::start(0, None);
    for _ in 0..3 {
        session.finish_round(RoundEvent::Refused, &mut log);
    }
    for _ in 0..2 {
        assert_eq!(
            session.finish_round(RoundEvent::Unsolved, &mut log),
            RoundAction::Continue
        );
    }
    assert_eq!(
        session.finish_round(RoundEvent::Unsolved, &mut log),
        RoundAction::Stop { announce: false }
    );
}

#[test]
fn mint_forgives_earlier_failures() {
    let mut log = DifficultyLog::new();
    let mut session = Session::start(0, None);
    for _ in 0..3 {
        for _ in 0..5 {
            assert_eq!(
                session.finish_round(RoundEvent::Unsolved, &mut log),
                RoundAction::Continue
            );
        }
        session.finish_round(minted(None), &mut log);
    }
    assert_eq!(session.total_minted(), 3);
}

#[test]
fn rises_add_up() {
    let mut log = DifficultyLog::new();
    let mut session = Session::start(0, profile(None, Some(3)));
    let mut total = 0;
    for event in [minted(Some(5)), RoundEvent::Refused, minted(None), minted(Some(11))] {
        if let RoundAction::Report(report) = session.finish_round(event, &mut log) {
            total += report.delta;
        }
    }
    assert_eq!(total, session.balance() - 3);
}

#[test]
fn mint_answers_become_events() {
    let time = Duration::from_secs(2);
    match mint_event(Some(201), 20, Some(9), time) {
        RoundEvent::Minted { difficulty, balance, time: taken } => {
            assert_eq!((difficulty, balance, taken), (20, Some(9), time));
        }
        _ => panic!("the mint took it"),
    }
    assert!(matches!(mint_event(Some(422), 20, Some(9), time), RoundEvent::Refused));
    assert!(matches!(mint_event(None, 20, None, time), RoundEvent::Refused));
}

#[test]
fn address_spares_the_number() {
    assert_eq!(Session::start(usize::MAX, profile(Some("x"), None)).label(), "x");
}
