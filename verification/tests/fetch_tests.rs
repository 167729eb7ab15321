use rpow_miner::fetch::{first_action, FetchAction, FetchReply, FirstAction, Prefetch};

#[test]
fn ten_attempts_with_pauses_between() {
    let mut prefetch = Prefetch::new();
    let mut pauses = vec![];
    while let Some(pause) = prefetch.next_attempt() {
        pauses.push(pause);
        assert_eq!(prefetch.note(FetchReply::Failed), FetchAction::Complain);
    }
    assert_eq!(pauses, vec![0, 5, 5, 5, 5, 5, 5, 5, 5, 5]);
    assert_eq!(prefetch.next_attempt(), None);
}

#[test]
fn challenge_ends_the_attempts() {
    let mut prefetch = Prefetch::new();
    assert_eq!(prefetch.next_attempt(), Some(0));
    assert_eq!(prefetch.note(FetchReply::Unreadable), FetchAction::Ignore);
    assert_eq!(prefetch.next_attempt(), Some(5));
    assert_eq!(prefetch.note(FetchReply::Received), FetchAction::Deliver);
    assert_eq!(prefetch.next_attempt(), None);
}

#[test]
fn first_challenge_has_one_attempt() {
    assert_eq!(first_action(FetchReply::Received), FirstAction::Begin);
    assert_eq!(first_action(FetchReply::Unreadable), FirstAction::StopUnreadable);
    assert_eq!(first_action(FetchReply::Failed), FirstAction::StopUnreached);
}
