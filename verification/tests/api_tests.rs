use rpow_miner::api::{
    challenge_preview, challenge_tag, endpoint, mint_accepted, probe_paths, probe_preview, probe_shows,
    probe_verdict, refusal_text, reward_text, shows_values, MintReply, MintRequest, ProbeTally,
};
use rpow_miner::solver::Challenge;

fn challenge(id: &str) -> Challenge {
    Challenge {
        challenge_id: id.to_string(),
        nonce_prefix: "00".to_string(),
        difficulty_bits: 1,
    }
}

fn no_values() -> MintReply {
    MintReply { reward: None, amount: None, points: None, balance: None, extra: None }
}

#[test]
fn endpoints_lie_under_the_base() {
    assert_eq!(endpoint("/me"), "https://api.rpow2.com/me");
    assert_eq!(endpoint("/challenge"), "https://api.rpow2.com/challenge");
}

#[test]
fn mint_request_spells_the_nonce() {
    let request = MintRequest::new(&challenge("abc"), 7295);
    assert_eq!(request.challenge_id, "abc");
    assert_eq!(request.solution_nonce, "7295");
}

#[test]
fn challenge_tag_has_eight_bytes() {
    assert_eq!(challenge_tag(&challenge("0123456789")), "01234567");
    assert_eq!(challenge_tag(&challenge("0123")), "0123");
}

#[test]
fn reward_values_are_joined() {
    let mut reply = no_values();
    reply.reward = Some("5".to_string());
    assert_eq!(reward_text(&Some(reply), "body"), "reward=5");
    let reply = MintReply {
        reward: None,
        amount: Some("1".to_string()),
        points: Some("2".to_string()),
        balance: Some("3".to_string()),
        extra: Some("{}".to_string()),
    };
    assert_eq!(
        reward_text(&Some(reply), "body"),
        "amount=1 | points=2 | balance=3 | extra={}"
    );
}

#[test]
fn any_value_is_worth_showing() {
    assert!(!shows_values(&None));
    assert!(!shows_values(&Some(no_values())));
    let mut reply = no_values();
    reply.extra = Some("{}".to_string());
    assert!(shows_values(&Some(reply)));
}

#[test]
fn answer_without_values_is_shown_raw() {
    let body = "x".repeat(130);
    assert_eq!(reward_text(&None, &body), format!("raw={}", "x".repeat(100)));
    assert_eq!(reward_text(&Some(no_values()), "short"), "raw=short");
    assert_eq!(reward_text(&None, ""), "raw=");
}

#[test]
fn refusals_are_clipped() {
    assert_eq!(refusal_text(&"y".repeat(300)), "y".repeat(200));
    assert_eq!(refusal_text("no"), "no");
}

#[test]
fn probe_asks_for_ten_paths() {
    assert_eq!(
        probe_paths(),
        vec![
            "/me", "/leaderboard", "/stats", "/config", "/history", "/rewards", "/balance",
            "/info", "/difficulty", "/top",
        ]
    );
}

#[test]
fn probe_passes_over_missing_paths() {
    assert!(probe_shows(200));
    assert!(probe_shows(401));
    assert!(!probe_shows(404));
    assert!(!probe_shows(405));
}

#[test]
fn probe_previews_are_clipped() {
    assert_eq!(probe_preview(&"z".repeat(120)), "z".repeat(120));
    assert_eq!(probe_preview(&"z".repeat(121)), format!("{}...", "z".repeat(120)));
    assert_eq!(challenge_preview(&"z".repeat(151)), "z".repeat(150));
    assert_eq!(challenge_preview("z"), "z");
}

#[test]
fn probe_verdict_depends_on_the_count() {
    assert_eq!(probe_verdict(0), "Hanya 1 per request");
    assert_eq!(probe_verdict(1), "Hanya 1 per request");
    assert_eq!(probe_verdict(2), "BISA PARALLEL!");
}

#[test]
fn mint_takes_a_solution_with_success() {
    assert!(mint_accepted(200));
    assert!(mint_accepted(299));
    assert!(!mint_accepted(199));
    assert!(!mint_accepted(300));
    assert!(!mint_accepted(422));
}

#[test]
fn probe_counts_readable_challenges() {
    let mut tally = ProbeTally::new();
    assert_eq!(tally.next_request(), Some(1));
    tally.note(true);
    assert_eq!(tally.verdict(), "Hanya 1 per request");
    assert_eq!(tally.next_request(), Some(2));
    tally.note(false);
    assert_eq!(tally.next_request(), Some(3));
    tally.note(true);
    assert_eq!(tally.next_request(), None);
    assert_eq!(tally.count(), 2);
    assert_eq!(tally.verdict(), "BISA PARALLEL!");
}
