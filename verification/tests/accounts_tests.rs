use rpow_miner::accounts::{
    assign_accounts, load_accounts, parse_accounts, probe_requested, total_threads,
    total_threads_with, AccountsError,
};

fn strings(texts: &[&str]) -> Vec<String> {
    texts.iter().map(|t| t.to_string()).collect()
}

#[test]
fn one_cookie_stands_alone() {
    assert_eq!(parse_accounts("cookie1_value"), strings(&["cookie1_value"]));
}

#[test]
fn cookies_are_split_at_bars() {
    assert_eq!(
        parse_accounts("cookie1_value|||cookie2_value|||cookie3_value"),
        strings(&["cookie1_value", "cookie2_value", "cookie3_value"])
    );
    assert_eq!(parse_accounts("a||||b"), strings(&["a", "|b"]));
    assert_eq!(parse_accounts("a||b"), strings(&["a||b"]));
}

#[test]
fn cookies_are_split_at_lines_without_bars() {
    assert_eq!(parse_accounts("a\nb\r\n\nc\n"), strings(&["a", "b", "c"]));
    assert_eq!(parse_accounts("a\nb|||c"), strings(&["a\nb", "c"]));
}

#[test]
fn blanks_and_comments_are_left_out() {
    assert_eq!(
        parse_accounts("  a \n# b\n   \n\t#c\nd#\n"),
        strings(&["a", "d#"])
    );
    assert_eq!(parse_accounts("|||a||| |||#x|||\u{a0}b\u{3000}"), strings(&["a", "b"]));
}

#[test]
fn accounts_agree_with_the_standard_library() {
    for raw in [
        "", "|||", "||||||", "a", " a|||b ", "#|||x", "a\r\nb", "\n\n", "x|||y\nz", "a|||||b",
        "\u{2003}q\u{2028}\nr", "a\rb\nc\r", "|||||||",
    ] {
        let keep = |s: &str| {
            let t = s.trim().to_string();
            if t.is_empty() || t.starts_with('#') {
                None
            } else {
                Some(t)
            }
        };
        let expected: Vec<String> = if raw.contains("|||") {
            raw.split("|||").filter_map(keep).collect()
        } else {
            raw.lines().filter_map(keep).collect()
        };
        assert_eq!(parse_accounts(raw), expected);
    }
}

#[test]
fn joined_cookies_read_back() {
    let cookies = strings(&["a=b; c", "|x||y", "line\nbreak", "last|"]);
    assert_eq!(parse_accounts(&cookies.join("|||")), cookies);
}

#[test]
fn missing_and_empty_settings_are_told_apart() {
    assert_eq!(load_accounts(None), Err(AccountsError::Missing));
    assert_eq!(load_accounts(Some("")), Err(AccountsError::Empty));
    assert_eq!(load_accounts(Some(" # x \n")), Err(AccountsError::Empty));
    assert_eq!(load_accounts(Some("a|||b")), Ok(strings(&["a", "b"])));
}

#[test]
fn thread_setting_counts_where_it_is_a_number() {
    assert_eq!(total_threads_with(Some("12"), 3), 12);
    assert_eq!(total_threads_with(Some("+12"), 3), 12);
    assert_eq!(total_threads_with(Some("0"), 3), 0);
    assert_eq!(total_threads_with(Some(" 12"), 3), 3);
    assert_eq!(total_threads_with(Some("many"), 3), 3);
    assert_eq!(total_threads_with(None, 3), 3);
    assert_eq!(total_threads(Some("7")), 7);
}

#[test]
fn cpus_are_counted_without_a_setting() {
    assert_eq!(total_threads(None), num_cpus::get());
    assert_eq!(total_threads(Some("x")), num_cpus::get());
}

#[test]
fn probe_is_requested_by_one_alone() {
    assert!(probe_requested(Some("1")));
    assert!(!probe_requested(Some("11")));
    assert!(!probe_requested(Some("true")));
    assert!(!probe_requested(Some("")));
    assert!(!probe_requested(None));
}

#[test]
fn threads_are_shared_evenly() {
    let accounts = strings(&["a", "b", "c"]);
    let jobs = assign_accounts(&accounts, 8, true);
    let shares: Vec<usize> = jobs.iter().map(|j| j.threads).collect();
    assert_eq!(shares, vec![3, 3, 2]);
    assert_eq!(shares.iter().sum::<usize>(), 8);
    assert_eq!(jobs[1].cookie, "b");
    assert_eq!(jobs[2].idx, 2);
    assert!(jobs[0].probe && !jobs[1].probe && !jobs[2].probe);
}

#[test]
fn every_account_gets_a_thread() {
    let accounts = strings(&["a", "b", "c"]);
    let shares: Vec<usize> = assign_accounts(&accounts, 2, false)
        .iter()
        .map(|j| j.threads)
        .collect();
    assert_eq!(shares, vec![1, 1, 1]);
    let jobs = assign_accounts(&strings(&["a"]), 0, false);
    assert_eq!(jobs[0].threads, 1);
    assert!(!jobs[0].probe);
    assert_eq!(assign_accounts(&strings(&["a"]), usize::MAX, false)[0].threads, usize::MAX);
}
