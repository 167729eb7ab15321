//! Which accounts to mine for, and how many threads each of them gets.
use crate::text::{
    chars_of, find, is_space, law_occurrence_by_character, law_only_one_way_to_split,
    law_trimmed_is_the_middle, lemma_find, occurs_at, parse_count, parsed_count, pieces, stands_at,
    stands_in, trim_end, trim_start, trimmed, trimmed_string,
};
use vstd::arithmetic::div_mod::{
    lemma_basic_div, lemma_div_non_zero, lemma_fundamental_div_mod,
    lemma_fundamental_div_mod_converse, lemma_mod_bound, lemma_small_mod,
};
use vstd::arithmetic::mul::lemma_mul_is_commutative;
use vstd::prelude::*;

verus! {

/// `num_cpus::get`: how many CPUs this process may use, at least one. The number depends on the
/// machine and on the limits set for the process, so no more is claimed of it.
pub assume_specification[ num_cpus::get ]() -> (cpus: usize)
    ensures
        cpus >= 1,
;

/// What stands between two accounts on one line.
pub open spec fn account_separator() -> Seq<char> {
    seq!['|', '|', '|']
}

/// What stands between two accounts where the separator does not occur.
pub open spec fn line_separator() -> Seq<char> {
    seq!['\n']
}

/// A trimmed piece of the setting that names an account: it is neither empty nor a comment.
pub open spec fn is_account(piece: Seq<char>) -> bool {
    piece.len() > 0 && piece[0] != '#'
}

/// The accounts among `parts`, trimmed.
pub open spec fn accounts_among(parts: Seq<Seq<char>>) -> Seq<Seq<char>>
    decreases parts.len(),
{
    if parts.len() == 0 {
        Seq::empty()
    } else {
        let before = accounts_among(parts.drop_last());
        let last = trimmed(parts.last());
        if is_account(last) {
            before.push(last)
        } else {
            before
        }
    }
}

/// The accounts that the setting `raw` lists: between separators where one occurs, else one to
/// the line.
pub open spec fn account_list(raw: Seq<char>) -> Seq<Seq<char>> {
    if find(raw, account_separator(), 0) is Some {
        accounts_among(pieces(raw, account_separator(), 0))
    } else {
        accounts_among(pieces(raw, line_separator(), 0))
    }
}

/// The texts of `strings`.
pub open spec fn texts(strings: Seq<String>) -> Seq<Seq<char>> {
    strings.map_values(|s: String| s@)
}

/// Why there is nobody to mine for.
#[derive(Clone, Copy, Debug, PartialEq, Eq, Structural)]
pub enum AccountsError {
    /// The setting is missing.
    Missing,
    /// The setting lists no account.
    Empty,
}

/// Adds the piece from `from` up to `to` to `accounts`, if it names one.
fn push_account(accounts: &mut Vec<String>, chars: &Vec<char>, from: usize, to: usize)
    requires
        from <= to <= chars@.len(),
    ensures
        ({
            let piece = trimmed(chars@.subrange(from as int, to as int));
            texts(final(accounts)@) == if is_account(piece) {
                texts(old(accounts)@).push(piece)
            } else {
                texts(old(accounts)@)
            }
        }),
{
    let account = trimmed_string(chars, from, to);
    let begin = chars_of(account.as_str());
    if begin.len() > 0 && begin[0] != '#' {
        accounts.push(account);
        assert(texts(accounts@) =~= texts(old(accounts)@).push(account@));
    }
}

/// The accounts among the pieces of `chars` between one `sep` and the next.
fn split_accounts(chars: &Vec<char>, sep: &Vec<char>) -> (accounts: Vec<String>)
    requires
        sep@.len() > 0,
    ensures
        texts(accounts@) == accounts_among(pieces(chars@, sep@, 0)),
{
    let len = chars.len();
    let mut accounts: Vec<String> = Vec::new();
    let mut from: usize = 0;
    let mut at: usize = 0;
    let ghost mut done: Seq<Seq<char>> = Seq::empty();
    assert(texts(accounts@) =~= accounts_among(done));
    assert(done + pieces(chars@, sep@, 0) =~= pieces(chars@, sep@, 0));
    while at < len
        invariant
            from <= at <= len == chars@.len(),
            sep@.len() > 0,
            texts(accounts@) == accounts_among(done),
            pieces(chars@, sep@, 0) == done + pieces(chars@, sep@, from as int),
            forall|j: int| from <= j < at ==> !#[trigger] occurs_at(chars@, sep@, j),
        decreases len - at,
    {
        if stands_at(chars, sep, at) {
            push_account(&mut accounts, chars, from, at);
            proof {
                lemma_find(chars@, sep@, from as int);
                assert(find(chars@, sep@, from as int) == Some(at as int));
                let piece = chars@.subrange(from as int, at as int);
                assert(done.push(piece).drop_last() =~= done);
                assert(done + pieces(chars@, sep@, from as int) =~= done.push(piece) + pieces(
                    chars@,
                    sep@,
                    at + sep@.len(),
                ));
                done = done.push(piece);
            }
            at = at + sep.len();
            from = at;
        } else {
            at = at + 1;
        }
    }
    push_account(&mut accounts, chars, from, len);
    proof {
        lemma_find(chars@, sep@, from as int);
        let piece = chars@.subrange(from as int, len as int);
        assert(done.push(piece).drop_last() =~= done);
        assert(pieces(chars@, sep@, 0) =~= done.push(piece));
    }
    accounts
}

/// Reads the list of accounts: cookies separated by `|||`, or one cookie to the line. White space
/// round a cookie does not count; empty pieces and those that begin with `#` are left out.
pub fn parse_accounts(raw: &str) -> (accounts: Vec<String>)
    ensures
        texts(accounts@) == account_list(raw@),
{
    let chars = chars_of(raw);
    let mut bars: Vec<char> = Vec::new();
    bars.push('|');
    bars.push('|');
    bars.push('|');
    assert(bars@ =~= account_separator());
    if stands_in(&chars, &bars) {
        split_accounts(&chars, &bars)
    } else {
        let mut line_end: Vec<char> = Vec::new();
        line_end.push('\n');
        assert(line_end@ =~= line_separator());
        split_accounts(&chars, &line_end)
    }
}

/// Reads the list of accounts from a setting that may be missing. At least one account has to be
/// listed.
pub fn load_accounts(raw: Option<&str>) -> (result: Result<Vec<String>, AccountsError>)
    ensures
        match result {
            Ok(accounts) => {
                &&& raw matches Some(text) && texts(accounts@) == account_list(text@)
                &&& accounts@.len() > 0
            },
            Err(AccountsError::Missing) => raw is None,
            Err(AccountsError::Empty) => raw matches Some(text) && account_list(text@).len() == 0,
        },
{
    match raw {
        None => Err(AccountsError::Missing),
        Some(text) => {
            let accounts = parse_accounts(text);
            assert(texts(accounts@).len() == accounts@.len());
            if accounts.len() == 0 {
                Err(AccountsError::Empty)
            } else {
                Ok(accounts)
            }
        },
    }
}

/// The number of threads in all: what the setting says, where it is a number that fits, else the
/// number of CPUs.
pub fn total_threads_with(setting: Option<&str>, cpus: usize) -> (threads: usize)
    ensures
        threads == match setting {
            Some(text) => match parsed_count(text@) {
                Some(n) => n,
                None => cpus,
            },
            None => cpus,
        },
{
    match setting {
        Some(text) => match parse_count(text) {
            Some(n) => n,
            None => cpus,
        },
        None => cpus,
    }
}

/// The number of threads in all on this machine: what the setting says, else the number of CPUs,
/// of which there is at least one. They are counted only where the setting does not say.
pub fn total_threads(setting: Option<&str>) -> (threads: usize)
    ensures
        match setting {
            Some(text) => match parsed_count(text@) {
                Some(n) => threads == n,
                None => threads >= 1,
            },
            None => threads >= 1,
        },
{
    if let Some(text) = setting {
        if let Some(n) = parse_count(text) {
            return n;
        }
    }
    total_threads_with(setting, num_cpus::get())
}

/// Whether the setting asks for a probe: it is exactly `1`.
pub fn probe_requested(setting: Option<&str>) -> (requested: bool)
    ensures
        requested == (setting matches Some(text) && text@ == seq!['1']),
{
    match setting {
        Some(text) => {
            let chars = chars_of(text);
            if chars.len() == 1 && chars[0] == '1' {
                assert(text@ =~= seq!['1']);
                true
            } else {
                assert(text@.len() != 1 || text@[0] != '1');
                false
            }
        },
        None => false,
    }
}

/// The threads of the `i`-th of `accounts` accounts: an even part of the total, one more for each
/// of the first accounts while the remainder lasts, and never none.
pub open spec fn share(total: nat, accounts: nat, i: nat) -> nat {
    let even = total / accounts + if i < total % accounts {
        1nat
    } else {
        0
    };
    if even < 1 {
        1
    } else {
        even
    }
}

/// One account's part of the work.
pub struct AccountJob {
    pub cookie: String,
    pub threads: usize,
    /// The account's place in the list, from 0 on.
    pub idx: usize,
    /// Whether this account probes the API first.
    pub probe: bool,
}

/// `jobs` gives each account its place, its share of the threads, and the probe to the first one
/// if there is to be a probe.
pub open spec fn jobs_for(
    accounts: Seq<String>,
    total_threads: usize,
    do_probe: bool,
    jobs: Seq<AccountJob>,
) -> bool {
    &&& jobs.len() == accounts.len()
    &&& forall|i: int| #![trigger jobs[i]]
        0 <= i < jobs.len() ==> {
            &&& jobs[i].cookie@ == accounts[i]@
            &&& jobs[i].threads == share(total_threads as nat, accounts.len(), i as nat)
            &&& jobs[i].idx == i
            &&& jobs[i].probe == (do_probe && i == 0)
        }
}

/// Shares the threads out among the accounts.
pub fn assign_accounts(
    accounts: &Vec<String>,
    total_threads: usize,
    do_probe: bool,
) -> (jobs: Vec<AccountJob>)
    requires
        accounts@.len() > 0,
    ensures
        jobs_for(accounts@, total_threads, do_probe, jobs@),
        jobs@.len() == accounts@.len(),
        forall|i: int| #![trigger jobs@[i]]
            0 <= i < jobs@.len() ==> {
                &&& jobs@[i].cookie@ == accounts@[i]@
                &&& jobs@[i].idx == i
                &&& jobs@[i].probe == (do_probe && i == 0)
                &&& jobs@[i].threads >= 1
            },
{
    let count = accounts.len();
    let base: usize = total_threads / count;
    let remainder: usize = total_threads % count;
    let mut jobs: Vec<AccountJob> = Vec::new();
    let mut i: usize = 0;
    while i < count
        invariant
            i <= count == accounts@.len(),
            base == total_threads as nat / count as nat,
            remainder == total_threads as nat % count as nat,
            jobs@.len() == i,
            forall|j: int| #![trigger jobs@[j]]
                0 <= j < i ==> {
                    &&& jobs@[j].cookie@ == accounts@[j]@
                    &&& jobs@[j].threads == share(total_threads as nat, count as nat, j as nat)
                    &&& jobs@[j].idx == j
                    &&& jobs@[j].probe == (do_probe && j == 0)
                },
        decreases count - i,
    {
        proof {
            lemma_fundamental_div_mod(total_threads as int, count as int);
            lemma_mod_bound(total_threads as int, count as int);
            assert(remainder > 0 ==> base < usize::MAX) by (nonlinear_arith)
                requires
                    total_threads == count * base + remainder,
                    count >= 1,
                    base >= 0,
            ;
        }
        let mut threads: usize = if i < remainder {
            base + 1
        } else {
            base
        };
        if threads < 1 {
            threads = 1;
        }
        jobs.push(
            AccountJob { cookie: accounts[i].clone(), threads, idx: i, probe: do_probe && i == 0 },
        );
        i = i + 1;
    }
    jobs
}

/// The threads of the first `k` accounts together.
pub open spec fn shares_of_first(total: nat, accounts: nat, k: nat) -> nat
    decreases k,
{
    if k == 0 {
        0
    } else {
        shares_of_first(total, accounts, (k - 1) as nat) + share(total, accounts, (k - 1) as nat)
    }
}

proof fn lemma_shares_of_first(total: nat, accounts: nat, k: nat)
    requires
        0 < accounts,
        k <= accounts,
    ensures
        total >= accounts ==> shares_of_first(total, accounts, k) == k * (total / accounts) + if k
            < total % accounts {
            k
        } else {
            total % accounts
        },
        total < accounts ==> shares_of_first(total, accounts, k) == k,
    decreases k,
{
    let base = total / accounts;
    lemma_fundamental_div_mod(total as int, accounts as int);
    lemma_mod_bound(total as int, accounts as int);
    if total < accounts {
        lemma_small_mod(total, accounts);
        lemma_basic_div(total as int, accounts as int);
    } else {
        lemma_div_non_zero(total as int, accounts as int);
    }
    if k > 0 {
        lemma_shares_of_first(total, accounts, (k - 1) as nat);
        assert(k * base == (k - 1) * base + base) by (nonlinear_arith)
            requires
                k > 0,
        ;
    } else {
        assert(k * base == 0) by (nonlinear_arith)
            requires
                k == 0,
        ;
    }
}

/// The accounts' shares use up the threads exactly; where there are more accounts than threads,
/// each account still gets one.
pub proof fn law_shares_use_all_threads(total: nat, accounts: nat)
    requires
        0 < accounts,
    ensures
        shares_of_first(total, accounts, accounts) == if total < accounts {
            accounts
        } else {
            total
        },
{
    lemma_shares_of_first(total, accounts, accounts);
    lemma_fundamental_div_mod(total as int, accounts as int);
    lemma_mod_bound(total as int, accounts as int);
}

/// The threads are shared evenly: no two accounts differ by more than one, an earlier account
/// never has fewer, and no account has none.
pub proof fn law_shares_are_even(total: nat, accounts: nat, i: nat, j: nat)
    requires
        i <= j < accounts,
    ensures
        share(total, accounts, j) <= share(total, accounts, i) <= share(total, accounts, j) + 1,
        1 <= share(total, accounts, j),
{
}

/// A share by the division that it comes from: where each account gets `each` threads and `left` of
/// them are left over, the first `left` accounts get one more. An account that would get none gets
/// one.
pub proof fn law_share_by_division(total: nat, accounts: nat, each: nat, left: nat, i: nat)
    requires
        total == accounts * each + left,
        left < accounts,
        i < accounts,
    ensures
        each > 0 && i < left ==> share(total, accounts, i) == each + 1,
        each > 0 && i >= left ==> share(total, accounts, i) == each,
        each == 0 ==> share(total, accounts, i) == 1,
{
    lemma_mul_is_commutative(accounts as int, each as int);
    lemma_fundamental_div_mod_converse(total as int, accounts as int, each as int, left as int);
}

/// All shares together are all the threads, or one for each account where there are fewer threads
/// than accounts.
pub proof fn law_shares_add_up(total: nat, accounts: nat)
    requires
        0 < accounts,
    ensures
        Seq::new(accounts, |i: int| share(total, accounts, i as nat)).fold_left(
            0nat,
            |sum: nat, part: nat| sum + part,
        ) == if total < accounts {
            accounts
        } else {
            total
        },
{
    lemma_shares_fold(total, accounts, accounts);
    law_shares_use_all_threads(total, accounts);
}

proof fn lemma_shares_fold(total: nat, accounts: nat, k: nat)
    ensures
        Seq::new(k, |i: int| share(total, accounts, i as nat)).fold_left(
            0nat,
            |sum: nat, part: nat| sum + part,
        ) == shares_of_first(total, accounts, k),
    decreases k,
{
    let one = |i: int| share(total, accounts, i as nat);
    if k > 0 {
        lemma_shares_fold(total, accounts, (k - 1) as nat);
        assert(Seq::new(k, one).drop_last() =~= Seq::new((k - 1) as nat, one));
        assert(Seq::new(k, one).last() == share(total, accounts, (k - 1) as nat));
    }
}

/// What is handed out: every account has one job, in the order of the list, with its own cookie,
/// its place and its share, and no account but the first probes.
pub proof fn law_every_account_has_its_job(
    accounts: Seq<String>,
    total_threads: usize,
    do_probe: bool,
    jobs: Seq<AccountJob>,
)
    requires
        jobs_for(accounts, total_threads, do_probe, jobs),
    ensures
        jobs.len() == accounts.len(),
        forall|i: int| #![trigger jobs[i]]
            0 <= i < jobs.len() ==> {
                &&& jobs[i].cookie@ == accounts[i]@
                &&& jobs[i].threads == share(total_threads as nat, accounts.len(), i as nat)
                &&& jobs[i].idx == i
                &&& jobs[i].probe == (do_probe && i == 0)
            },
{
}

/// Every account that is read is free of white space at its ends, is not empty and is no comment.
pub proof fn law_accounts_are_clean(raw: Seq<char>, i: int)
    requires
        0 <= i < account_list(raw).len(),
    ensures
        is_account(account_list(raw)[i]),
        !is_space(account_list(raw)[i].first()),
        !is_space(account_list(raw)[i].last()),
{
    if find(raw, account_separator(), 0) is Some {
        lemma_among_are_clean(pieces(raw, account_separator(), 0), i);
    } else {
        lemma_among_are_clean(pieces(raw, line_separator(), 0), i);
    }
}

proof fn lemma_among_are_clean(parts: Seq<Seq<char>>, i: int)
    requires
        0 <= i < accounts_among(parts).len(),
    ensures
        is_account(accounts_among(parts)[i]),
        !is_space(accounts_among(parts)[i].first()),
        !is_space(accounts_among(parts)[i].last()),
    decreases parts.len(),
{
    let before = accounts_among(parts.drop_last());
    if i < before.len() {
        lemma_among_are_clean(parts.drop_last(), i);
    } else {
        lemma_trimmed_ends(parts.last());
    }
}

proof fn lemma_trimmed_ends(s: Seq<char>)
    ensures
        trimmed(s).len() > 0 ==> !is_space(trimmed(s).first()) && !is_space(trimmed(s).last()),
{
    lemma_trim_start_first(s);
    lemma_trim_end_last(trim_start(s));
}

proof fn lemma_trim_start_first(s: Seq<char>)
    ensures
        trim_start(s).len() > 0 ==> !is_space(trim_start(s).first()),
    decreases s.len(),
{
    if s.len() > 0 && is_space(s.first()) {
        lemma_trim_start_first(s.drop_first());
    }
}

proof fn lemma_trim_end_last(s: Seq<char>)
    ensures
        trim_end(s).len() > 0 ==> !is_space(trim_end(s).last()) && trim_end(s).first() == s.first(),
    decreases s.len(),
{
    if s.len() > 0 && is_space(s.last()) {
        lemma_trim_end_last(s.drop_last());
        if s.len() == 1 {
            assert(s.drop_last() =~= Seq::<char>::empty());
        }
    }
}

/// `cookies` with the separator between them.
pub open spec fn joined(cookies: Seq<Seq<char>>) -> Seq<char>
    decreases cookies.len(),
{
    if cookies.len() == 0 {
        Seq::empty()
    } else if cookies.len() == 1 {
        cookies[0]
    } else {
        cookies[0] + account_separator() + joined(cookies.drop_first())
    }
}

/// A cookie that a list can hold: an account without white space at its ends and without the
/// separator in it.
pub open spec fn listable(cookie: Seq<char>) -> bool {
    &&& is_account(cookie)
    &&& trimmed(cookie) == cookie
    &&& find(cookie, account_separator(), 0) is None
}

/// Cookies joined by the separator are read back as they were, whatever their length. None of them
/// may be empty, begin with `#`, have white space at an end or hold the separator. A cookie that
/// ends in `|` can only stand last, and a single one must not hold a line break.
pub proof fn law_joined_accounts_read_back(cookies: Seq<Seq<char>>)
    requires
        forall|i: int| #![trigger cookies[i]]
            0 <= i < cookies.len() ==> {
                &&& cookies[i].len() > 0
                &&& cookies[i][0] != '#'
                &&& !is_space(cookies[i][0])
                &&& !is_space(cookies[i][cookies[i].len() - 1])
            },
        ({
            let bars = seq!['|', '|', '|'];
            forall|i: int, j: int|
                0 <= i < cookies.len() ==> !#[trigger] occurs_at(cookies[i], bars, j)
        }),
        forall|i: int| 0 <= i < cookies.len() - 1 ==> (#[trigger] cookies[i]).last() != '|',
        cookies.len() == 1 ==> !cookies[0].contains('\n'),
    ensures
        account_list(joined(cookies)) == cookies,
{
    let raw = joined(cookies);
    let sep = account_separator();
    assert forall|i: int| 0 <= i < cookies.len() implies listable(#[trigger] cookies[i]) by {
        let cookie = cookies[i];
        lemma_trimmed_already(cookie);
        lemma_find(cookie, sep, 0);
        if let Some(j) = find(cookie, sep, 0) {
            let bars = seq!['|', '|', '|'];
            assert(!occurs_at(cookies[i], bars, j));
        }
    }
    if cookies.len() == 1 {
        lemma_no_line_end(cookies[0]);
    }
    assert(accounts_among(cookies) =~= cookies) by {
        lemma_accounts_among_accounts(cookies);
    }
    if cookies.len() == 0 {
        lemma_find(raw, sep, 0);
        lemma_find(raw, line_separator(), 0);
        assert(raw.subrange(0, 0) =~= raw);
        assert(pieces(raw, line_separator(), 0) =~= seq![raw]);
        reveal_with_fuel(accounts_among, 2);
        assert(seq![raw].drop_last() =~= Seq::<Seq<char>>::empty());
        assert(account_list(raw) =~= cookies);
    } else if cookies.len() == 1 {
        assert(listable(cookies[0]));
        assert(pieces(raw, line_separator(), 0) =~= cookies) by {
            assert(raw.subrange(0, raw.len() as int) =~= raw);
        }
    } else {
        assert(raw.subrange(0, raw.len() as int) =~= raw);
        lemma_pieces_of_joined(raw, cookies, 0);
        lemma_find(raw, sep, 0);
        assert(cookies.len() != 1);
        if find(raw, sep, 0) is None {
            assert(pieces(raw, sep, 0).len() == 1);
        }
    }
}

/// Joined cookies by their characters: with the separator after them, they are the cookies with the
/// separator after each.
pub proof fn law_joined_puts_separators_between(cookies: Seq<Seq<char>>)
    requires
        cookies.len() > 0,
    ensures
        joined(cookies) + seq!['|', '|', '|'] == cookies.map_values(
            |c: Seq<char>| c + seq!['|', '|', '|'],
        ).flatten(),
    decreases cookies.len(),
{
    let sep = seq!['|', '|', '|'];
    let ended = |c: Seq<char>| c + sep;
    let ends = cookies.map_values(ended);
    assert(ends.first() == cookies[0] + sep);
    if cookies.len() == 1 {
        ends.lemma_flatten_one_element();
    } else {
        let others = cookies.drop_first();
        law_joined_puts_separators_between(others);
        assert(ends.drop_first() =~= others.map_values(ended));
        assert(joined(cookies) + sep =~= cookies[0] + sep + (joined(others) + sep));
    }
}

/// No piece is lost and none is made up: the accounts are the pieces of the setting, trimmed, in
/// their order, without those that are empty or begin with `#`. The pieces stand between bars where
/// three of them stand in a row anywhere, else on lines.
pub proof fn law_no_piece_is_lost(raw: Seq<char>)
    ensures
        ({
            let bars = seq!['|', '|', '|'];
            let sep = if exists|i: int| occurs_at(raw, bars, i) {
                bars
            } else {
                seq!['\n']
            };
            account_list(raw) == pieces(raw, sep, 0).map_values(
                |p: Seq<char>| trimmed(p),
            ).filter(|p: Seq<char>| p.len() > 0 && p[0] != '#')
        }),
{
    let bars = seq!['|', '|', '|'];
    lemma_find(raw, bars, 0);
    if exists|i: int| occurs_at(raw, bars, i) {
        let i = choose|i: int| occurs_at(raw, bars, i);
        assert(0 <= i && occurs_at(raw, bars, i));
        assert(find(raw, bars, 0) is Some);
    }
    lemma_accounts_are_filtered(pieces(raw, bars, 0));
    lemma_accounts_are_filtered(pieces(raw, seq!['\n'], 0));
}

proof fn lemma_accounts_are_filtered(parts: Seq<Seq<char>>)
    ensures
        accounts_among(parts) == parts.map_values(|p: Seq<char>| trimmed(p)).filter(
            |p: Seq<char>| p.len() > 0 && p[0] != '#',
        ),
    decreases parts.len(),
{
    reveal(Seq::filter);
    let trim = |p: Seq<char>| trimmed(p);
    let keep = |p: Seq<char>| p.len() > 0 && p[0] != '#';
    let mapped = parts.map_values(trim);
    if parts.len() > 0 {
        lemma_accounts_are_filtered(parts.drop_last());
        assert(mapped.drop_last() =~= parts.drop_last().map_values(trim));
        assert(mapped.last() == trimmed(parts.last()));
    } else {
        assert(mapped.filter(keep) =~= accounts_among(parts));
    }
}

/// Cookies on lines of their own are read back as they were, whatever their length, where no three
/// bars stand in a row anywhere. None of them may be empty, begin with `#`, have white space at an
/// end or hold a line break.
pub proof fn law_accounts_on_lines_read_back(raw: Seq<char>, cookies: Seq<Seq<char>>)
    requires
        cookies.len() > 0,
        raw + seq!['\n'] == cookies.map_values(|c: Seq<char>| c + seq!['\n']).flatten(),
        ({
            let bars = seq!['|', '|', '|'];
            forall|i: int| !#[trigger] occurs_at(raw, bars, i)
        }),
        forall|i: int| #![trigger cookies[i]]
            0 <= i < cookies.len() ==> {
                &&& cookies[i].len() > 0
                &&& cookies[i][0] != '#'
                &&& !is_space(cookies[i][0])
                &&& !is_space(cookies[i][cookies[i].len() - 1])
                &&& !cookies[i].contains('\n')
            },
    ensures
        account_list(raw) == cookies,
{
    let line_end = seq!['\n'];
    lemma_find(raw, account_separator(), 0);
    assert forall|i: int, j: int|
        #![trigger occurs_at(cookies[i] + line_end, line_end, j)]
        0 <= i < cookies.len() - 1 && 0 <= j < cookies[i].len() implies !occurs_at(
        cookies[i] + line_end,
        line_end,
        j,
    ) by {
        if occurs_at(cookies[i] + line_end, line_end, j) {
            law_occurrence_by_character(cookies[i] + line_end, line_end, j);
            assert(line_end[0] == '\n');
            assert((cookies[i] + line_end)[j + 0] == '\n');
            assert(cookies[i].contains('\n'));
        }
    }
    assert forall|j: int| !#[trigger] occurs_at(cookies.last(), line_end, j) by {
        if occurs_at(cookies.last(), line_end, j) {
            law_occurrence_by_character(cookies.last(), line_end, j);
            assert(line_end[0] == '\n');
            assert(cookies[cookies.len() - 1][j + 0] == '\n');
            assert(cookies[cookies.len() - 1].contains('\n'));
        }
    }
    law_only_one_way_to_split(raw, line_end, cookies);
    lemma_kept_as_they_are(cookies);
}

proof fn lemma_kept_as_they_are(cookies: Seq<Seq<char>>)
    requires
        forall|i: int| #![trigger cookies[i]]
            0 <= i < cookies.len() ==> {
                &&& cookies[i].len() > 0
                &&& cookies[i][0] != '#'
                &&& !is_space(cookies[i][0])
                &&& !is_space(cookies[i][cookies[i].len() - 1])
            },
    ensures
        accounts_among(cookies) == cookies,
    decreases cookies.len(),
{
    if cookies.len() > 0 {
        let before = cookies.drop_last();
        assert forall|i: int| #![trigger before[i]] 0 <= i < before.len() implies before[i].len() > 0
            && before[i][0] != '#' && !is_space(before[i][0]) && !is_space(
            before[i][before[i].len() - 1],
        ) by {
            assert(before[i] == cookies[i]);
        }
        lemma_kept_as_they_are(before);
        lemma_trimmed_already(cookies[cookies.len() - 1]);
        assert(before.push(cookies.last()) =~= cookies);
    } else {
        assert(accounts_among(cookies) =~= cookies);
    }
}

proof fn lemma_trimmed_already(cookie: Seq<char>)
    requires
        cookie.len() > 0,
        !is_space(cookie[0]),
        !is_space(cookie[cookie.len() - 1]),
    ensures
        trimmed(cookie) == cookie,
{
    let none = Seq::<char>::empty();
    law_trimmed_is_the_middle(none, cookie, none);
    assert(none + cookie + none =~= cookie);
}

proof fn lemma_no_line_end(cookie: Seq<char>)
    requires
        !cookie.contains('\n'),
    ensures
        find(cookie, line_separator(), 0) is None,
{
    let line_end = line_separator();
    lemma_find(cookie, line_end, 0);
    if let Some(j) = find(cookie, line_end, 0) {
        law_occurrence_by_character(cookie, line_end, j);
        assert(line_end[0] == '\n');
        assert(cookie[j + 0] == '\n');
    }
}

proof fn lemma_accounts_among_accounts(cookies: Seq<Seq<char>>)
    requires
        forall|i: int| 0 <= i < cookies.len() ==> listable(#[trigger] cookies[i]),
    ensures
        accounts_among(cookies) == cookies,
    decreases cookies.len(),
{
    if cookies.len() > 0 {
        let before = cookies.drop_last();
        assert forall|i: int| 0 <= i < before.len() implies listable(#[trigger] before[i]) by {
            assert(before[i] == cookies[i]);
        }
        lemma_accounts_among_accounts(before);
        assert(listable(cookies[cookies.len() - 1]));
        assert(before.push(cookies.last()) =~= cookies);
    } else {
        assert(accounts_among(cookies) =~= cookies);
    }
}

/// The pieces of a text from `from` on, where the rest of it is joined cookies, are the cookies.
proof fn lemma_pieces_of_joined(raw: Seq<char>, cookies: Seq<Seq<char>>, from: int)
    requires
        cookies.len() > 0,
        0 <= from <= raw.len(),
        raw.subrange(from, raw.len() as int) == joined(cookies),
        forall|i: int| 0 <= i < cookies.len() ==> listable(#[trigger] cookies[i]),
        forall|i: int| 0 <= i < cookies.len() - 1 ==> (#[trigger] cookies[i]).last() != '|',
    ensures
        pieces(raw, account_separator(), from) == cookies,
    decreases cookies.len(),
{
    let sep = account_separator();
    let rest = raw.subrange(from, raw.len() as int);
    let cookie = cookies[0];
    assert(listable(cookie));
    lemma_find(cookie, sep, 0);
    lemma_find(raw, sep, from);
    if cookies.len() == 1 {
        assert forall|j: int| from <= j implies !#[trigger] occurs_at(raw, sep, j) by {
            if occurs_at(raw, sep, j) {
                assert(cookie.subrange(j - from, j - from + 3) =~= raw.subrange(j, j + 3));
                assert(occurs_at(cookie, sep, j - from));
            }
        }
        assert(pieces(raw, sep, from) =~= cookies);
    } else {
        let n = cookie.len() as int;
        let others = cookies.drop_first();
        assert(cookie.last() != '|');
        assert(rest =~= cookie + sep + joined(others));
        assert(forall|k: int| 0 <= k < n ==> raw[from + k] == cookie[k]) by {
            assert forall|k: int| 0 <= k < n implies raw[from + k] == cookie[k] by {
                assert(rest[k] == raw[from + k]);
            }
        }
        assert(raw.subrange(from + n, from + n + 3) =~= sep) by {
            assert forall|k: int| 0 <= k < 3 implies raw[from + n + k] == sep[k] by {
                assert(rest[n + k] == raw[from + n + k]);
            }
        }
        assert forall|j: int| from <= j < from + n implies !#[trigger] occurs_at(raw, sep, j) by {
            if occurs_at(raw, sep, j) {
                let at = raw.subrange(j, j + 3);
                assert(at[0] == '|' && at[1] == '|' && at[2] == '|');
                if j + 3 <= from + n {
                    assert(cookie.subrange(j - from, j - from + 3) =~= at);
                    assert(occurs_at(cookie, sep, j - from));
                } else {
                    assert(raw[from + n - 1] == at[from + n - 1 - j]);
                    assert(cookie[n - 1] == '|');
                }
            }
        }
        assert(occurs_at(raw, sep, from + n));
        assert(find(raw, sep, from) == Some(from + n));
        assert(raw.subrange(from, from + n) =~= cookie);
        let next = from + n + 3;
        assert(raw.subrange(next, raw.len() as int) =~= joined(others)) by {
            assert(raw.subrange(next, raw.len() as int) =~= rest.subrange(n + 3, rest.len() as int));
        }
        assert forall|i: int| 0 <= i < others.len() implies listable(#[trigger] others[i]) by {
            assert(others[i] == cookies[i + 1]);
        }
        assert forall|i: int| 0 <= i < others.len() - 1 implies (#[trigger] others[i]).last()
            != '|' by {
            assert(others[i] == cookies[i + 1]);
        }
        lemma_pieces_of_joined(raw, others, next);
        assert(pieces(raw, sep, from) =~= cookies);
    }
}

} // verus!
