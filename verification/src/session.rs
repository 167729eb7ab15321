//! The course of one account: what happens after each attempt at a challenge.
use crate::api::mint_accepted;
use crate::difficulty::{recorded, DifficultyLog, Entry};
use crate::text::{decimal, decimal_string};
use std::time::Duration;
use vstd::prelude::*;

verus! {

/// An account gives up once it has failed more often than this in a row.
pub const ERROR_LIMIT: u32 = 5;

/// The analysis is due after every so many mints.
pub const ANALYSIS_INTERVAL: u64 = 5;

/// What the API tells of an account.
pub struct Profile {
    pub email: Option<String>,
    /// The balance, where it is a whole number that fits.
    pub balance: Option<u64>,
}

/// Where an account stands.
pub struct SessionState {
    pub label: Seq<char>,
    /// The balance that was seen last.
    pub balance: u64,
    pub minted: u64,
    /// How many attempts have failed since the last mint.
    pub errors: u32,
}

/// How an attempt at a challenge ended.
#[derive(Clone, Copy)]
pub enum RoundEvent {
    /// No solution was found.
    Unsolved,
    /// The mint took the solution. `balance` is the balance after it, where it could be read.
    Minted { difficulty: u32, balance: Option<u64>, time: Duration },
    /// The mint refused the solution or could not be reached.
    Refused,
}

/// How an attempt ends on the mint's answer. `status` is the status of the answer, or nothing if
/// the mint could not be reached; `balance` is the balance after it, where it could be read.
pub fn mint_event(
    status: Option<u16>,
    difficulty: u32,
    balance: Option<u64>,
    time: Duration,
) -> (event: RoundEvent)
    ensures
        event == if status matches Some(s) && 200 <= s < 300 {
            RoundEvent::Minted { difficulty, balance, time }
        } else {
            RoundEvent::Refused
        },
{
    match status {
        Some(status) => if mint_accepted(status) {
            RoundEvent::Minted { difficulty, balance, time }
        } else {
            RoundEvent::Refused
        },
        None => RoundEvent::Refused,
    }
}

/// What there is to tell of a mint.
#[derive(Clone, Copy, Debug, PartialEq, Eq, Structural)]
pub struct MintReport {
    /// The number of this mint, from 1 on.
    pub number: u64,
    /// What the balance rose by.
    pub delta: u64,
    pub balance: u64,
    /// Whether the analysis is due.
    pub analysis_due: bool,
}

/// What to do after an attempt.
#[derive(Clone, Copy, Debug, PartialEq, Eq, Structural)]
pub enum RoundAction {
    /// Take the next challenge.
    Continue,
    /// Tell of the mint and take the next challenge.
    Report(MintReport),
    /// Give up on the account. `announce` tells whether to say why.
    Stop { announce: bool },
}

/// The label of an account whose address is not known.
pub open spec fn numbered_label(idx: nat) -> Seq<char> {
    "account-"@ + decimal(idx + 1)
}

/// The state in which the account at place `idx` begins.
pub open spec fn starts_as(idx: usize, profile: Option<Profile>) -> SessionState {
    SessionState {
        label: match profile {
            Some(Profile { email: Some(email), .. }) => email@,
            _ => numbered_label(idx as nat),
        },
        balance: match profile {
            Some(Profile { balance: Some(balance), .. }) => balance,
            _ => 0,
        },
        minted: 0,
        errors: 0,
    }
}

impl SessionState {
    /// The balance after a mint: the one that was read, or else the last one seen.
    pub open spec fn balance_after(self, read: Option<u64>) -> u64 {
        match read {
            Some(balance) => balance,
            None => self.balance,
        }
    }

    /// What the balance rises by to `balance`; a balance that falls counts as no rise.
    pub open spec fn rise_to(self, balance: u64) -> u64 {
        if balance > self.balance {
            (balance - self.balance) as u64
        } else {
            0
        }
    }

    /// The state after `event`.
    pub open spec fn after(self, event: RoundEvent) -> SessionState {
        match event {
            RoundEvent::Minted { difficulty: _, balance, time: _ } => SessionState {
                balance: self.balance_after(balance),
                minted: (self.minted + 1) as u64,
                errors: 0,
                ..self
            },
            _ => SessionState { errors: (self.errors + 1) as u32, ..self },
        }
    }

    /// What to do after `event`.
    pub open spec fn action(self, event: RoundEvent) -> RoundAction {
        match event {
            RoundEvent::Minted { difficulty: _, balance, time: _ } => RoundAction::Report(
                MintReport {
                    number: (self.minted + 1) as u64,
                    delta: self.rise_to(self.balance_after(balance)),
                    balance: self.balance_after(balance),
                    analysis_due: (self.minted + 1) % ANALYSIS_INTERVAL as int == 0,
                },
            ),
            RoundEvent::Unsolved => if self.errors + 1 > ERROR_LIMIT {
                RoundAction::Stop { announce: false }
            } else {
                RoundAction::Continue
            },
            RoundEvent::Refused => if self.errors + 1 > ERROR_LIMIT {
                RoundAction::Stop { announce: true }
            } else {
                RoundAction::Continue
            },
        }
    }

    /// What `event` adds to the log `entries`.
    pub open spec fn logged(self, event: RoundEvent, entries: Seq<Entry>) -> Seq<Entry> {
        match event {
            RoundEvent::Minted { difficulty, balance, time } => recorded(
                entries,
                (difficulty, self.rise_to(self.balance_after(balance)), time),
            ),
            _ => entries,
        }
    }

    /// The state after all of `events`.
    pub open spec fn after_all(self, events: Seq<RoundEvent>) -> SessionState
        decreases events.len(),
    {
        if events.len() == 0 {
            self
        } else {
            self.after_all(events.drop_last()).after(events.last())
        }
    }
}

/// One account.
pub struct Session {
    label: String,
    balance: u64,
    total_minted: u64,
    consecutive_errors: u32,
}

impl View for Session {
    type V = SessionState;

    closed spec fn view(&self) -> SessionState {
        SessionState {
            label: self.label@,
            balance: self.balance,
            minted: self.total_minted,
            errors: self.consecutive_errors,
        }
    }
}

impl Session {
    /// The account has not been given up.
    pub open spec fn running(&self) -> bool {
        self@.errors <= ERROR_LIMIT
    }

    /// Begins with the account at place `idx`, of which `profile` is known.
    pub fn start(idx: usize, profile: Option<Profile>) -> (session: Self)
        requires
            !(profile matches Some(Profile { email: Some(_), .. })) ==> idx < usize::MAX,
        ensures
            session.running(),
            session@ == starts_as(idx, profile),
    {
        let (email, balance) = match profile {
            Some(profile) => (profile.email, profile.balance),
            None => (None, None),
        };
        let label = match email {
            Some(email) => email,
            None => {
                let mut label = "account-".to_owned();
                label.append(decimal_string((idx + 1) as u64).as_str());
                label
            },
        };
        let balance = match balance {
            Some(balance) => balance,
            None => 0,
        };
        Session { label, balance, total_minted: 0, consecutive_errors: 0 }
    }

    /// Goes on from the end of an attempt; a mint goes into `log`.
    pub fn finish_round(&mut self, event: RoundEvent, log: &mut DifficultyLog) -> (action:
        RoundAction)
        requires
            old(self).running(),
            event is Minted ==> old(self)@.minted < u64::MAX,
            old(log).wf(),
        ensures
            action == old(self)@.action(event),
            final(self)@ == old(self)@.after(event),
            final(self).running() <==> !(action is Stop),
            final(log).wf(),
            final(log)@ == old(self)@.logged(event, old(log)@),
            event matches RoundEvent::Minted { difficulty, balance, time } ==> {
                let now = match balance {
                    Some(read) => read,
                    None => old(self)@.balance,
                };
                let rise = if now > old(self)@.balance {
                    now - old(self)@.balance
                } else {
                    0
                };
                &&& final(self)@.balance == now
                &&& final(self)@.minted == old(self)@.minted + 1
                &&& final(self)@.errors == 0
                &&& action matches RoundAction::Report(report) && report.number == old(self)@.minted
                    + 1 && report.balance == now && report.delta == rise
                &&& final(log)@.last() == (difficulty, rise as u64, time)
            },
            !(event is Minted) ==> {
                &&& final(self)@.balance == old(self)@.balance
                &&& final(self)@.minted == old(self)@.minted
                &&& final(self)@.errors == old(self)@.errors + 1
                &&& final(log)@ == old(log)@
                &&& action == if old(self)@.errors < 5 {
                    RoundAction::Continue
                } else {
                    RoundAction::Stop { announce: event is Refused }
                }
            },
            final(self)@.label == old(self)@.label,
    {
        match event {
            RoundEvent::Minted { difficulty, balance, time } => {
                self.total_minted = self.total_minted + 1;
                self.consecutive_errors = 0;
                let balance = match balance {
                    Some(balance) => balance,
                    None => self.balance,
                };
                let delta: u64 = if balance > self.balance {
                    balance - self.balance
                } else {
                    0
                };
                log.record(difficulty, delta, time);
                self.balance = balance;
                RoundAction::Report(
                    MintReport {
                        number: self.total_minted,
                        delta,
                        balance,
                        analysis_due: self.total_minted % ANALYSIS_INTERVAL == 0,
                    },
                )
            },
            RoundEvent::Unsolved => {
                self.consecutive_errors = self.consecutive_errors + 1;
                if self.consecutive_errors > ERROR_LIMIT {
                    RoundAction::Stop { announce: false }
                } else {
                    RoundAction::Continue
                }
            },
            RoundEvent::Refused => {
                self.consecutive_errors = self.consecutive_errors + 1;
                if self.consecutive_errors > ERROR_LIMIT {
                    RoundAction::Stop { announce: true }
                } else {
                    RoundAction::Continue
                }
            },
        }
    }

    /// The name of the account in messages.
    pub fn label(&self) -> (label: &str)
        ensures
            label@ == self@.label,
    {
        self.label.as_str()
    }

    /// The balance that was seen last.
    pub fn balance(&self) -> (balance: u64)
        ensures
            balance == self@.balance,
    {
        self.balance
    }

    /// How many mints there were.
    pub fn total_minted(&self) -> (minted: u64)
        ensures
            minted == self@.minted,
    {
        self.total_minted
    }
}

/// The number of mints among `events`.
pub open spec fn mints(events: Seq<RoundEvent>) -> nat
    decreases events.len(),
{
    if events.len() == 0 {
        0
    } else {
        mints(events.drop_last()) + if events.last() is Minted {
            1nat
        } else {
            0
        }
    }
}

/// The number of failures at the end of `events`, since the last mint.
pub open spec fn failures_in_a_row(events: Seq<RoundEvent>) -> nat
    decreases events.len(),
{
    if events.len() == 0 || events.last() is Minted {
        0
    } else {
        failures_in_a_row(events.drop_last()) + 1
    }
}

/// What the balance rose by over all of `events`, as the reports tell it.
pub open spec fn total_rise(state: SessionState, events: Seq<RoundEvent>) -> nat
    decreases events.len(),
{
    if events.len() == 0 {
        0
    } else {
        total_rise(state, events.drop_last()) + match state.after_all(events.drop_last()).action(
            events.last(),
        ) {
            RoundAction::Report(report) => report.delta as nat,
            _ => 0,
        }
    }
}

/// `events` can happen to one account: none of them comes after the account was given up.
pub open spec fn can_happen(events: Seq<RoundEvent>) -> bool {
    forall|i: int| #![trigger events.take(i)]
        0 <= i < events.len() ==> failures_in_a_row(events.take(i)) <= ERROR_LIMIT
}

/// What a mint does, by the balance that was read after it: that balance is the account's and the
/// report's from then on, and the rise is what it lies above the one before, or nothing where it
/// does not. The mint is counted, the failures are forgotten, and every fifth mint calls for the
/// analysis.
pub proof fn law_mint_follows_the_balance(
    state: SessionState,
    difficulty: u32,
    read: u64,
    time: Duration,
)
    requires
        state.minted < u64::MAX,
    ensures
        ({
            let event = RoundEvent::Minted { difficulty, balance: Some(read), time };
            let after = state.after(event);
            &&& after.balance == read
            &&& after.minted == state.minted + 1
            &&& after.errors == 0
            &&& after.label == state.label
            &&& state.action(event) matches RoundAction::Report(report) && {
                &&& report.number == state.minted + 1
                &&& report.balance == read
                &&& read >= state.balance ==> state.balance + report.delta == read
                &&& read < state.balance ==> report.delta == 0
                &&& report.analysis_due <==> (state.minted + 1) % 5 == 0
            }
        }),
{
}

/// A mint after which no balance could be read leaves the balance as it was and reports no rise.
pub proof fn law_mint_without_a_balance(state: SessionState, difficulty: u32, time: Duration)
    requires
        state.minted < u64::MAX,
    ensures
        ({
            let event = RoundEvent::Minted { difficulty, balance: None, time };
            let after = state.after(event);
            &&& after.balance == state.balance
            &&& after.minted == state.minted + 1
            &&& after.errors == 0
            &&& after.label == state.label
            &&& state.action(event) matches RoundAction::Report(report) && {
                &&& report.number == state.minted + 1
                &&& report.balance == state.balance
                &&& report.delta == 0
                &&& report.analysis_due <==> (state.minted + 1) % 5 == 0
            }
        }),
{
}

/// What a mint leaves in the log: the entry that comes last has the difficulty and the time of the
/// attempt and the rise that is reported. The entries before it stay, except that the oldest one
/// leaves where there would be more than fifty.
pub proof fn law_mint_is_logged(
    state: SessionState,
    entries: Seq<Entry>,
    difficulty: u32,
    balance: Option<u64>,
    time: Duration,
)
    requires
        entries.len() <= 50,
    ensures
        ({
            let event = RoundEvent::Minted { difficulty, balance, time };
            let logged = state.logged(event, entries);
            &&& state.action(event) matches RoundAction::Report(report) && logged.last() == (
                difficulty,
                report.delta,
                time,
            )
            &&& entries.len() < 50 ==> logged.drop_last() == entries
            &&& entries.len() == 50 ==> logged.drop_last() == entries.drop_first()
        }),
{
    let event = RoundEvent::Minted { difficulty, balance, time };
    let logged = state.logged(event, entries);
    if entries.len() < 50 {
        assert(logged.drop_last() =~= entries);
    } else {
        assert(logged.drop_last() =~= entries.drop_first());
    }
}

/// What a failure does: it is counted and changes nothing else. The account goes on after the first
/// five in a row and is given up on the sixth, which is announced only if it was the mint's.
pub proof fn law_failure_is_counted(state: SessionState, entries: Seq<Entry>, event: RoundEvent)
    requires
        state.errors <= 5,
        event is Unsolved || event is Refused,
    ensures
        state.after(event).errors == state.errors + 1,
        state.after(event).balance == state.balance,
        state.after(event).minted == state.minted,
        state.after(event).label == state.label,
        state.logged(event, entries) == entries,
        state.errors < 5 ==> state.action(event) is Continue,
        state.errors == 5 && event is Unsolved ==> state.action(event) == (RoundAction::Stop {
            announce: false,
        }),
        state.errors == 5 && event is Refused ==> state.action(event) == (RoundAction::Stop {
            announce: true,
        }),
{
}

/// Six failures in a row, of whatever kind, end a new account and any account that has just minted:
/// it goes on after each of the first five and not after the sixth.
pub proof fn law_sixth_failure_ends(state: SessionState, events: Seq<RoundEvent>, k: int)
    requires
        state.errors == 0,
        events.len() == 6,
        forall|i: int| 0 <= i < events.len() ==> !(#[trigger] events[i] is Minted),
        0 <= k < 6,
    ensures
        state.after_all(events.take(k)).errors == k,
        k < 5 ==> state.after_all(events.take(k)).action(events[k]) is Continue,
        k == 5 ==> state.after_all(events.take(k)).action(events[k]) is Stop,
    decreases k,
{
    assert(!(events[k] is Minted));
    if k > 0 {
        law_sixth_failure_ends(state, events, k - 1);
        assert(events.take(k).drop_last() =~= events.take(k - 1));
        assert(events.take(k).last() == events[k - 1]);
    }
}

/// How an account begins: nothing minted, nothing failed, the balance that is known or else none,
/// and named by its address or else by its number, counted from one.
pub proof fn law_account_begins(idx: usize, profile: Option<Profile>)
    ensures
        starts_as(idx, profile).minted == 0,
        starts_as(idx, profile).errors == 0,
        profile is None ==> starts_as(idx, profile).balance == 0 && starts_as(idx, profile).label
            == "account-"@ + decimal((idx + 1) as nat),
        profile matches Some(known) ==> {
            &&& known.email matches Some(email) ==> starts_as(idx, profile).label == email@
            &&& known.email is None ==> starts_as(idx, profile).label == "account-"@ + decimal(
                (idx + 1) as nat,
            )
            &&& known.balance matches Some(balance) ==> starts_as(idx, profile).balance == balance
            &&& known.balance is None ==> starts_as(idx, profile).balance == 0
        },
{
}

/// An account runs for as long as no more than five failures have come in a row.
pub proof fn law_running_by_failures(session: Session)
    ensures
        session.running() <==> session@.errors <= 5,
{
}

/// The counters mean what they say: whatever happens to a new account, it has counted its mints,
/// and its error count is the number of failures since the last of them. Its label never changes.
pub proof fn law_counters_count(idx: usize, profile: Option<Profile>, events: Seq<RoundEvent>)
    requires
        can_happen(events),
        mints(events) <= u64::MAX,
    ensures
        ({
            let state = starts_as(idx, profile).after_all(events);
            &&& state.minted == mints(events)
            &&& state.errors == failures_in_a_row(events)
            &&& state.label == starts_as(idx, profile).label
        }),
    decreases events.len(),
{
    if events.len() > 0 {
        let before = events.drop_last();
        assert(events.take(events.len() - 1) =~= before);
        assert forall|i: int| #![trigger before.take(i)] 0 <= i < before.len() implies
            failures_in_a_row(before.take(i)) <= ERROR_LIMIT by {
            assert(before.take(i) =~= events.take(i));
        }
        law_counters_count(idx, profile, before);
    }
}

/// An account is given up exactly when one failure more than the limit comes in a row.
pub proof fn law_stops_after_failures_in_a_row(
    idx: usize,
    profile: Option<Profile>,
    events: Seq<RoundEvent>,
    event: RoundEvent,
)
    requires
        can_happen(events.push(event)),
        mints(events) <= u64::MAX,
    ensures
        starts_as(idx, profile).after_all(events).action(event) is Stop <==> failures_in_a_row(
            events.push(event),
        ) > ERROR_LIMIT,
{
    let all = events.push(event);
    assert(all.drop_last() =~= events);
    assert(all.take(events.len() as int) =~= events);
    assert forall|i: int| #![trigger events.take(i)] 0 <= i < events.len() implies
        failures_in_a_row(events.take(i)) <= ERROR_LIMIT by {
        assert(events.take(i) =~= all.take(i));
    }
    law_counters_count(idx, profile, events);
}

/// While the balance never falls, the rises that are reported add up to the difference between
/// the last balance and the first.
pub proof fn law_rises_add_up(state: SessionState, events: Seq<RoundEvent>)
    requires
        forall|i: int| #![trigger events[i]]
            0 <= i < events.len() ==> state.after_all(events.take(i)).balance <= state.after_all(
                events.take(i + 1),
            ).balance,
    ensures
        total_rise(state, events) == state.after_all(events).balance - state.balance,
    decreases events.len(),
{
    if events.len() > 0 {
        let before = events.drop_last();
        assert forall|i: int| #![trigger before[i]] 0 <= i < before.len() implies state.after_all(
            before.take(i),
        ).balance <= state.after_all(before.take(i + 1)).balance by {
            assert(before[i] == events[i]);
            assert(before.take(i) =~= events.take(i));
            assert(before.take(i + 1) =~= events.take(i + 1));
        }
        law_rises_add_up(state, before);
        let last = events.len() - 1;
        assert(events[last] == events.last());
        assert(events.take(last) =~= before);
        assert(events.take(last + 1) =~= events);
    }
}

} // verus!
