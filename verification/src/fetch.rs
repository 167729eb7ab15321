//! Fetching the next challenge ahead of time.
use vstd::prelude::*;

verus! {

/// A challenge is asked for at most this many times.
pub const FETCH_ATTEMPTS: u32 = 10;

/// The pause before every attempt but the first, in seconds.
pub const FETCH_PAUSE_SECS: u64 = 5;

/// What came back from one attempt.
#[derive(Clone, Copy, Debug, PartialEq, Eq, Structural)]
pub enum FetchReply {
    /// A challenge.
    Received,
    /// An answer that is no challenge.
    Unreadable,
    /// No answer.
    Failed,
}

/// What to do with a reply.
#[derive(Clone, Copy, Debug, PartialEq, Eq, Structural)]
pub enum FetchAction {
    /// Hand the challenge on; no more attempts follow.
    Deliver,
    /// Say that the attempt failed.
    Complain,
    /// Pass over the answer.
    Ignore,
}

/// What to do with the reply to the request for an account's first challenge.
#[derive(Clone, Copy, Debug, PartialEq, Eq, Structural)]
pub enum FirstAction {
    /// Begin with the challenge.
    Begin,
    /// Give up on the account: the answer is no challenge.
    StopUnreadable,
    /// Give up on the account: there was no answer.
    StopUnreached,
}

/// Tells what to do with the reply to the request for an account's first challenge. There is no
/// second attempt at it.
pub fn first_action(reply: FetchReply) -> (action: FirstAction)
    ensures
        action == match reply {
            FetchReply::Received => FirstAction::Begin,
            FetchReply::Unreadable => FirstAction::StopUnreadable,
            FetchReply::Failed => FirstAction::StopUnreached,
        },
{
    match reply {
        FetchReply::Received => FirstAction::Begin,
        FetchReply::Unreadable => FirstAction::StopUnreadable,
        FetchReply::Failed => FirstAction::StopUnreached,
    }
}

/// The attempts used up once `reply` has come to an attempt, `used` being used up by then.
pub open spec fn used_after(used: nat, reply: FetchReply) -> nat {
    if reply is Received {
        FETCH_ATTEMPTS as nat
    } else {
        used
    }
}

/// The attempts used up when the attempts bring `replies`, for as long as there are attempts.
pub open spec fn used_after_all(replies: Seq<FetchReply>) -> nat
    decreases replies.len(),
{
    if replies.len() == 0 {
        0
    } else {
        let used = used_after_all(replies.drop_last());
        if used < FETCH_ATTEMPTS {
            used_after(used + 1, replies.last())
        } else {
            used
        }
    }
}

/// The attempts at one challenge.
pub struct Prefetch {
    attempt: u32,
}

impl View for Prefetch {
    type V = nat;

    /// How many attempts have been used up.
    closed spec fn view(&self) -> nat {
        self.attempt as nat
    }
}

impl Prefetch {
    /// No more attempts are used up than there are.
    pub open spec fn wf(&self) -> bool {
        self@ <= FETCH_ATTEMPTS
    }

    /// All attempts are open.
    pub fn new() -> (prefetch: Self)
        ensures
            prefetch.wf(),
            prefetch@ == 0,
    {
        Prefetch { attempt: 0 }
    }

    /// Takes up the next attempt and tells how many seconds to wait before it, or that no attempt
    /// is left.
    pub fn next_attempt(&mut self) -> (pause: Option<u64>)
        requires
            old(self).wf(),
        ensures
            final(self).wf(),
            old(self)@ < FETCH_ATTEMPTS ==> final(self)@ == old(self)@ + 1 && pause == Some(
                if old(self)@ > 0 {
                    FETCH_PAUSE_SECS
                } else {
                    0
                },
            ),
            old(self)@ == FETCH_ATTEMPTS ==> final(self)@ == old(self)@ && pause is None,
            old(self)@ < 10 <==> pause is Some,
            final(self)@ == old(self)@ + if pause is Some {
                1nat
            } else {
                0
            },
            pause matches Some(secs) ==> secs == if old(self)@ == 0 {
                0u64
            } else {
                5
            },
    {
        if self.attempt >= FETCH_ATTEMPTS {
            return None;
        }
        let pause: u64 = if self.attempt > 0 {
            FETCH_PAUSE_SECS
        } else {
            0
        };
        self.attempt = self.attempt + 1;
        Some(pause)
    }

    /// Tells what to do with `reply`; a challenge ends the attempts.
    pub fn note(&mut self, reply: FetchReply) -> (action: FetchAction)
        requires
            old(self).wf(),
        ensures
            final(self).wf(),
            action == match reply {
                FetchReply::Received => FetchAction::Deliver,
                FetchReply::Unreadable => FetchAction::Ignore,
                FetchReply::Failed => FetchAction::Complain,
            },
            final(self)@ == used_after(old(self)@, reply),
            final(self)@ == if reply is Received {
                10
            } else {
                old(self)@
            },
    {
        match reply {
            FetchReply::Received => {
                self.attempt = FETCH_ATTEMPTS;
                FetchAction::Deliver
            },
            FetchReply::Unreadable => FetchAction::Ignore,
            FetchReply::Failed => FetchAction::Complain,
        }
    }
}

/// What a reply does to the attempts: a challenge uses up all ten of them, and anything else none.
pub proof fn law_challenge_uses_up_the_attempts(used: nat, reply: FetchReply)
    ensures
        reply == FetchReply::Received ==> used_after(used, reply) == 10,
        reply != FetchReply::Received ==> used_after(used, reply) == used,
{
}

/// How many attempts are used up by all the replies: one by each of them up to the tenth, or all ten
/// once one of them is a challenge.
pub proof fn law_at_most_ten_attempts(replies: Seq<FetchReply>, i: int)
    ensures
        0 <= i < replies.len() && replies[i] == FetchReply::Received ==> used_after_all(replies)
            == 10,
        (forall|j: int| 0 <= j < replies.len() ==> #[trigger] replies[j] != FetchReply::Received)
            ==> used_after_all(replies) == if replies.len() < 10 {
            replies.len()
        } else {
            10
        },
{
    law_attempts_end(replies);
}

/// No more than ten attempts are ever used up.
pub proof fn law_attempts_are_ten(prefetch: Prefetch)
    ensures
        prefetch.wf() <==> prefetch@ <= 10,
{
}

/// Attempts follow until a challenge comes, and there are never more than the limit: without a
/// challenge among the replies each of them took one attempt up to the limit, and once there is
/// one no attempt is left.
pub proof fn law_attempts_end(replies: Seq<FetchReply>)
    ensures
        used_after_all(replies) <= FETCH_ATTEMPTS,
        !replies.contains(FetchReply::Received) ==> used_after_all(replies) == if replies.len()
            < FETCH_ATTEMPTS {
            replies.len()
        } else {
            FETCH_ATTEMPTS as nat
        },
        replies.contains(FetchReply::Received) ==> used_after_all(replies) == FETCH_ATTEMPTS,
    decreases replies.len(),
{
    if replies.len() > 0 {
        let before = replies.drop_last();
        law_attempts_end(before);
        assert(replies.contains(FetchReply::Received) <==> before.contains(FetchReply::Received)
            || replies.last() == FetchReply::Received) by {
            if before.contains(FetchReply::Received) {
                let i = before.index_of(FetchReply::Received);
                assert(replies[i] == FetchReply::Received);
            }
            if replies.contains(FetchReply::Received) {
                let i = replies.index_of(FetchReply::Received);
                if i < before.len() {
                    assert(before[i] == FetchReply::Received);
                }
            }
            assert(replies[replies.len() - 1] == replies.last());
        }
    }
}

} // verus!
