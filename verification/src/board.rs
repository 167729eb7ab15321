//! What the workers on one challenge share, and what each of them can learn from it.
use crate::found::{after_offer, law_delivered_by_a_worker, SolutionSlot, Terms};
use crate::pow::solves;
use std::sync::atomic::{AtomicBool, Ordering};
use vstd::prelude::*;

verus! {

/// The state that the workers share. It cannot be copied, and nothing tells of another state that it
/// is in the same place, so that what is raised for a place is raised in this one.
pub struct FoundState {
    raised: bool,
    slot: SolutionSlot,
    terms: Ghost<Terms>,
    place: Ghost<int>,
}

/// What a worker learned from the state once the flag was up. Nothing but the state gives it out.
pub struct Winner {
    nonce: Option<u64>,
    terms: Ghost<Terms>,
    place: Ghost<int>,
}

/// A copy of the flag that can be looked at without the state. It goes up together with the flag and
/// never comes down, so that a worker that finds it down need not ask for the state.
pub struct Hint {
    up: AtomicBool,
    place: Ghost<int>,
}

/// A flag that was found down. Nothing but a look at it gives this out.
pub struct Unraised {
    place: Ghost<int>,
}

/// How often one worker has looked at a flag and found it down.
pub struct Watch {
    downs: Ghost<Map<int, nat>>,
}

impl Hint {
    /// Where the flag is kept.
    pub closed spec fn place(&self) -> int {
        self.place@
    }

    /// Looks whether the flag is down. When it is, is not stated: any worker may raise it.
    pub fn look(&self) -> (down: Option<Unraised>)
        ensures
            down matches Some(down) ==> down.place() == self.place(),
    {
        if self.up.load(Ordering::Relaxed) {
            None
        } else {
            Some(Unraised { place: Ghost(self.place()) })
        }
    }
}

impl Unraised {
    /// Where the flag is kept.
    pub closed spec fn place(&self) -> int {
        self.place@
    }
}

impl Watch {
    /// How often the flag of `place` was found down.
    pub closed spec fn downs_at(&self, place: int) -> nat {
        if self.downs@.dom().contains(place) {
            self.downs@[place]
        } else {
            0
        }
    }

    /// No flag has been looked at.
    pub fn new() -> (watch: Self)
        ensures
            forall|place: int| #[trigger] watch.downs_at(place) == 0,
    {
        Watch { downs: Ghost(Map::empty()) }
    }

    /// Counts a flag that was found down.
    pub fn note(&mut self, down: Unraised)
        ensures
            final(self).downs_at(down.place()) == old(self).downs_at(down.place()) + 1,
            forall|place: int|
                place != down.place() ==> #[trigger] final(self).downs_at(place) == old(
                    self,
                ).downs_at(place),
    {
        let ghost place = down.place();
        let ghost count = self.downs_at(place) + 1;
        self.downs = Ghost(self.downs@.insert(place, count));
    }
}

impl View for Winner {
    type V = Option<u64>;

    /// The nonce in the slot.
    closed spec fn view(&self) -> Option<u64> {
        self.nonce
    }
}

impl Winner {
    /// The terms of the state that gave it out.
    pub closed spec fn terms(&self) -> Terms {
        self.terms@
    }

    /// Where that state is kept.
    pub closed spec fn place(&self) -> int {
        self.place@
    }

    /// What is learned from a flag that is up: a nonce that a worker delivers. Where none is in the
    /// slot, it is the one that the slot cannot hold.
    pub open spec fn holds(&self) -> bool {
        match self@ {
            Some(nonce) => nonce != u64::MAX && self.terms().delivered(nonce),
            None => self.terms().delivered(u64::MAX),
        }
    }

    /// The nonce in the slot.
    pub fn nonce(&self) -> (nonce: Option<u64>)
        ensures
            nonce == self@,
    {
        self.nonce
    }
}

impl FoundState {
    /// The flag is up.
    pub closed spec fn raised(&self) -> bool {
        self.raised
    }

    /// The nonce in the slot.
    pub closed spec fn held(&self) -> Option<u64> {
        self.slot@
    }

    /// What the workers search for, and where.
    pub closed spec fn terms(&self) -> Terms {
        self.terms@
    }

    /// Where the state is kept.
    pub closed spec fn place(&self) -> int {
        self.place@
    }

    /// A state in which the flag is down and the slot is empty, and the one copy of the flag.
    pub(crate) fn new(Ghost(terms): Ghost<Terms>) -> (made: (Self, Hint))
        ensures
            !made.0.raised(),
            made.0.held() is None,
            made.0.terms() == terms,
            made.1.place() == made.0.place(),
    {
        let ghost place: int = arbitrary();
        let slot = SolutionSlot::new();
        let state = FoundState { raised: false, slot, terms: Ghost(terms), place: Ghost(place) };
        (state, Hint { up: AtomicBool::new(false), place: Ghost(place) })
    }

    /// Raises the flag and its copy and offers `nonce` to the slot.
    pub fn raise(&mut self, hint: &Hint, nonce: u64) -> (winner: Winner)
        requires
            hint.place() == old(self).place(),
        ensures
            final(self).raised(),
            final(self).held() == after_offer(old(self).held(), nonce),
            final(self).terms() == old(self).terms(),
            final(self).place() == old(self).place(),
            winner@ == final(self).held(),
            winner.terms() == old(self).terms(),
            winner.place() == old(self).place(),
    {
        self.raised = true;
        hint.up.store(true, Ordering::Relaxed);
        self.slot.offer(nonce);
        Winner { nonce: self.slot.get(), terms: Ghost(self.terms()), place: Ghost(self.place()) }
    }

    /// Looks whether the flag is up, and what there is to learn if it is.
    pub fn look(&self) -> (seen: Result<Winner, Unraised>)
        ensures
            seen is Ok <==> self.raised(),
            seen matches Ok(winner) ==> winner@ == self.held() && winner.terms() == self.terms()
                && winner.place() == self.place(),
            seen matches Err(down) ==> down.place() == self.place(),
    {
        if self.raised {
            Ok(
                Winner {
                    nonce: self.slot.get(),
                    terms: Ghost(self.terms()),
                    place: Ghost(self.place()),
                },
            )
        } else {
            Err(Unraised { place: Ghost(self.place()) })
        }
    }
}

/// What a winner tells: where it names a nonce, that nonce solves the challenge of its terms, and
/// where it names none, the largest nonce does.
pub proof fn law_winner_solves(winner: Winner)
    requires
        winner.holds(),
    ensures
        winner@ matches Some(nonce) ==> nonce != u64::MAX && solves(
            winner.terms().prefix,
            winner.terms().difficulty,
            nonce,
        ),
        winner@ is None ==> solves(
            winner.terms().prefix,
            winner.terms().difficulty,
            u64::MAX,
        ),
{
    let nonce = match winner@ {
        Some(nonce) => nonce,
        None => u64::MAX,
    };
    let _ = law_delivered_by_a_worker(winner.terms(), nonce);
}

} // verus!
