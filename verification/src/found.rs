//! What the workers on one challenge tell each other: that there is a solution, and which.
use crate::board::{Hint, Unraised, Watch};
pub use crate::board::{FoundState, Winner};
use crate::miner::{first_solution, nth_nonce};
use crate::pow::{solves, DIGEST_BITS};
use vstd::prelude::*;
use vstd::rwlock::{RwLock, RwLockPredicate};

verus! {

/// A place for one solution. The largest nonce stands for none.
pub struct SolutionSlot {
    nonce: u64,
}

/// The solution that a slot holds after `offers`: the first nonce among them that it can hold.
pub open spec fn first_offer(offers: Seq<u64>) -> Option<u64>
    decreases offers.len(),
{
    if offers.len() == 0 {
        None
    } else {
        after_offer(first_offer(offers.drop_last()), offers.last())
    }
}

/// What a slot with the solution `held` holds once `nonce` has been offered.
pub open spec fn after_offer(held: Option<u64>, nonce: u64) -> Option<u64> {
    if held is None && nonce != u64::MAX {
        Some(nonce)
    } else {
        held
    }
}

impl View for SolutionSlot {
    type V = Option<u64>;

    closed spec fn view(&self) -> Option<u64> {
        if self.nonce == u64::MAX {
            None
        } else {
            Some(self.nonce)
        }
    }
}

impl SolutionSlot {
    /// An empty slot.
    pub fn new() -> (slot: Self)
        ensures
            slot@ == None::<u64>,
    {
        SolutionSlot { nonce: u64::MAX }
    }

    /// Takes `nonce`, unless the slot is taken already.
    pub fn offer(&mut self, nonce: u64)
        ensures
            final(self)@ == after_offer(old(self)@, nonce),
    {
        if self.nonce == u64::MAX {
            self.nonce = nonce;
        }
    }

    /// The solution in the slot.
    pub fn get(&self) -> (solution: Option<u64>)
        ensures
            solution == self@,
    {
        if self.nonce == u64::MAX {
            None
        } else {
            Some(self.nonce)
        }
    }
}

/// What a number of workers search for, and where: each of them begins at a number up to `last`
/// and moves on by `step`.
pub struct Terms {
    pub prefix: Seq<u8>,
    pub difficulty: u32,
    pub step: u64,
    pub last: u64,
}

impl Terms {
    /// `nonce` is what one of the workers delivers: the first solution of its progression.
    pub open spec fn delivered(self, nonce: u64) -> bool {
        &&& self.difficulty <= DIGEST_BITS
        &&& exists|start: u64, k: nat|
            start <= self.last && nonce == #[trigger] nth_nonce(start, self.step, k)
                && first_solution(self.prefix, self.difficulty, start, self.step, k)
    }
}

/// What the workers keep true of the state that they share: the flag is up only if a worker has
/// delivered a nonce. The slot then holds such a nonce, unless the only one so far is the one that
/// it cannot hold.
pub struct RaisedOnSolution {
    pub terms: Ghost<Terms>,
    pub place: Ghost<int>,
}

impl RwLockPredicate<FoundState> for RaisedOnSolution {
    open spec fn inv(self, state: FoundState) -> bool {
        &&& state.terms() == self.terms@
        &&& state.place() == self.place@
        &&& state.held() matches Some(nonce) ==> nonce != u64::MAX && self.terms@.delivered(nonce)
        &&& state.raised() && state.held() is None ==> self.terms@.delivered(u64::MAX)
        &&& !state.raised() ==> state.held() is None
    }
}

/// The flag by which the workers on one challenge tell each other that one of them has a solution,
/// and the slot for it.
pub struct FoundFlag {
    /// Spares the workers the lock while the flag is down.
    hint: Hint,
    state: RwLock<FoundState, RaisedOnSolution>,
}

impl FoundFlag {
    /// What the workers search for, and where.
    pub closed spec fn terms(&self) -> Terms {
        self.state.pred().terms@
    }

    /// The copy of the flag is one of this flag.
    #[verifier::type_invariant]
    spec fn hint_is_of_this_flag(self) -> bool {
        self.hint.place() == self.state.pred().place@
    }

    /// Where the state that the workers share is kept.
    pub closed spec fn place(&self) -> int {
        self.state.pred().place@
    }

    /// A flag that is down, for workers on the challenge with this prefix and this difficulty that
    /// begin at numbers up to `last` and move on by `step`.
    pub fn new(prefix: &[u8], difficulty: u32, step: u64, last: u64) -> (found: Self)
        ensures
            found.terms() == (Terms { prefix: prefix@, difficulty, step, last }),
    {
        let ghost terms = Terms { prefix: prefix@, difficulty, step, last };
        let (state, hint) = FoundState::new(Ghost(terms));
        let ghost pred = RaisedOnSolution { terms: Ghost(terms), place: Ghost(state.place()) };
        FoundFlag { hint, state: RwLock::new(state, Ghost(pred)) }
    }

    /// Looks at the flag: what there is to learn if it is up, and that it was found down if it is
    /// down. Any worker may raise it at any time, so which of the two comes is not stated.
    fn seen(&self) -> (seen: Result<Winner, Unraised>)
        ensures
            seen matches Ok(winner) ==> winner.terms() == self.terms() && winner.holds()
                && winner.place() == self.place(),
            seen matches Err(down) ==> down.place() == self.place(),
    {
        proof {
            use_type_invariant(self);
        }
        if let Some(down) = self.hint.look() {
            return Err(down);
        }
        let handle = self.state.acquire_read();
        let seen = handle.borrow().look();
        handle.release_read();
        seen
    }

    /// Looks at the flag as `read` does, for a worker that counts how often it finds it down.
    pub fn look(&self, watch: &mut Watch) -> (winner: Option<Winner>)
        ensures
            winner matches Some(winner) ==> winner.terms() == self.terms() && winner.holds()
                && winner.place() == self.place(),
            final(watch).downs_at(self.place()) == old(watch).downs_at(self.place()) + if winner
                is Some {
                0nat
            } else {
                1
            },
    {
        match self.seen() {
            Ok(winner) => Some(winner),
            Err(down) => {
                watch.note(down);
                None
            },
        }
    }

    /// Reads the flag: what there is to learn if it is up, nothing if it is down. Any worker may
    /// raise it at any time, so when there is something to learn is not stated.
    pub fn read(&self) -> (winner: Option<Winner>)
        ensures
            winner matches Some(winner) ==> winner.terms() == self.terms() && winner.holds()
                && winner.place() == self.place(),
    {
        match self.seen() {
            Ok(winner) => Some(winner),
            Err(_) => None,
        }
    }

    /// Raises the flag for `nonce` and offers it to the slot, in one indivisible step. What the
    /// slot holds then is `nonce`, or what another worker delivered before. That the other workers
    /// see it from then on is not stated.
    pub fn raise(&self, nonce: u64) -> (winner: Winner)
        requires
            self.terms().delivered(nonce),
        ensures
            winner.terms() == self.terms(),
            winner.holds(),
            winner@ is None ==> nonce == u64::MAX,
            winner.place() == self.place(),
    {
        proof {
            use_type_invariant(self);
        }
        let (mut state, handle) = self.state.acquire_write();
        let winner = state.raise(&self.hint, nonce);
        handle.release_write(state);
        winner
    }
}

/// What an offer does to a slot: a slot that holds a nonce keeps it, and an empty one takes the nonce
/// that is offered, unless it is the largest.
pub proof fn law_offer_fills_an_empty_slot(nonce: u64, other: u64)
    ensures
        after_offer(Some(nonce), other) == Some(nonce),
        nonce < u64::MAX ==> after_offer(None, nonce) == Some(nonce),
        after_offer(None, u64::MAX) == None::<u64>,
{
}

/// What is delivered: a nonce that solves the challenge, at a difficulty that a digest can meet. It
/// is in the progression of one of the workers, and no nonce before it there solves.
pub proof fn law_delivered_by_a_worker(terms: Terms, nonce: u64) -> (at: (u64, nat))
    requires
        terms.delivered(nonce),
    ensures
        terms.difficulty <= 256,
        solves(terms.prefix, terms.difficulty, nonce),
        at.0 <= terms.last,
        nonce == nth_nonce(at.0, terms.step, at.1),
        forall|j: nat|
            j < at.1 ==> !solves(
                terms.prefix,
                terms.difficulty,
                #[trigger] nth_nonce(at.0, terms.step, j),
            ),
{
    let (start, k): (u64, nat) = choose|start: u64, k: nat|
        start <= terms.last && nonce == #[trigger] nth_nonce(start, terms.step, k)
            && first_solution(terms.prefix, terms.difficulty, start, terms.step, k);
    (start, k)
}

/// A slot keeps the first nonce offered to it that is not the one that stands for none.
pub proof fn law_first_offer_stays(offers: Seq<u64>, i: int)
    requires
        0 <= i < offers.len(),
        offers[i] != u64::MAX,
        forall|j: int| 0 <= j < i ==> #[trigger] offers[j] == u64::MAX,
    ensures
        first_offer(offers) == Some(offers[i]),
    decreases offers.len(),
{
    let before = offers.drop_last();
    if i == offers.len() - 1 {
        law_slot_without_offers_is_empty(before);
    } else {
        assert forall|j: int| 0 <= j < i implies #[trigger] before[j] == u64::MAX by {
            assert(before[j] == offers[j]);
        }
        law_first_offer_stays(before, i);
    }
}

/// A slot stays empty for as long as nothing is offered but the nonce that stands for none.
pub proof fn law_slot_without_offers_is_empty(offers: Seq<u64>)
    requires
        forall|j: int| 0 <= j < offers.len() ==> #[trigger] offers[j] == u64::MAX,
    ensures
        first_offer(offers) is None,
    decreases offers.len(),
{
    if offers.len() > 0 {
        assert(offers[offers.len() - 1] == u64::MAX);
        law_slot_without_offers_is_empty(offers.drop_last());
    }
}

} // verus!
