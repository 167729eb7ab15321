//! Totals that many workers add to.
use crate::stats::{hashes_after, Addition, Reported, Stats, Totals};
use std::time::Instant;
use vstd::prelude::*;
use vstd::rwlock::{RwLock, RwLockPredicate};

verus! {

/// What every holder of shared totals keeps: all but the hashes, and the totals themselves.
pub struct KeepsTheRest {
    pub place: Ghost<int>,
    pub opening: Ghost<u64>,
    pub start: Ghost<Instant>,
    pub minted: u64,
}

impl RwLockPredicate<Totals> for KeepsTheRest {
    open spec fn inv(self, totals: Totals) -> bool {
        &&& totals.place() == self.place@
        &&& totals.opening() == self.opening@
        &&& totals.start() == self.start@
        &&& totals.minted() == self.minted
    }
}

/// Totals that many workers add to.
pub struct SharedStats {
    lock: RwLock<Totals, KeepsTheRest>,
}

impl SharedStats {
    /// Where the totals are kept.
    pub closed spec fn place(&self) -> int {
        self.lock.pred().place@
    }

    /// The hashes that had been counted when the totals were shared.
    pub closed spec fn opening(&self) -> u64 {
        self.lock.pred().opening@
    }

    /// When the session began.
    pub closed spec fn start(&self) -> Instant {
        self.lock.pred().start@
    }

    /// Tokens minted so far.
    pub closed spec fn minted(&self) -> u64 {
        self.lock.pred().minted
    }

    /// Shares `stats`.
    pub fn new(stats: Stats) -> (shared: Self)
        ensures
            shared.start() == stats.start_time,
            shared.minted() == stats.total_minted,
            shared.opening() == stats.total_hashes,
    {
        let totals = Totals::new(stats);
        let ghost pred = KeepsTheRest {
            place: Ghost(totals.place()),
            opening: Ghost(totals.opening()),
            start: Ghost(totals.start()),
            minted: totals.minted(),
        };
        SharedStats { lock: RwLock::new(totals, Ghost(pred)) }
    }

    /// Reports `n` hashes to the shared totals, as `Reported::add_to` does, in one indivisible step:
    /// what is put back is what was taken up and `n` more. Other workers may add before and after, so
    /// which total is taken up is not stated.
    pub fn add_hashes(&self, n: u64, reported: &mut Reported) -> (done: Addition)
        requires
            old(reported).hashes() + n <= u128::MAX,
        ensures
            final(reported).hashes() == old(reported).hashes() + n,
            final(reported).added_at(self.place()) == old(reported).added_at(self.place()) + n,
            done.place() == self.place(),
            done.after() == hashes_after(done.before(), n),
    {
        let (mut totals, handle) = self.lock.acquire_write();
        let done = reported.add_to(&mut totals, n);
        handle.release_write(totals);
        done
    }

    /// The totals at some moment during the call, as they were counted.
    pub fn snapshot(&self) -> (stats: Stats)
        ensures
            stats.start_time == self.start(),
            stats.total_minted == self.minted(),
            stats.seen.place() == self.place(),
            stats.seen.hashes() == stats.total_hashes,
    {
        let handle = self.lock.acquire_read();
        let stats: Stats = handle.borrow().read();
        handle.release_read();
        stats
    }
}

} // verus!
