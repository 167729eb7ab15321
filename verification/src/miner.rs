//! One worker's search through an arithmetic progression of nonces.
use crate::board::{Watch, Winner};
use crate::found::{FoundFlag, Terms};
use crate::pow::{message_fits, message_solves, solves, write_nonce, DIGEST_BITS};
use crate::shared::SharedStats;
use crate::stats::Reported;
use vstd::arithmetic::div_mod::{
    lemma_fundamental_div_mod, lemma_mod_bound, lemma_mod_multiples_vanish,
};
use vstd::arithmetic::mul::{lemma_mul_is_associative, lemma_mul_is_distributive_add_other_way};
use vstd::prelude::*;

verus! {

/// A worker reports its hashes in batches of this size.
pub const REPORT_BATCH: u64 = 100_000;

/// The `k`-th nonce of the progression that begins at `start` and moves on by `step`, modulo two
/// to the power 64.
pub open spec fn nth_nonce(start: u64, step: u64, k: nat) -> u64 {
    ((start + k * step) % 0x1_0000_0000_0000_0000) as u64
}

/// The `k`-th nonce of the progression is the first one that solves the challenge.
pub open spec fn first_solution(
    prefix: Seq<u8>,
    difficulty: u32,
    start: u64,
    step: u64,
    k: nat,
) -> bool {
    &&& solves(prefix, difficulty, nth_nonce(start, step, k))
    &&& forall|j: nat|
        j < k ==> !solves(prefix, difficulty, #[trigger] nth_nonce(start, step, j))
}

/// Where a search stands.
pub struct RangeState {
    pub prefix: Seq<u8>,
    pub difficulty: u32,
    /// The nonce to try next.
    pub nonce: u64,
    pub step: u64,
    /// Hashes computed and not reported yet.
    pub unreported: u64,
}

/// What a worker has to do after one step of its search.
#[derive(Clone, Copy, Debug, PartialEq, Eq, Structural)]
pub enum MineAction {
    /// Report the hashes and end: another worker has a solution.
    Stop { hashes: u64 },
    /// Raise the flag, report the hashes and end with the nonce.
    Solved { nonce: u64, hashes: u64 },
    /// Report the hashes and go on.
    Report { hashes: u64 },
    /// Go on.
    Continue,
}

impl MineAction {
    /// The hashes that the action reports.
    pub open spec fn reported(self) -> nat {
        match self {
            MineAction::Stop { hashes } => hashes as nat,
            MineAction::Solved { nonce: _, hashes } => hashes as nat,
            MineAction::Report { hashes } => hashes as nat,
            MineAction::Continue => 0,
        }
    }
}

impl RangeState {
    /// The state from which a search begins.
    pub open spec fn fresh(prefix: Seq<u8>, difficulty: u32, start: u64, step: u64) -> RangeState {
        RangeState { prefix, difficulty, nonce: start, step, unreported: 0 }
    }

    /// The nonce to try next solves the challenge.
    pub open spec fn solved(self) -> bool {
        solves(self.prefix, self.difficulty, self.nonce)
    }

    /// The state after a nonce that does not solve the challenge.
    pub open spec fn after_miss(self) -> RangeState {
        RangeState {
            nonce: nth_nonce(self.nonce, self.step, 1),
            unreported: ((self.unreported + 1) % REPORT_BATCH as int) as u64,
            ..self
        }
    }

    /// The state after `k` nonces that do not solve the challenge.
    pub open spec fn after_misses(self, k: nat) -> RangeState
        decreases k,
    {
        if k == 0 {
            self
        } else {
            self.after_misses((k - 1) as nat).after_miss()
        }
    }

    /// What to do in this state; `found` tells whether another worker has a solution.
    pub open spec fn action(self, found: bool) -> MineAction {
        if found {
            MineAction::Stop { hashes: self.unreported }
        } else if self.solved() {
            MineAction::Solved { nonce: self.nonce, hashes: (self.unreported + 1) as u64 }
        } else if self.unreported + 1 == REPORT_BATCH {
            MineAction::Report { hashes: REPORT_BATCH }
        } else {
            MineAction::Continue
        }
    }

    /// The state that the step leads to.
    pub open spec fn next(self, found: bool) -> RangeState {
        if found || self.solved() {
            self
        } else {
            self.after_miss()
        }
    }

    /// The hashes that the first `k` steps report when no flag is seen.
    pub open spec fn reported_by(self, k: nat) -> nat
        decreases k,
    {
        if k == 0 {
            0
        } else {
            self.reported_by((k - 1) as nat) + self.after_misses((k - 1) as nat).action(
                false,
            ).reported()
        }
    }
}

/// A worker's search.
pub struct MineRange {
    buf: Vec<u8>,
    prefix_len: usize,
    difficulty: u32,
    nonce: u64,
    step: u64,
    local_count: u64,
}

impl View for MineRange {
    type V = RangeState;

    closed spec fn view(&self) -> RangeState {
        RangeState {
            prefix: self.buf@.take(self.prefix_len as int),
            difficulty: self.difficulty,
            nonce: self.nonce,
            step: self.step,
            unreported: self.local_count,
        }
    }
}

impl MineRange {
    /// The buffer holds one message and fewer than a batch of hashes wait to be reported.
    pub closed spec fn wf(&self) -> bool {
        &&& self.buf@.len() == self.prefix_len + 8
        &&& message_fits(self.prefix_len as nat)
        &&& self.local_count < REPORT_BATCH
    }

    /// A search that begins at `start`.
    pub fn new(prefix: &[u8], difficulty: u32, start: u64, step: u64) -> (range: Self)
        requires
            message_fits(prefix@.len()),
        ensures
            range.wf(),
            range@ == RangeState::fresh(prefix@, difficulty, start, step),
    {
        let mut buf: Vec<u8> = Vec::with_capacity(prefix.len() + 8);
        buf.extend_from_slice(prefix);
        let nonce_bytes: [u8; 8] = [0; 8];
        buf.extend_from_slice(&nonce_bytes);
        assert(buf@.take(prefix@.len() as int) =~= prefix@);
        MineRange { buf, prefix_len: prefix.len(), difficulty, nonce: start, step, local_count: 0 }
    }

    /// Tries the next nonce, unless `found` tells that another worker has a solution.
    pub fn advance(&mut self, found: bool) -> (action: MineAction)
        requires
            old(self).wf(),
        ensures
            final(self).wf(),
            action == old(self)@.action(found),
            action is Solved ==> old(self)@.difficulty <= DIGEST_BITS,
            final(self)@ == old(self)@.next(found),
    {
        if found {
            return MineAction::Stop { hashes: self.local_count };
        }
        write_nonce(&mut self.buf, self.nonce);
        assert(self.buf@.take(self.prefix_len as int) =~= old(self).buf@.take(
            self.prefix_len as int,
        ));
        if message_solves(&self.buf, self.difficulty) {
            return MineAction::Solved { nonce: self.nonce, hashes: self.local_count + 1 };
        }
        self.nonce = self.nonce.wrapping_add(self.step);
        self.local_count = self.local_count + 1;
        if self.local_count % REPORT_BATCH == 0 {
            self.local_count = 0;
            return MineAction::Report { hashes: REPORT_BATCH };
        }
        MineAction::Continue
    }

    /// Hashes computed and not reported yet.
    pub fn unreported(&self) -> (hashes: u64)
        ensures
            hashes == self@.unreported,
    {
        self.local_count
    }
}

/// How a worker's search ended.
pub enum MineOutcome {
    /// This nonce solves the challenge. `winner` is what the flag held once it was raised for it.
    Solved { nonce: u64, winner: Winner },
    /// The flag was up when the worker had tried this many nonces. `winner` is what it held.
    Stopped { winner: Winner, tried: u64 },
    /// Every nonce of the progression has been tried. From here on the nonces come round again, so
    /// that to go on is to begin anew.
    Exhausted,
}

/// What came of a worker's search.
pub struct Mined {
    pub outcome: MineOutcome,
    /// The hashes that the worker reported.
    pub reported: Reported,
    /// How often it found the flag down.
    pub watch: Watch,
}

/// None of the first `k` nonces of the progression that begins at `start` solves the challenge.
pub open spec fn none_before(terms: Terms, start: u64, k: nat) -> bool {
    forall|j: nat|
        j < k ==> !solves(terms.prefix, terms.difficulty, #[trigger] nth_nonce(start, terms.step, j))
}

/// What `mined` tells of a worker that began at `start`.
/// - It solved: the nonce is the first solution of its progression, and all the hashes up to it
///   are reported. The flag has been raised, and holds that nonce or one that was delivered before;
///   it holds none only if this is the one that it cannot hold.
/// - It stopped: the flag was up. None of the nonces that it had tried solves, and all their hashes
///   are reported.
/// - It tried everything: no nonce of its progression solves, and all the hashes are reported.
pub open spec fn mined_holds(terms: Terms, start: u64, mined: Mined) -> bool {
    match mined.outcome {
        MineOutcome::Solved { nonce, winner } => {
            &&& terms.difficulty <= DIGEST_BITS
            &&& exists|k: nat|
                nonce == #[trigger] nth_nonce(start, terms.step, k) && first_solution(
                    terms.prefix,
                    terms.difficulty,
                    start,
                    terms.step,
                    k,
                ) && mined.reported.hashes() == k + 1
            &&& winner.terms() == terms
            &&& winner.holds()
            &&& winner@ is None ==> nonce == u64::MAX
        },
        MineOutcome::Stopped { winner, tried } => {
            &&& winner.terms() == terms
            &&& winner.holds()
            &&& none_before(terms, start, tried as nat)
            &&& mined.reported.hashes() == tried
        },
        MineOutcome::Exhausted => {
            &&& forall|k: nat|
                !solves(terms.prefix, terms.difficulty, #[trigger] nth_nonce(start, terms.step, k))
            &&& mined.reported.hashes() == 0x1_0000_0000_0000_0000
        },
    }
}

/// Searches the progression that begins at `start` and moves on by `step` for a nonce that solves
/// the challenge, step by step as `MineRange::advance` tells: its actions say when to end, when to
/// raise the flag and how many hashes to report at a time. The search also ends when all the nonces
/// have been tried and none of them solves. How it ended, how many hashes were reported to `stats`
/// by then, and that the flag was found down once for each of them, is stated of the result. When
/// the flag goes up and what `stats` holds is up to all workers together: nothing is stated of it.
pub fn mine_range_tracked(
    prefix: &[u8],
    difficulty: u32,
    start: u64,
    step: u64,
    found: &FoundFlag,
    stats: &SharedStats,
) -> (mined: Mined)
    requires
        message_fits(prefix@.len()),
        found.terms().prefix == prefix@,
        found.terms().difficulty == difficulty,
        found.terms().step == step,
        start <= found.terms().last,
    ensures
        mined_holds(found.terms(), start, mined),
        mined.reported.added_at(stats.place()) == mined.reported.hashes(),
        mined.watch.downs_at(found.place()) == mined.reported.hashes(),
        mined.outcome matches MineOutcome::Solved { nonce: _, winner } ==> winner.place()
            == found.place(),
        mined.outcome matches MineOutcome::Stopped { winner, tried: _ } ==> winner.place()
            == found.place(),
{
    let mut range = MineRange::new(prefix, difficulty, start, step);
    let mut reported = Reported::nothing();
    let mut watch = Watch::new();
    let ghost fresh = range@;
    let ghost terms = found.terms();
    let mut attempts: u64 = 0;
    loop
        invariant
            range.wf(),
            terms == found.terms(),
            terms.prefix == prefix@,
            terms.difficulty == difficulty,
            terms.step == step,
            start <= terms.last,
            fresh == RangeState::fresh(prefix@, difficulty, start, step),
            range@ == fresh.after_misses(attempts as nat),
            reported.hashes() + range@.unreported == attempts,
            reported.added_at(stats.place()) == reported.hashes(),
            watch.downs_at(found.place()) == attempts,
            none_before(terms, start, attempts as nat),
        decreases u64::MAX - attempts,
    {
        proof {
            lemma_after_misses(fresh, attempts as nat);
        }
        let up = found.look(&mut watch);
        match range.advance(up.is_some()) {
            MineAction::Stop { hashes } => {
                stats.add_hashes(hashes, &mut reported);
                if let Some(winner) = up {
                    let outcome = MineOutcome::Stopped { winner, tried: attempts };
                    return Mined { outcome, reported, watch };
                }
            },
            MineAction::Solved { nonce, hashes } => {
                assert(nonce == nth_nonce(start, step, attempts as nat));
                assert(first_solution(prefix@, difficulty, start, step, attempts as nat));
                let winner = found.raise(nonce);
                stats.add_hashes(hashes, &mut reported);
                let outcome = MineOutcome::Solved { nonce, winner };
                return Mined { outcome, reported, watch };
            },
            MineAction::Report { hashes } => {
                stats.add_hashes(hashes, &mut reported);
            },
            MineAction::Continue => {},
        }
        if attempts == u64::MAX {
            stats.add_hashes(range.unreported(), &mut reported);
            proof {
                assert forall|k: nat| !solves(
                    prefix@,
                    difficulty,
                    #[trigger] nth_nonce(start, step, k),
                ) by {
                    lemma_nonce_of_remainder(start, step, k);
                }
            }
            return Mined { outcome: MineOutcome::Exhausted, reported, watch };
        }
        attempts = attempts + 1;
    }
}

/// Every nonce of a progression is among its first two to the power 64.
proof fn lemma_nonce_of_remainder(start: u64, step: u64, k: nat)
    ensures
        nth_nonce(start, step, k) == nth_nonce(start, step, k % 0x1_0000_0000_0000_0000),
{
    let m: int = 0x1_0000_0000_0000_0000;
    let q = k as int / m;
    let r = k as int % m;
    lemma_fundamental_div_mod(k as int, m);
    lemma_mod_bound(k as int, m);
    lemma_mul_is_distributive_add_other_way(step as int, m * q, r);
    lemma_mul_is_associative(m, q, step as int);
    lemma_mod_multiples_vanish(q * step, start + r * step, m);
}

/// The state after `k` misses: the `k`-th nonce of the progression comes next, and the hashes
/// beyond the last full batch are not reported yet.
#[verifier::spinoff_prover]
#[verifier::rlimit(40)]
pub proof fn lemma_after_misses(state: RangeState, k: nat)
    ensures
        state.after_misses(k).prefix == state.prefix,
        state.after_misses(k).difficulty == state.difficulty,
        state.after_misses(k).step == state.step,
        state.after_misses(k).nonce == nth_nonce(state.nonce, state.step, k),
        state.unreported < REPORT_BATCH ==> state.after_misses(k).unreported == (state.unreported
            + k) % REPORT_BATCH as int,
    decreases k,
{
    if k > 0 {
        let j = (k - 1) as nat;
        lemma_after_misses(state, j);
        let m: int = 0x1_0000_0000_0000_0000;
        let x = state.nonce + j * state.step;
        lemma_mul_is_distributive_add_other_way(state.step as int, j as int, 1);
        lemma_wrap_before_adding(x, state.step as int);
        let b: int = REPORT_BATCH as int;
        let y = state.unreported + j;
        assert((y % b + 1) % b == (y + 1) % b) by {
            lemma_mod_bound(y, b);
        }
    }
}

proof fn lemma_wrap_before_adding(a: int, n: int)
    ensures
        (a % 0x1_0000_0000_0000_0000 + n) % 0x1_0000_0000_0000_0000 == (a + n)
            % 0x1_0000_0000_0000_0000,
{
}

/// The actions that `MineRange::advance` gives report each hash exactly once: after `k` misses,
/// those of the steps so far and that of the last step, whether it stops on the flag or solves,
/// add up to all the hashes computed.
pub proof fn law_every_hash_is_reported(
    prefix: Seq<u8>,
    difficulty: u32,
    start: u64,
    step: u64,
    k: nat,
)
    requires
        forall|j: nat| #![trigger nth_nonce(start, step, j)]
            j < k ==> !solves(prefix, difficulty, nth_nonce(start, step, j)),
    ensures
        ({
            let fresh = RangeState::fresh(prefix, difficulty, start, step);
            let last = fresh.after_misses(k);
            &&& fresh.reported_by(k) + last.action(true).reported() == k
            &&& last.solved() ==> fresh.reported_by(k) + last.action(false).reported() == k + 1
        }),
    decreases k,
{
    let fresh = RangeState::fresh(prefix, difficulty, start, step);
    lemma_after_misses(fresh, k);
    if k > 0 {
        let j = (k - 1) as nat;
        law_every_hash_is_reported(prefix, difficulty, start, step, j);
        lemma_after_misses(fresh, j);
        assert(!solves(prefix, difficulty, nth_nonce(start, step, j)));
    }
}

/// The actions that `MineRange::advance` gives while no flag is seen miss nothing: they go on past
/// every nonce that does not solve the challenge and end with the first one that does.
pub proof fn law_search_ends_at_first_solution(
    prefix: Seq<u8>,
    difficulty: u32,
    start: u64,
    step: u64,
    k: nat,
)
    requires
        first_solution(prefix, difficulty, start, step, k),
    ensures
        ({
            let fresh = RangeState::fresh(prefix, difficulty, start, step);
            &&& fresh.after_misses(k).action(false) matches MineAction::Solved { nonce, .. }
                && nonce == nth_nonce(start, step, k)
            &&& forall|j: nat|
                j < k ==> {
                    &&& #[trigger] fresh.after_misses(j).next(false) == fresh.after_misses(j + 1)
                    &&& fresh.after_misses(j).action(false) is Report
                        || fresh.after_misses(j).action(false) is Continue
                }
        }),
{
    let fresh = RangeState::fresh(prefix, difficulty, start, step);
    lemma_after_misses(fresh, k);
    assert forall|j: nat| j < k implies {
        &&& #[trigger] fresh.after_misses(j).next(false) == fresh.after_misses(j + 1)
        &&& fresh.after_misses(j).action(false) is Report
            || fresh.after_misses(j).action(false) is Continue
    } by {
        lemma_after_misses(fresh, j);
        assert(!solves(prefix, difficulty, nth_nonce(start, step, j)));
    }
}

/// A difficulty of more bits than a digest has is never met: a search at such a difficulty ends
/// neither with a solution of its own nor with another worker's.
pub proof fn law_no_search_meets_an_impossible_difficulty(terms: Terms, start: u64, mined: Mined)
    requires
        mined_holds(terms, start, mined),
        terms.difficulty > DIGEST_BITS,
    ensures
        mined.outcome is Exhausted,
{
}

/// The progression repeats itself after two to the power 64 nonces, so that no new nonce comes
/// after them.
pub proof fn law_progression_repeats(start: u64, step: u64, k: nat)
    ensures
        nth_nonce(start, step, k + 0x1_0000_0000_0000_0000) == nth_nonce(start, step, k),
{
    let m: int = 0x1_0000_0000_0000_0000;
    lemma_mul_is_distributive_add_other_way(step as int, k as int, m);
    lemma_mod_multiples_vanish(step as int, start + k * step, m);
}

/// The nonces by arithmetic: the progression begins at `start`, each nonce is the one before it and
/// `step` more, less two to the power 64 where that does not fit, and the `k`-th one differs from
/// `start` and `k` steps by a multiple of two to the power 64.
pub proof fn law_nonces_step_by_step(start: u64, step: u64, k: nat)
    ensures
        nth_nonce(start, step, 0) == start,
        nth_nonce(start, step, k) + step <= u64::MAX ==> nth_nonce(start, step, k + 1) == nth_nonce(
            start,
            step,
            k,
        ) + step,
        nth_nonce(start, step, k) + step > u64::MAX ==> nth_nonce(start, step, k + 1) == nth_nonce(
            start,
            step,
            k,
        ) + step - 0x1_0000_0000_0000_0000,
        (start + k * step - nth_nonce(start, step, k)) % 0x1_0000_0000_0000_0000 == 0,
{
    let m: int = 0x1_0000_0000_0000_0000;
    let x = start + k * step;
    lemma_mul_is_distributive_add_other_way(step as int, k as int, 1);
    lemma_fundamental_div_mod(x, m);
    lemma_mod_bound(x, m);
    lemma_mod_bound(x + step, m);
    lemma_fundamental_div_mod(x + step, m);
    assert(0 * step == 0);
    assert(k * step >= 0) by (nonlinear_arith);
    assert((k + 1) * step >= 0) by (nonlinear_arith);
    assert(x + step == start + (k + 1) * step);
    lemma_wrap_before_adding(x, step as int);
}

/// The first solution of a progression solves, and no nonce before it does.
pub proof fn law_first_solution_is_first(
    prefix: Seq<u8>,
    difficulty: u32,
    start: u64,
    step: u64,
    k: nat,
)
    ensures
        first_solution(prefix, difficulty, start, step, k) <==> solves(
            prefix,
            difficulty,
            nth_nonce(start, step, k),
        ) && forall|j: nat|
            j < k ==> !solves(prefix, difficulty, #[trigger] nth_nonce(start, step, j)),
{
}

/// One step of a search.
/// - The flag is up: the search stops where it is and reports what it has not reported yet.
/// - The nonce solves: it is given, and the hashes not reported yet and this one are.
/// - It does not: the next nonce is `step` further on. The hash is reported together with those
///   before it once they are a hundred thousand, and waits until then.
pub proof fn law_one_step(state: RangeState, found: bool)
    requires
        state.unreported < 100_000,
    ensures
        found ==> state.action(found) == (MineAction::Stop { hashes: state.unreported })
            && state.next(found) == state,
        !found && solves(state.prefix, state.difficulty, state.nonce) ==> {
            &&& state.action(found) matches MineAction::Solved { nonce, hashes } && nonce
                == state.nonce && hashes == state.unreported + 1
            &&& state.next(found) == state
        },
        !found && !solves(state.prefix, state.difficulty, state.nonce) ==> {
            let next = state.next(found);
            &&& next.prefix == state.prefix
            &&& next.difficulty == state.difficulty
            &&& next.step == state.step
            &&& next.nonce == state.nonce + state.step || next.nonce == state.nonce + state.step
                - 0x1_0000_0000_0000_0000
            &&& state.unreported == 99_999 ==> state.action(found) == (MineAction::Report {
                hashes: 100_000,
            }) && next.unreported == 0
            &&& state.unreported < 99_999 ==> state.action(found) is Continue && next.unreported
                == state.unreported + 1
        },
{
    law_nonces_step_by_step(state.nonce, state.step, 0);
}

/// A search begins at its first nonce, with nothing to report.
pub proof fn law_search_begins_at_start(prefix: Seq<u8>, difficulty: u32, start: u64, step: u64)
    ensures
        ({
            let fresh = RangeState::fresh(prefix, difficulty, start, step);
            &&& fresh.prefix == prefix
            &&& fresh.difficulty == difficulty
            &&& fresh.nonce == start
            &&& fresh.step == step
            &&& fresh.unreported == 0
        }),
{
}

/// What the end of a search tells. On a solution, and on a flag that was up, a number of nonces had
/// been tried that do not solve, in the order of the progression, and the hashes of all that were
/// tried are reported; the solution is the next one after them. A search that went through all the
/// nonces reported them all, and none of them solves.
pub proof fn law_end_of_a_search(terms: Terms, start: u64, mined: Mined) -> (misses: nat)
    requires
        mined_holds(terms, start, mined),
    ensures
        forall|j: nat|
            j < misses ==> !solves(
                terms.prefix,
                terms.difficulty,
                #[trigger] nth_nonce(start, terms.step, j),
            ),
        mined.outcome matches MineOutcome::Solved { nonce, winner } ==> {
            &&& nonce == nth_nonce(start, terms.step, misses)
            &&& solves(terms.prefix, terms.difficulty, nonce)
            &&& mined.reported.hashes() == misses + 1
            &&& terms.difficulty <= 256
            &&& winner.terms() == terms
            &&& winner.holds()
            &&& nonce != u64::MAX ==> winner@ is Some
        },
        mined.outcome matches MineOutcome::Stopped { winner, tried } ==> {
            &&& tried == misses
            &&& mined.reported.hashes() == misses
            &&& winner.terms() == terms
            &&& winner.holds()
        },
        mined.outcome is Exhausted ==> misses == 0x1_0000_0000_0000_0000
            && mined.reported.hashes() == misses,
{
    match mined.outcome {
        MineOutcome::Solved { nonce, winner: _ } => choose|k: nat|
            nonce == #[trigger] nth_nonce(start, terms.step, k) && first_solution(
                terms.prefix,
                terms.difficulty,
                start,
                terms.step,
                k,
            ) && mined.reported.hashes() == k + 1,
        MineOutcome::Stopped { winner: _, tried } => tried as nat,
        MineOutcome::Exhausted => 0x1_0000_0000_0000_0000,
    }
}

} // verus!
