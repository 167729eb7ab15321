//! Solving a challenge with several workers.
use crate::board::{law_winner_solves, Watch};
use crate::found::{FoundFlag, Terms};
use crate::hex::{decodes_to, hex_to_bytes, splits_character};
use crate::miner::{
    first_solution, law_end_of_a_search, mine_range_tracked, mined_holds, nth_nonce, MineOutcome,
    Mined,
};
use crate::pow::{message_fits, solves, DIGEST_BITS};
use crate::shared::SharedStats;
use crate::stats::Reported;
use vstd::arithmetic::div_mod::{
    lemma_fundamental_div_mod, lemma_fundamental_div_mod_converse, lemma_mod_add_multiples_vanish,
    lemma_mod_multiples_vanish, lemma_small_mod,
};
use vstd::arithmetic::mul::lemma_mul_is_commutative;
use vstd::prelude::*;
use vstd::utf8::encode_utf8;

verus! {

/// A challenge of the mint.
pub struct Challenge {
    pub challenge_id: String,
    /// The bytes that come before the nonce, in hexadecimal.
    pub nonce_prefix: String,
    /// How many zero bits the digest has to end in.
    pub difficulty_bits: u32,
}

/// `nonce` is what one of `threads` workers delivers: the first solution of the progression that
/// begins at the worker's number and moves on by the number of workers.
pub open spec fn delivered(prefix: Seq<u8>, difficulty: u32, threads: u64, nonce: u64) -> bool {
    &&& difficulty <= DIGEST_BITS
    &&& exists|worker: u64, k: nat|
        worker < threads && nonce == #[trigger] nth_nonce(worker, threads, k) && first_solution(
            prefix,
            difficulty,
            worker,
            threads,
            k,
        )
}

/// `nonce` solves the challenge, and no smaller nonce with the same remainder does: the workers
/// split the nonces by their remainders, and none of them skips one.
pub open spec fn least_of_its_remainder(
    prefix: Seq<u8>,
    difficulty: u32,
    threads: u64,
    nonce: u64,
) -> bool {
    &&& solves(prefix, difficulty, nonce)
    &&& forall|m: u64| #![trigger solves(prefix, difficulty, m)]
        m < nonce && m % threads == nonce % threads ==> !solves(prefix, difficulty, m)
}

/// The nonce that a worker learned of when its search ended.
pub open spec fn winner_of(outcome: MineOutcome) -> Option<u64> {
    match outcome {
        MineOutcome::Solved { nonce: _, winner } => winner@,
        MineOutcome::Stopped { winner, tried: _ } => winner@,
        MineOutcome::Exhausted => None,
    }
}

/// The first nonce that any of the workers learned of.
pub open spec fn first_winner(outcomes: Seq<MineOutcome>) -> Option<u64>
    decreases outcomes.len(),
{
    if outcomes.len() == 0 {
        None
    } else {
        match first_winner(outcomes.drop_last()) {
            Some(nonce) => Some(nonce),
            None => winner_of(outcomes.last()),
        }
    }
}

/// The search for a solution of one challenge, shared by its workers.
pub struct Search {
    prefix: Vec<u8>,
    difficulty: u32,
    threads: usize,
    found: FoundFlag,
}

impl Search {
    /// The bytes that come before the nonce.
    pub closed spec fn prefix(&self) -> Seq<u8> {
        self.prefix@
    }

    /// How many zero bits the digest has to end in.
    pub closed spec fn difficulty(&self) -> u32 {
        self.difficulty
    }

    /// How many workers share the search.
    pub closed spec fn threads(&self) -> usize {
        self.threads
    }

    /// Where the workers tell each other of a solution.
    pub closed spec fn place(&self) -> int {
        self.found.place()
    }

    /// What the workers search for, and where: each begins at its own number and moves on by the
    /// number of workers.
    pub open spec fn terms(&self) -> Terms {
        Terms {
            prefix: self.prefix(),
            difficulty: self.difficulty(),
            step: self.threads() as u64,
            last: if self.threads() == 0 {
                0
            } else {
                (self.threads() - 1) as u64
            },
        }
    }

    /// Messages can be hashed, and the flag is about this challenge and these workers.
    pub closed spec fn wf(&self) -> bool {
        &&& message_fits(self.prefix@.len())
        &&& self.found.terms() == self.terms()
    }

    /// Some worker's search can end like this.
    pub open spec fn can_end(&self, outcome: MineOutcome) -> bool {
        exists|worker: u64, reported: Reported, watch: Watch|
            worker < self.threads() && #[trigger] mined_holds(
                self.terms(),
                worker,
                Mined { outcome, reported, watch },
            )
    }

    /// Sets up the search for `threads` workers. A challenge whose prefix is not hexadecimal is
    /// refused with the decoder's message.
    pub fn new(challenge: &Challenge, threads: usize) -> (result: Result<Search, String>)
        requires
            !splits_character(challenge.nonce_prefix@),
            message_fits(encode_utf8(challenge.nonce_prefix@).len() / 2),
        ensures
            match result {
                Ok(search) => {
                    &&& search.wf()
                    &&& decodes_to(challenge.nonce_prefix@, Ok(search.prefix()))
                    &&& search.difficulty() == challenge.difficulty_bits
                    &&& search.threads() == threads
                },
                Err(message) => decodes_to(challenge.nonce_prefix@, Err(message@)),
            },
    {
        match hex_to_bytes(challenge.nonce_prefix.as_str()) {
            Ok(prefix) => {
                let difficulty = challenge.difficulty_bits;
                let last: usize = if threads == 0 {
                    0
                } else {
                    threads - 1
                };
                let found = FoundFlag::new(&prefix, difficulty, threads as u64, last as u64);
                Ok(Search { prefix, difficulty, threads, found })
            },
            Err(message) => Err(message),
        }
    }

    /// The work of worker `worker`: it mines the nonces that begin at its own number and move on
    /// by the number of workers. What is stated of the result is what `mine_range_tracked` states.
    pub fn run_worker(&self, worker: usize, stats: &SharedStats) -> (mined: Mined)
        requires
            self.wf(),
            worker < self.threads(),
        ensures
            mined_holds(self.terms(), worker as u64, mined),
            self.can_end(mined.outcome),
            mined.reported.added_at(stats.place()) == mined.reported.hashes(),
            mined.watch.downs_at(self.place()) == mined.reported.hashes(),
            mined.outcome matches MineOutcome::Solved { nonce: _, winner } ==> winner.place()
                == self.place(),
            mined.outcome matches MineOutcome::Stopped { winner, tried: _ } ==> winner.place()
                == self.place(),
    {
        let mined = mine_range_tracked(
            &self.prefix,
            self.difficulty,
            worker as u64,
            self.threads as u64,
            &self.found,
            stats,
        );
        assert(mined == Mined {
            outcome: mined.outcome,
            reported: mined.reported,
            watch: mined.watch,
        });
        mined
    }

    /// The solution of the challenge, from how the workers' searches ended: the nonce that the
    /// workers learned of. As soon as one search has ended on a solution there is one, its own or
    /// another worker's, unless the one nonce that stands for none solves the challenge.
    pub fn solution(&self, outcomes: &Vec<MineOutcome>) -> (solution: Option<u64>)
        requires
            self.wf(),
            forall|i: int| 0 <= i < outcomes@.len() ==> self.can_end(#[trigger] outcomes@[i]),
        ensures
            solution == first_winner(outcomes@),
            solution is None ==> solves(self.prefix(), self.difficulty(), u64::MAX) || forall|i: int|
                0 <= i < outcomes@.len() ==> #[trigger] outcomes@[i] is Exhausted,
            solution matches Some(nonce) ==> {
                &&& nonce != u64::MAX
                &&& delivered(self.prefix(), self.difficulty(), self.threads() as u64, nonce)
                &&& least_of_its_remainder(
                    self.prefix(),
                    self.difficulty(),
                    self.threads() as u64,
                    nonce,
                )
                &&& self.difficulty() == 0 ==> nonce < self.threads()
                &&& solves(self.prefix(), self.difficulty(), nonce)
                &&& forall|m: u64|
                    m < nonce && m % (self.threads() as u64) == nonce % (self.threads() as u64)
                        ==> !#[trigger] solves(self.prefix(), self.difficulty(), m)
            },
    {
        let mut i: usize = 0;
        while i < outcomes.len()
            invariant
                i <= outcomes@.len(),
                self.wf(),
                forall|j: int| 0 <= j < outcomes@.len() ==> self.can_end(#[trigger] outcomes@[j]),
                first_winner(outcomes@.take(i as int)) is None,
                solves(self.prefix(), self.difficulty(), u64::MAX) || forall|j: int|
                    0 <= j < i ==> #[trigger] outcomes@[j] is Exhausted,
            decreases outcomes.len() - i,
        {
            let ghost outcome = outcomes@[i as int];
            assert(self.can_end(outcome));
            assert(outcomes@.take(i + 1).drop_last() =~= outcomes@.take(i as int));
            assert(outcomes@.take(i + 1).last() == outcome);
            let winner = match &outcomes[i] {
                MineOutcome::Solved { nonce: _, winner } => winner.nonce(),
                MineOutcome::Stopped { winner, tried: _ } => winner.nonce(),
                MineOutcome::Exhausted => None,
            };
            assert(winner == winner_of(outcome));
            if let Some(nonce) = winner {
                proof {
                    assert(self.terms().delivered(nonce));
                    lemma_delivered_by_worker(*self, nonce);
                    law_delivered_is_least(
                        self.prefix(),
                        self.difficulty(),
                        self.threads() as u64,
                        nonce,
                    );
                    lemma_first_winner_stays(outcomes@, i + 1);
                }
                return Some(nonce);
            }
            proof {
                if !(outcome is Exhausted) {
                    assert(self.terms().delivered(u64::MAX));
                    lemma_delivered_by_worker(*self, u64::MAX);
                    law_delivered_is_least(
                        self.prefix(),
                        self.difficulty(),
                        self.threads() as u64,
                        u64::MAX,
                    );
                }
            }
            i = i + 1;
        }
        assert(outcomes@.take(i as int) =~= outcomes@);
        None
    }
}

/// What is delivered on the terms of a search with workers is delivered by one of them.
proof fn lemma_delivered_by_worker(search: Search, nonce: u64)
    requires
        search.threads() > 0,
        search.terms().delivered(nonce),
    ensures
        delivered(search.prefix(), search.difficulty(), search.threads() as u64, nonce),
{
    let terms = search.terms();
    let (start, k): (u64, nat) = choose|start: u64, k: nat|
        start <= terms.last && nonce == #[trigger] nth_nonce(start, terms.step, k)
            && first_solution(terms.prefix, terms.difficulty, start, terms.step, k);
    assert(start < search.threads() as u64 && nonce == nth_nonce(
        start,
        search.threads() as u64,
        k,
    ));
}

proof fn lemma_first_winner_stays(outcomes: Seq<MineOutcome>, i: int)
    requires
        0 <= i <= outcomes.len(),
        first_winner(outcomes.take(i)) is Some,
    ensures
        first_winner(outcomes) == first_winner(outcomes.take(i)),
    decreases outcomes.len() - i,
{
    if i == outcomes.len() {
        assert(outcomes.take(i) =~= outcomes);
    } else {
        assert(outcomes.take(i + 1).drop_last() =~= outcomes.take(i));
        lemma_first_winner_stays(outcomes, i + 1);
    }
}

/// A challenge that its workers have ended on is answered: once each of the workers has returned,
/// and none of them has merely run out of nonces, there is a solution, unless there are no workers
/// or the one nonce that stands for none solves the challenge.
pub proof fn law_ended_workers_leave_a_solution(search: Search, outcomes: Seq<MineOutcome>)
    requires
        outcomes.len() == search.threads(),
        forall|i: int| 0 <= i < outcomes.len() ==> search.can_end(#[trigger] outcomes[i]),
        forall|i: int| 0 <= i < outcomes.len() ==> !(#[trigger] outcomes[i] is Exhausted),
    ensures
        first_winner(outcomes) is None ==> search.threads() == 0 || solves(
            search.prefix(),
            search.difficulty(),
            u64::MAX,
        ),
        search.threads() == 0 ==> first_winner(outcomes) is None,
{
    if outcomes.len() > 0 && first_winner(outcomes) is None {
        lemma_no_winner(outcomes, 0);
        assert(search.can_end(outcomes[0]));
        assert(!(outcomes[0] is Exhausted));
        assert(search.terms().delivered(u64::MAX));
        lemma_delivered_by_worker(search, u64::MAX);
        law_delivered_is_least(
            search.prefix(),
            search.difficulty(),
            search.threads() as u64,
            u64::MAX,
        );
    }
}

proof fn lemma_no_winner(outcomes: Seq<MineOutcome>, i: int)
    requires
        0 <= i < outcomes.len(),
        first_winner(outcomes) is None,
    ensures
        winner_of(outcomes[i]) is None,
    decreases outcomes.len(),
{
    if i < outcomes.len() - 1 {
        lemma_no_winner(outcomes.drop_last(), i);
    }
}

/// What a worker delivers solves the challenge, and no smaller nonce with the same remainder does.
/// With no difficulty at all it is smaller than the number of workers.
pub proof fn law_delivered_is_least(prefix: Seq<u8>, difficulty: u32, threads: u64, nonce: u64)
    requires
        delivered(prefix, difficulty, threads, nonce),
    ensures
        least_of_its_remainder(prefix, difficulty, threads, nonce),
        difficulty == 0 ==> nonce < threads,
{
    let (worker, k): (u64, nat) = choose|worker: u64, k: nat|
        worker < threads && nonce == #[trigger] nth_nonce(worker, threads, k) && first_solution(
            prefix,
            difficulty,
            worker,
            threads,
            k,
        );
    assert forall|m: u64| #![trigger solves(prefix, difficulty, m)]
        m < nonce && m % threads == nonce % threads implies !solves(prefix, difficulty, m) by {
        let j = lemma_smaller_came_before(threads, worker, k, m);
        assert(!solves(prefix, difficulty, nth_nonce(worker, threads, j)));
    }
    if difficulty == 0 && nonce >= threads {
        let m = (nonce - threads) as u64;
        lemma_mod_add_multiples_vanish(m as int, threads as int);
        assert(solves(prefix, difficulty, m));
    }
}

/// A nonce below the `k`-th of a worker's progression, with the same remainder, came before it.
proof fn lemma_smaller_came_before(threads: u64, worker: u64, k: nat, m: u64) -> (j: nat)
    requires
        worker < threads,
        m < nth_nonce(worker, threads, k),
        m % threads == nth_nonce(worker, threads, k) % threads,
    ensures
        j < k,
        nth_nonce(worker, threads, j) == m,
{
    let t = threads as int;
    let n = nth_nonce(worker, threads, k) as int;
    let all: int = 0x1_0000_0000_0000_0000;
    let x = worker + k * threads;
    let c = x / all;
    assert(k * threads >= 0) by (nonlinear_arith);
    lemma_fundamental_div_mod(x, all);
    lemma_fundamental_div_mod(n, t);
    lemma_fundamental_div_mod(m as int, t);
    let d = n / t - m as int / t;
    assert(n - m == t * d) by (nonlinear_arith)
        requires
            n == t * (n / t) + n % t,
            m == t * (m as int / t) + m as int % t,
            n % t == m as int % t,
            d == n / t - m as int / t,
    ;
    assert(d > 0) by (nonlinear_arith)
        requires
            t * d > 0,
            t > 0,
    ;
    assert(k >= d) by (nonlinear_arith)
        requires
            worker + k * t >= t * d,
            0 <= worker < t,
            t > 0,
    ;
    let j = (k - d) as nat;
    assert(worker + j * threads == m + all * c) by (nonlinear_arith)
        requires
            j == k - d,
            worker + k * threads == n + all * c,
            n - m == t * d,
            t == threads,
    ;
    lemma_mod_multiples_vanish(c, m as int, all);
    lemma_small_mod(m as nat, all as nat);
    j
}

/// The workers share the nonces out completely: every nonce is tried by the worker whose number is
/// its remainder, before that worker's nonces wrap around.
pub proof fn law_workers_cover_every_nonce(threads: u64, nonce: u64)
    requires
        threads > 0,
    ensures
        nonce % threads < threads,
        nth_nonce((nonce % threads) as u64, threads, (nonce / threads) as nat) == nonce,
{
    lemma_fundamental_div_mod(nonce as int, threads as int);
    lemma_mul_is_commutative(threads as int, nonce as int / threads as int);
}

/// No nonce is tried twice before a worker's nonces wrap around: neither by two workers nor by one
/// worker at two steps.
pub proof fn law_workers_never_overlap(threads: u64, i: u64, j: u64, k: nat, l: nat)
    requires
        i < threads,
        j < threads,
        i + k * threads <= u64::MAX,
        j + l * threads <= u64::MAX,
        nth_nonce(i, threads, k) == nth_nonce(j, threads, l),
    ensures
        i == j,
        k == l,
{
    assert(k * threads >= 0) by (nonlinear_arith);
    assert(l * threads >= 0) by (nonlinear_arith);
    let nonce = i + k * threads;
    lemma_fundamental_div_mod_converse(nonce, threads as int, k as int, i as int);
    lemma_fundamental_div_mod_converse(nonce, threads as int, l as int, j as int);
}

/// What the workers of a search look for is the search's own challenge, and the progressions that
/// they go through are its own: they begin below the number of workers and move on by it.
pub proof fn law_terms_are_the_challenge(search: Search)
    ensures
        search.terms().prefix == search.prefix(),
        search.terms().difficulty == search.difficulty(),
        search.terms().step == search.threads(),
        search.threads() > 0 ==> search.terms().last + 1 == search.threads(),
{
}

/// What is delivered comes from one of the workers: it solves, it lies on the progression that begins
/// at that worker's number and moves on by the number of workers, and nothing before it there solves.
pub proof fn law_delivered_from_a_progression(
    prefix: Seq<u8>,
    difficulty: u32,
    threads: u64,
    nonce: u64,
) -> (at: (u64, nat))
    requires
        delivered(prefix, difficulty, threads, nonce),
    ensures
        difficulty <= 256,
        solves(prefix, difficulty, nonce),
        at.0 < threads,
        nonce == nth_nonce(at.0, threads, at.1),
        forall|j: nat|
            j < at.1 ==> !solves(prefix, difficulty, #[trigger] nth_nonce(at.0, threads, j)),
{
    let (worker, k): (u64, nat) = choose|worker: u64, k: nat|
        worker < threads && nonce == #[trigger] nth_nonce(worker, threads, k) && first_solution(
            prefix,
            difficulty,
            worker,
            threads,
            k,
        );
    (worker, k)
}

/// What it is to be the least of a remainder: to solve, while no smaller nonce does that leaves the
/// same remainder.
pub proof fn law_least_solves(prefix: Seq<u8>, difficulty: u32, threads: u64, nonce: u64)
    ensures
        least_of_its_remainder(prefix, difficulty, threads, nonce) <==> solves(
            prefix,
            difficulty,
            nonce,
        ) && forall|m: u64|
            m < nonce && m % threads == nonce % threads ==> !#[trigger] solves(
                prefix,
                difficulty,
                m,
            ),
{
}

/// What a worker's end tells of the challenge: a worker that solved has a solution, and one that
/// solved or stopped knows of one, unless the largest nonce is one.
pub proof fn law_ended_worker_knows_a_solution(search: Search, outcome: MineOutcome)
    requires
        search.can_end(outcome),
    ensures
        outcome matches MineOutcome::Solved { nonce, winner } ==> {
            &&& solves(search.prefix(), search.difficulty(), nonce)
            &&& winner_of(outcome) == winner@
            &&& nonce != u64::MAX ==> winner@ is Some
        },
        outcome matches MineOutcome::Stopped { winner, tried: _ } ==> winner_of(outcome) == winner@,
        outcome is Exhausted ==> winner_of(outcome) is None,
        winner_of(outcome) matches Some(nonce) ==> nonce != u64::MAX && solves(
            search.prefix(),
            search.difficulty(),
            nonce,
        ),
        winner_of(outcome) is None && !(outcome is Exhausted) ==> solves(
            search.prefix(),
            search.difficulty(),
            u64::MAX,
        ),
{
    let (worker, reported, watch): (u64, Reported, Watch) = choose|
        worker: u64,
        reported: Reported,
        watch: Watch,
    |
        worker < search.threads() && #[trigger] mined_holds(
            search.terms(),
            worker,
            Mined { outcome, reported, watch },
        );
    let _ = law_end_of_a_search(search.terms(), worker, Mined { outcome, reported, watch });
    match outcome {
        MineOutcome::Solved { nonce: _, winner } => law_winner_solves(winner),
        MineOutcome::Stopped { winner, tried: _ } => law_winner_solves(winner),
        MineOutcome::Exhausted => {},
    }
}

/// Which nonce is the answer: that of the first worker who knows of one, whatever the others know,
/// and none where no worker knows of any.
pub proof fn law_first_who_knows_answers(outcomes: Seq<MineOutcome>, i: int)
    ensures
        0 <= i < outcomes.len() && winner_of(outcomes[i]) is Some && (forall|j: int|
            0 <= j < i ==> winner_of(#[trigger] outcomes[j]) is None) ==> first_winner(outcomes)
            == winner_of(outcomes[i]),
        (forall|j: int| 0 <= j < outcomes.len() ==> winner_of(#[trigger] outcomes[j]) is None)
            ==> first_winner(outcomes) is None,
    decreases outcomes.len(),
{
    if outcomes.len() > 0 {
        let fewer = outcomes.drop_last();
        let last = outcomes.len() - 1;
        law_first_who_knows_answers(fewer, i);
        assert(outcomes[last] == outcomes.last());
        assert forall|j: int| 0 <= j < fewer.len() implies #[trigger] fewer[j] == outcomes[j] by {}
    }
}

} // verus!
