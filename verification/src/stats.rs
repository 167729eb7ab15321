//! The running totals of a mining session.
use std::time::Instant;
use vstd::prelude::*;

verus! {

/// `std::time::Instant`: a moment on the machine's clock, carried through unread.
#[verifier::external_type_specification]
#[verifier::external_body]
pub struct ExInstant(Instant);

/// `std::time::Instant::now`: the moment of the call. Nothing is claimed of it.
pub assume_specification[ Instant::now ]() -> Instant;

/// A total of hashes after `n` more: it wraps around at two to the power 64.
pub open spec fn hashes_after(total: u64, n: u64) -> u64 {
    ((total + n) % 0x1_0000_0000_0000_0000) as u64
}

/// A total of hashes after all of `amounts` have been added, one after the other.
pub open spec fn hashes_after_all(total: u64, amounts: Seq<u64>) -> u64
    decreases amounts.len(),
{
    if amounts.len() == 0 {
        total
    } else {
        hashes_after(hashes_after_all(total, amounts.drop_last()), amounts.last())
    }
}

/// The sum of `amounts`.
pub open spec fn sum(amounts: Seq<u64>) -> nat
    decreases amounts.len(),
{
    if amounts.len() == 0 {
        0
    } else {
        sum(amounts.drop_last()) + amounts.last() as nat
    }
}

/// Totals since the session began.
#[derive(Clone, Copy)]
pub struct Stats {
    /// Hashes computed so far, modulo two to the power 64.
    pub total_hashes: u64,
    /// Tokens minted so far.
    pub total_minted: u64,
    /// When the session began.
    pub start_time: Instant,
    /// Where these totals were read last.
    pub seen: Sighting,
}

/// A look at the totals of a place. Nothing but reading them gives one of that place.
#[derive(Clone, Copy)]
pub struct Sighting {
    place: Ghost<int>,
    hashes: Ghost<u64>,
}

impl Sighting {
    /// Where the totals are kept.
    pub closed spec fn place(&self) -> int {
        self.place@
    }

    /// The hashes that were counted there.
    pub closed spec fn hashes(&self) -> u64 {
        self.hashes@
    }
}

impl Stats {
    /// Empty totals for a session that begins now.
    pub fn new() -> (stats: Self)
        ensures
            stats.total_hashes == 0,
            stats.total_minted == 0,
    {
        let seen = Sighting { place: Ghost(arbitrary()), hashes: Ghost(0) };
        Stats { total_hashes: 0, total_minted: 0, start_time: Instant::now(), seen }
    }

    /// Adds `n` hashes to the total, which wraps around at two to the power 64.
    pub fn add_hashes(&mut self, n: u64)
        ensures
            final(self).total_hashes == hashes_after(old(self).total_hashes, n),
            final(self).total_hashes == old(self).total_hashes + n || final(self).total_hashes
                == old(self).total_hashes + n - 0x1_0000_0000_0000_0000,
            final(self).total_minted == old(self).total_minted,
            final(self).start_time == old(self).start_time,
    {
        self.total_hashes = self.total_hashes.wrapping_add(n);
    }
}

/// Totals that are kept in one place. They cannot be copied, and nothing tells of other totals that
/// they are in the same place, so that what is added for a place is added to these.
pub struct Totals {
    stats: Stats,
    opening: Ghost<u64>,
    place: Ghost<int>,
}

impl Totals {
    /// Where the totals are kept.
    pub closed spec fn place(&self) -> int {
        self.place@
    }

    /// The hashes that had been counted when the totals were put in their place.
    pub closed spec fn opening(&self) -> u64 {
        self.opening@
    }

    /// Hashes counted so far, modulo two to the power 64.
    pub closed spec fn hashes(&self) -> u64 {
        self.stats.total_hashes
    }

    /// Tokens minted so far.
    pub closed spec fn minted(&self) -> u64 {
        self.stats.total_minted
    }

    /// When the session began.
    pub closed spec fn start(&self) -> Instant {
        self.stats.start_time
    }

    /// Puts `stats` in a place of their own.
    pub fn new(stats: Stats) -> (totals: Self)
        ensures
            totals.opening() == stats.total_hashes,
            totals.hashes() == stats.total_hashes,
            totals.minted() == stats.total_minted,
            totals.start() == stats.start_time,
    {
        Totals { stats, opening: Ghost(stats.total_hashes), place: Ghost(arbitrary()) }
    }

    /// The totals as they are.
    pub fn read(&self) -> (stats: Stats)
        ensures
            stats.total_hashes == self.hashes(),
            stats.total_minted == self.minted(),
            stats.start_time == self.start(),
            stats.seen.place() == self.place(),
            stats.seen.hashes() == self.hashes(),
    {
        Stats {
            total_hashes: self.stats.total_hashes,
            total_minted: self.stats.total_minted,
            start_time: self.stats.start_time,
            seen: Sighting { place: Ghost(self.place()), hashes: Ghost(self.hashes()) },
        }
    }
}

/// What one report did to the totals of a place.
pub struct Addition {
    place: Ghost<int>,
    before: Ghost<u64>,
    after: Ghost<u64>,
}

impl Addition {
    /// Where the totals are kept.
    pub closed spec fn place(&self) -> int {
        self.place@
    }

    /// The hashes that were counted there when the totals were taken up.
    pub closed spec fn before(&self) -> u64 {
        self.before@
    }

    /// The hashes that were counted there when the totals were put back.
    pub closed spec fn after(&self) -> u64 {
        self.after@
    }
}

/// The hashes that one worker has reported. It only grows by what is added to some totals.
pub struct Reported {
    hashes: u128,
    places: Ghost<Map<int, nat>>,
}

impl Reported {
    /// How many hashes have been reported.
    pub closed spec fn hashes(&self) -> nat {
        self.hashes as nat
    }

    /// How many of them have been added to the totals of `place`.
    pub closed spec fn added_at(&self, place: int) -> nat {
        if self.places@.dom().contains(place) {
            self.places@[place]
        } else {
            0
        }
    }

    /// Nothing has been reported.
    pub fn nothing() -> (reported: Self)
        ensures
            reported.hashes() == 0,
            forall|place: int| #[trigger] reported.added_at(place) == 0,
    {
        Reported { hashes: 0, places: Ghost(Map::empty()) }
    }

    /// Reports `n` hashes to the totals of a place: adds them to `totals`.
    pub fn add_to(&mut self, totals: &mut Totals, n: u64) -> (done: Addition)
        requires
            old(self).hashes() + n <= u128::MAX,
        ensures
            final(self).hashes() == old(self).hashes() + n,
            final(self).added_at(old(totals).place()) == old(self).added_at(old(totals).place()) + n,
            final(totals).hashes() == hashes_after(old(totals).hashes(), n),
            final(totals).place() == old(totals).place(),
            final(totals).opening() == old(totals).opening(),
            final(totals).minted() == old(totals).minted(),
            final(totals).start() == old(totals).start(),
            done.place() == old(totals).place(),
            done.before() == old(totals).hashes(),
            done.after() == final(totals).hashes(),
    {
        let ghost before = totals.hashes();
        let ghost place = totals.place();
        let ghost added = self.added_at(place) + n as nat;
        self.report(&mut totals.stats, n);
        self.places = Ghost(self.places@.insert(place, added));
        Addition { place: Ghost(place), before: Ghost(before), after: Ghost(totals.hashes()) }
    }

    /// Reports `n` hashes: adds them to `stats`.
    pub fn report(&mut self, stats: &mut Stats, n: u64)
        requires
            old(self).hashes() + n <= u128::MAX,
        ensures
            final(self).hashes() == old(self).hashes() + n,
            forall|place: int| #[trigger] final(self).added_at(place) == old(self).added_at(place),
            final(stats).total_hashes == hashes_after(old(stats).total_hashes, n),
            final(stats).total_minted == old(stats).total_minted,
            final(stats).start_time == old(stats).start_time,
    {
        stats.add_hashes(n);
        self.hashes = self.hashes + n as u128;
    }

    /// How many hashes have been reported.
    pub fn count(&self) -> (hashes: u128)
        ensures
            hashes == self.hashes(),
    {
        self.hashes
    }
}

/// A total after more hashes is the sum, or that sum less two to the power 64 where it does not fit.
pub proof fn law_add_wraps_around(total: u64, n: u64)
    ensures
        total + n <= u64::MAX ==> hashes_after(total, n) == total + n,
        total + n > u64::MAX ==> hashes_after(total, n) == total + n - 0x1_0000_0000_0000_0000,
{
}

/// While nobody else adds, reports to a place add up: each of them finds what the one before it left
/// and adds its amount, so that the last one leaves what the first one found and all the amounts,
/// modulo two to the power 64.
#[verifier::spinoff_prover]
pub proof fn law_additions_add_up(additions: Seq<Addition>, amounts: Seq<u64>)
    requires
        additions.len() == amounts.len() > 0,
        forall|i: int| #![trigger additions[i]]
            0 <= i < additions.len() ==> additions[i].after() == hashes_after(
                additions[i].before(),
                amounts[i],
            ),
        forall|i: int| #![trigger additions[i]]
            0 < i < additions.len() ==> additions[i].before() == additions[i - 1].after(),
    ensures
        additions.last().after() == (additions[0].before() + amounts.fold_left(
            0int,
            |total: int, n: u64| total + n,
        )) % 0x1_0000_0000_0000_0000,
    decreases additions.len(),
{
    let add_up = |total: int, n: u64| total + n;
    let last = additions.len() - 1;
    let before = amounts.drop_last();
    assert(amounts.fold_left(0int, add_up) == before.fold_left(0int, add_up) + amounts[last]);
    assert(additions[last].after() == hashes_after(additions[last].before(), amounts[last]));
    if last > 0 {
        let earlier = additions.drop_last();
        assert forall|i: int| #![trigger earlier[i]] 0 <= i < earlier.len() implies earlier[i].after()
            == hashes_after(earlier[i].before(), before[i]) by {
            assert(earlier[i] == additions[i]);
        }
        assert forall|i: int| #![trigger earlier[i]] 0 < i < earlier.len() implies earlier[i].before()
            == earlier[i - 1].after() by {
            assert(earlier[i] == additions[i]);
        }
        law_additions_add_up(earlier, before);
        assert(additions[last].before() == earlier.last().after());
        let found = additions[0].before() + before.fold_left(0int, add_up);
        lemma_wrap_before_adding(found, amounts[last] as int);
    } else {
        assert(before.fold_left(0int, add_up) == 0);
    }
}

proof fn lemma_wrap_before_adding(a: int, n: int)
    ensures
        (a % 0x1_0000_0000_0000_0000 + n) % 0x1_0000_0000_0000_0000 == (a + n)
            % 0x1_0000_0000_0000_0000,
{
}

/// The amounts add up in any total, one after the other, modulo two to the power 64.
pub proof fn law_total_is_the_sum(total: u64, amounts: Seq<u64>)
    ensures
        hashes_after_all(total, amounts) == (total + amounts.fold_left(
            0int,
            |sum: int, n: u64| sum + n,
        )) % 0x1_0000_0000_0000_0000,
    decreases amounts.len(),
{
    if amounts.len() > 0 {
        let before = amounts.drop_last();
        law_total_is_the_sum(total, before);
        lemma_wrap_before_adding(
            total + before.fold_left(0int, |sum: int, n: u64| sum + n),
            amounts.last() as int,
        );
    }
}

/// No hash is lost: after any number of adds the total is the first total plus all the amounts,
/// modulo two to the power 64.
pub proof fn law_adds_sum_up(total: u64, amounts: Seq<u64>)
    ensures
        hashes_after_all(total, amounts) == (total + sum(amounts)) % 0x1_0000_0000_0000_0000,
    decreases amounts.len(),
{
    if amounts.len() > 0 {
        law_adds_sum_up(total, amounts.drop_last());
    }
}

/// The order of the adds does not matter, so that workers may add in any order: the same amounts
/// lead to the same total.
pub proof fn law_order_of_adds_does_not_matter(total: u64, a: Seq<u64>, b: Seq<u64>)
    requires
        a.to_multiset() == b.to_multiset(),
    ensures
        hashes_after_all(total, a) == hashes_after_all(total, b),
{
    law_adds_sum_up(total, a);
    law_adds_sum_up(total, b);
    lemma_sum_of_permutation(a, b);
}

proof fn lemma_sum_of_permutation(a: Seq<u64>, b: Seq<u64>)
    requires
        a.to_multiset() == b.to_multiset(),
    ensures
        sum(a) == sum(b),
    decreases a.len(),
{
    broadcast use vstd::seq_lib::group_to_multiset_ensures;

    assert(a.len() == a.to_multiset().len() && b.len() == b.to_multiset().len());
    if a.len() > 0 {
        let x = a.last();
        assert(a[a.len() - 1] == x);
        assert(a.contains(x));
        assert(b.to_multiset().count(x) > 0);
        assert(b.contains(x));
        let i = b.index_of(x);
        let fewer = b.remove(i);
        assert(a.drop_last() =~= a.remove(a.len() - 1));
        assert(fewer.to_multiset() =~= a.drop_last().to_multiset());
        lemma_sum_of_permutation(a.drop_last(), fewer);
        lemma_sum_without(b, i);
    }
}

proof fn lemma_sum_without(amounts: Seq<u64>, i: int)
    requires
        0 <= i < amounts.len(),
    ensures
        sum(amounts) == sum(amounts.remove(i)) + amounts[i],
    decreases amounts.len(),
{
    if i == amounts.len() - 1 {
        assert(amounts.remove(i) =~= amounts.drop_last());
    } else {
        lemma_sum_without(amounts.drop_last(), i);
        assert(amounts.remove(i).drop_last() =~= amounts.drop_last().remove(i));
        assert(amounts.remove(i).last() == amounts.last());
    }
}

} // verus!
