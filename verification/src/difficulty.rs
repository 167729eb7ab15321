//! What difficulty earned what reward, over the most recent mints.
use std::collections::VecDeque;
use std::time::Duration;
use vstd::prelude::*;

verus! {

/// The log keeps this many mints.
pub const LOG_CAPACITY: usize = 50;

/// One mint: the difficulty of its challenge, what the balance rose by, and the time that the
/// solution took.
pub type Entry = (u32, u64, Duration);

/// `entries` after one more mint: the oldest one leaves once the log is full.
pub open spec fn recorded(entries: Seq<Entry>, entry: Entry) -> Seq<Entry> {
    let longer = entries.push(entry);
    if longer.len() > LOG_CAPACITY {
        longer.drop_first()
    } else {
        longer
    }
}

/// The rewards and times of the entries of difficulty `difficulty`, oldest first.
pub open spec fn samples_of(entries: Seq<Entry>, difficulty: u32) -> Seq<(u64, Duration)>
    decreases entries.len(),
{
    if entries.len() == 0 {
        Seq::empty()
    } else {
        let older = samples_of(entries.drop_last(), difficulty);
        let last = entries.last();
        if last.0 == difficulty {
            older.push((last.1, last.2))
        } else {
            older
        }
    }
}

/// The mints of one difficulty.
pub struct DifficultyGroup {
    pub difficulty: u32,
    /// Reward and time of each mint, oldest first.
    pub samples: Vec<(u64, Duration)>,
}

/// Some group is about `difficulty`.
pub open spec fn has_group(groups: Seq<DifficultyGroup>, difficulty: u32) -> bool {
    exists|a: int| 0 <= a < groups.len() && (#[trigger] groups[a]).difficulty == difficulty
}

/// `groups` holds the entries by difficulty: one group for each difficulty that occurs, in
/// ascending order, with all the entries of that difficulty.
pub open spec fn groups_entries(entries: Seq<Entry>, groups: Seq<DifficultyGroup>) -> bool {
    &&& forall|a: int, b: int| #![trigger groups[a], groups[b]]
        0 <= a < b < groups.len() ==> groups[a].difficulty < groups[b].difficulty
    &&& forall|a: int| #![trigger groups[a]]
        0 <= a < groups.len() ==> groups[a].samples@.len() > 0 && groups[a].samples@ == samples_of(
            entries,
            groups[a].difficulty,
        )
    &&& forall|j: int| #![trigger entries[j]]
        0 <= j < entries.len() ==> has_group(groups, entries[j].0)
}

/// The most recent mints.
pub struct DifficultyLog {
    entries: VecDeque<Entry>,
}

impl View for DifficultyLog {
    type V = Seq<Entry>;

    closed spec fn view(&self) -> Seq<Entry> {
        self.entries@
    }
}

impl DifficultyLog {
    /// The log holds no more than its capacity.
    pub open spec fn wf(&self) -> bool {
        self@.len() <= LOG_CAPACITY
    }

    /// An empty log.
    pub fn new() -> (log: Self)
        ensures
            log.wf(),
            log@ == Seq::<Entry>::empty(),
    {
        DifficultyLog { entries: VecDeque::new() }
    }

    /// Records a mint; the oldest one leaves once the log is full.
    pub fn record(&mut self, difficulty: u32, balance_delta: u64, time: Duration)
        requires
            old(self).wf(),
        ensures
            final(self).wf(),
            final(self)@ == recorded(old(self)@, (difficulty, balance_delta, time)),
    {
        self.entries.push_back((difficulty, balance_delta, time));
        if self.entries.len() > LOG_CAPACITY {
            let _ = self.entries.pop_front();
            assert(self.entries@ =~= recorded(old(self)@, (difficulty, balance_delta, time)));
        }
    }

    /// The mints by difficulty, or nothing while there are fewer than two of them.
    pub fn analysis(&self) -> (groups: Option<Vec<DifficultyGroup>>)
        ensures
            groups is None <==> self@.len() < 2,
            groups matches Some(groups) ==> groups_entries(self@, groups@),
    {
        let len = self.entries.len();
        if len < 2 {
            return None;
        }
        let mut groups: Vec<DifficultyGroup> = Vec::new();
        let mut i: usize = 0;
        while i < len
            invariant
                i <= len == self@.len(),
                groups_entries(self@.take(i as int), groups@),
            decreases len - i,
        {
            let entry: Entry = self.entries[i];
            add_to_groups(&mut groups, entry, Ghost(self@.take(i as int)));
            assert(self@.take(i + 1) =~= self@.take(i as int).push(entry));
            i = i + 1;
        }
        assert(self@.take(len as int) =~= self@);
        Some(groups)
    }
}

/// The samples after one more entry.
proof fn lemma_samples_push(entries: Seq<Entry>, entry: Entry)
    ensures
        forall|d: u32| #[trigger]
            samples_of(entries.push(entry), d) == if d == entry.0 {
                samples_of(entries, d).push((entry.1, entry.2))
            } else {
                samples_of(entries, d)
            },
{
    assert(entries.push(entry).drop_last() =~= entries);
}

/// A difficulty that has no group has no entries.
proof fn lemma_no_group_no_samples(entries: Seq<Entry>, difficulty: u32)
    requires
        forall|j: int| 0 <= j < entries.len() ==> (#[trigger] entries[j]).0 != difficulty,
    ensures
        samples_of(entries, difficulty).len() == 0,
    decreases entries.len(),
{
    if entries.len() > 0 {
        assert(entries[entries.len() - 1].0 != difficulty);
        assert forall|j: int| 0 <= j < entries.drop_last().len() implies (
        #[trigger] entries.drop_last()[j]).0 != difficulty by {
            assert(entries.drop_last()[j] == entries[j]);
        }
        lemma_no_group_no_samples(entries.drop_last(), difficulty);
    }
}

/// Adds one more entry to the groups of the entries before it.
fn add_to_groups(groups: &mut Vec<DifficultyGroup>, entry: Entry, Ghost(entries): Ghost<Seq<Entry>>)
    requires
        groups_entries(entries, old(groups)@),
    ensures
        groups_entries(entries.push(entry), final(groups)@),
{
    let mut at: usize = 0;
    while at < groups.len() && groups[at].difficulty < entry.0
        invariant
            at <= groups@.len(),
            groups@ == old(groups)@,
            forall|a: int| 0 <= a < at ==> (#[trigger] groups@[a]).difficulty < entry.0,
        decreases groups.len() - at,
    {
        at = at + 1;
    }
    let ghost before = groups@;
    proof {
        lemma_samples_push(entries, entry);
    }
    let ghost longer = entries.push(entry);
    if at < groups.len() && groups[at].difficulty == entry.0 {
        groups[at].samples.push((entry.1, entry.2));
        proof {
            assert(forall|a: int| 0 <= a < groups@.len() ==> (#[trigger] groups@[a]).difficulty
                == before[a].difficulty);
            assert forall|j: int| 0 <= j < longer.len() implies has_group(
                groups@,
                (#[trigger] longer[j]).0,
            ) by {
                if j < entries.len() {
                    assert(has_group(before, entries[j].0));
                    let a = choose|a: int|
                        0 <= a < before.len() && (#[trigger] before[a]).difficulty == entries[j].0;
                    assert(groups@[a].difficulty == longer[j].0);
                } else {
                    assert(groups@[at as int].difficulty == longer[j].0);
                }
            }
        }
    } else {
        let mut samples: Vec<(u64, Duration)> = Vec::new();
        samples.push((entry.1, entry.2));
        let group = DifficultyGroup { difficulty: entry.0, samples };
        groups.insert(at, group);
        proof {
            assert forall|j: int| 0 <= j < entries.len() implies (#[trigger] entries[j]).0
                != entry.0 by {
                assert(has_group(before, entries[j].0));
                let a = choose|a: int|
                    0 <= a < before.len() && (#[trigger] before[a]).difficulty == entries[j].0;
                if a > at {
                    assert(before[at as int].difficulty < before[a].difficulty);
                }
            }
            lemma_no_group_no_samples(entries, entry.0);
            assert(group.samples@ =~= samples_of(longer, entry.0));
            assert forall|a: int| 0 <= a < groups@.len() implies #[trigger] groups@[a] == if a < at {
                before[a]
            } else if a == at {
                group
            } else {
                before[a - 1]
            } by {}
            assert forall|a: int, b: int|
                #![trigger groups@[a], groups@[b]]
                0 <= a < b < groups@.len() implies groups@[a].difficulty < groups@[b].difficulty by {
                if b > at {
                    assert(before[at as int].difficulty <= before[b - 1].difficulty);
                }
            }
            assert forall|a: int| #![trigger groups@[a]] 0 <= a < groups@.len() implies groups@[a].samples@.len()
                > 0 && groups@[a].samples@ == samples_of(longer, groups@[a].difficulty) by {
                if a > at {
                    assert(before[at as int].difficulty <= before[a - 1].difficulty);
                }
            }
            assert forall|j: int| 0 <= j < longer.len() implies has_group(
                groups@,
                (#[trigger] longer[j]).0,
            ) by {
                if j < entries.len() {
                    assert(has_group(before, entries[j].0));
                    let a = choose|a: int|
                        0 <= a < before.len() && (#[trigger] before[a]).difficulty == entries[j].0;
                    if a < at {
                        assert(groups@[a].difficulty == longer[j].0);
                    } else {
                        assert(groups@[a + 1].difficulty == longer[j].0);
                    }
                } else {
                    assert(groups@[at as int].difficulty == longer[j].0);
                }
            }
        }
    }
}

/// What one more mint does to the log: it comes last, and the others stay in their order. The oldest
/// one leaves, and only that, where there would be more than fifty.
pub proof fn law_mint_comes_last(entries: Seq<Entry>, entry: Entry)
    requires
        entries.len() <= 50,
    ensures
        recorded(entries, entry).last() == entry,
        entries.len() < 50 ==> recorded(entries, entry) == entries + seq![entry],
        entries.len() == 50 ==> recorded(entries, entry) == entries.skip(1) + seq![entry],
{
    if entries.len() < 50 {
        assert(recorded(entries, entry) =~= entries + seq![entry]);
    } else {
        assert(recorded(entries, entry) =~= entries.skip(1) + seq![entry]);
    }
}

/// The log holds up to fifty mints.
pub proof fn law_log_holds_fifty(log: DifficultyLog)
    ensures
        log.wf() <==> log@.len() <= 50,
{
}

/// The samples of a difficulty are the rewards and times of its entries, all of them, in their
/// order.
pub proof fn law_samples_are_the_entries(entries: Seq<Entry>, difficulty: u32)
    ensures
        samples_of(entries, difficulty) == entries.filter(
            |e: Entry| e.0 == difficulty,
        ).map_values(|e: Entry| (e.1, e.2)),
    decreases entries.len(),
{
    reveal(Seq::filter);
    let of_it = |e: Entry| e.0 == difficulty;
    let sample = |e: Entry| (e.1, e.2);
    let kept = entries.filter(of_it);
    if entries.len() > 0 {
        let older = entries.drop_last();
        law_samples_are_the_entries(older, difficulty);
        if entries.last().0 == difficulty {
            assert(kept == older.filter(of_it).push(entries.last()));
            assert(kept.map_values(sample) =~= older.filter(of_it).map_values(sample).push(
                sample(entries.last()),
            ));
        }
    } else {
        assert(kept.map_values(sample) =~= samples_of(entries, difficulty));
    }
}

/// What the analysis holds: the groups come in ascending order of difficulty, no two of them about
/// the same. Each holds the rewards and times of all the entries of its difficulty, in their order,
/// and there is a group for every entry.
pub proof fn law_groups_by_difficulty(entries: Seq<Entry>, groups: Seq<DifficultyGroup>)
    requires
        groups_entries(entries, groups),
    ensures
        forall|a: int, b: int| #![trigger groups[a], groups[b]]
            0 <= a < b < groups.len() ==> groups[a].difficulty < groups[b].difficulty,
        forall|a: int| #![trigger groups[a]]
            0 <= a < groups.len() ==> groups[a].samples@.len() > 0 && groups[a].samples@
                == entries.filter(|e: Entry| e.0 == groups[a].difficulty).map_values(
                |e: Entry| (e.1, e.2),
            ),
        forall|j: int| #![trigger entries[j]]
            0 <= j < entries.len() ==> groups.map_values(
                |g: DifficultyGroup| g.difficulty,
            ).contains(entries[j].0),
{
    assert forall|a: int| #![trigger groups[a]] 0 <= a < groups.len() implies groups[a].samples@.len()
        > 0 && groups[a].samples@ == entries.filter(
        |e: Entry| e.0 == groups[a].difficulty,
    ).map_values(|e: Entry| (e.1, e.2)) by {
        law_samples_are_the_entries(entries, groups[a].difficulty);
        let d = groups[a].difficulty;
        assert((|e: Entry| e.0 == groups[a].difficulty) =~= (|e: Entry| e.0 == d));
    }
    let difficulties = groups.map_values(|g: DifficultyGroup| g.difficulty);
    assert forall|j: int| #![trigger entries[j]] 0 <= j < entries.len() implies difficulties.contains(
        entries[j].0,
    ) by {
        assert(has_group(groups, entries[j].0));
        let a = choose|a: int|
            0 <= a < groups.len() && (#[trigger] groups[a]).difficulty == entries[j].0;
        assert(difficulties[a] == entries[j].0);
    }
}

/// The log remembers exactly the most recent mints: after any number of them, the last ones, up
/// to its capacity, oldest first.
pub proof fn law_log_keeps_the_latest(mints: Seq<Entry>)
    ensures
        recorded_all(mints) == if mints.len() <= LOG_CAPACITY {
            mints
        } else {
            mints.skip(mints.len() - LOG_CAPACITY)
        },
    decreases mints.len(),
{
    if mints.len() > 0 {
        law_log_keeps_the_latest(mints.drop_last());
        assert(mints.drop_last().push(mints.last()) =~= mints);
        let kept = recorded_all(mints.drop_last());
        if mints.len() > LOG_CAPACITY {
            assert(recorded(kept, mints.last()) =~= mints.skip(mints.len() - LOG_CAPACITY));
        }
    } else {
        assert(recorded_all(mints) =~= mints);
    }
}

/// What an empty log holds after all of `mints`.
pub open spec fn recorded_all(mints: Seq<Entry>) -> Seq<Entry>
    decreases mints.len(),
{
    if mints.len() == 0 {
        Seq::empty()
    } else {
        recorded(recorded_all(mints.drop_last()), mints.last())
    }
}

/// The number of samples in all groups together.
pub open spec fn total_samples(groups: Seq<DifficultyGroup>) -> nat
    decreases groups.len(),
{
    if groups.len() == 0 {
        0
    } else {
        total_samples(groups.drop_last()) + groups.last().samples@.len()
    }
}

/// The number of entries of all the given difficulties together.
spec fn count_of(entries: Seq<Entry>, difficulties: Seq<u32>) -> nat
    decreases difficulties.len(),
{
    if difficulties.len() == 0 {
        0
    } else {
        count_of(entries, difficulties.drop_last()) + samples_of(entries, difficulties.last()).len()
    }
}

proof fn lemma_count_push(entries: Seq<Entry>, entry: Entry, difficulties: Seq<u32>)
    requires
        difficulties.no_duplicates(),
    ensures
        count_of(entries.push(entry), difficulties) == count_of(entries, difficulties) + if difficulties.contains(
            entry.0,
        ) {
            1int
        } else {
            0
        },
    decreases difficulties.len(),
{
    lemma_samples_push(entries, entry);
    if difficulties.len() > 0 {
        let fewer = difficulties.drop_last();
        lemma_count_push(entries, entry, fewer);
        assert(difficulties.contains(entry.0) <==> fewer.contains(entry.0) || difficulties.last()
            == entry.0) by {
            if difficulties.contains(entry.0) {
                let i = difficulties.index_of(entry.0);
                if i < fewer.len() {
                    assert(fewer[i] == entry.0);
                }
            }
            if fewer.contains(entry.0) {
                let i = fewer.index_of(entry.0);
                assert(difficulties[i] == entry.0);
            }
            assert(difficulties[difficulties.len() - 1] == difficulties.last());
        }
        assert(!(fewer.contains(entry.0) && difficulties.last() == entry.0)) by {
            if fewer.contains(entry.0) {
                let i = fewer.index_of(entry.0);
                assert(difficulties[i] == entry.0);
            }
        }
    }
}

proof fn lemma_count_all(entries: Seq<Entry>, difficulties: Seq<u32>)
    requires
        difficulties.no_duplicates(),
        forall|j: int| 0 <= j < entries.len() ==> difficulties.contains((#[trigger] entries[j]).0),
    ensures
        count_of(entries, difficulties) == entries.len(),
    decreases entries.len(),
{
    if entries.len() == 0 {
        lemma_count_none(entries, difficulties);
    } else {
        let older = entries.drop_last();
        assert forall|j: int| 0 <= j < older.len() implies difficulties.contains(
            (#[trigger] older[j]).0,
        ) by {
            assert(older[j] == entries[j]);
        }
        lemma_count_all(older, difficulties);
        lemma_count_push(older, entries.last(), difficulties);
        assert(older.push(entries.last()) =~= entries);
        assert(difficulties.contains(entries[entries.len() - 1].0));
    }
}

proof fn lemma_count_none(entries: Seq<Entry>, difficulties: Seq<u32>)
    requires
        entries.len() == 0,
    ensures
        count_of(entries, difficulties) == 0,
    decreases difficulties.len(),
{
    if difficulties.len() > 0 {
        lemma_count_none(entries, difficulties.drop_last());
    }
}

proof fn lemma_total_is_count(entries: Seq<Entry>, groups: Seq<DifficultyGroup>)
    requires
        forall|a: int| #![trigger groups[a]]
            0 <= a < groups.len() ==> groups[a].samples@ == samples_of(
                entries,
                groups[a].difficulty,
            ),
    ensures
        total_samples(groups) == count_of(
            entries,
            groups.map_values(|g: DifficultyGroup| g.difficulty),
        ),
    decreases groups.len(),
{
    let difficulties = groups.map_values(|g: DifficultyGroup| g.difficulty);
    if groups.len() > 0 {
        let fewer = groups.drop_last();
        assert forall|a: int| #![trigger fewer[a]] 0 <= a < fewer.len() implies fewer[a].samples@
            == samples_of(entries, fewer[a].difficulty) by {
            assert(fewer[a] == groups[a]);
        }
        lemma_total_is_count(entries, fewer);
        assert(fewer.map_values(|g: DifficultyGroup| g.difficulty) =~= difficulties.drop_last());
        assert(groups[groups.len() - 1] == groups.last());
    }
}

/// Grouping loses nothing and counts nothing twice: the groups together hold as many samples as
/// there are entries.
pub proof fn law_groups_hold_every_entry(entries: Seq<Entry>, groups: Seq<DifficultyGroup>)
    requires
        groups_entries(entries, groups),
    ensures
        total_samples(groups) == entries.len(),
{
    let difficulties = groups.map_values(|g: DifficultyGroup| g.difficulty);
    assert forall|a: int, b: int|
        0 <= a < difficulties.len() && 0 <= b < difficulties.len() && a
            != b implies difficulties[a] != difficulties[b] by {
        assert(difficulties[a] == groups[a].difficulty && difficulties[b] == groups[b].difficulty);
    }
    assert forall|j: int| 0 <= j < entries.len() implies difficulties.contains(
        (#[trigger] entries[j]).0,
    ) by {
        assert(has_group(groups, entries[j].0));
        let a = choose|a: int|
            0 <= a < groups.len() && (#[trigger] groups[a]).difficulty == entries[j].0;
        assert(difficulties[a] == entries[j].0);
    }
    lemma_total_is_count(entries, groups);
    lemma_count_all(entries, difficulties);
}

} // verus!
