//! The worker: it draws integers from the cursor until none is left, and
//! tallies the factor count of each in a histogram of its own.

use crate::cursor::{next_number, Cursor};
use crate::factor::{can_factor, factor_count, factor_count_of, lemma_factor_count_bounds};
use crate::histogram::{
    count_of, lemma_merged_keys, lemma_total_recorded, merged, record, recorded, total,
};
use std::collections::HashMap;
use vstd::prelude::*;

verus! {

/// Where a worker stands.
pub enum WorkerState {
    /// It still draws integers.
    Running,
    /// The cursor told it that no work is left.
    Done,
}

/// A worker: its state, the histogram it has built so far, and the last
/// integer it drew.
pub struct Worker {
    state: WorkerState,
    histogram: HashMap<u128, u128>,
    last: u128,
}

/// How many integers `n` with `lo < n <= hi` have the factor count `key`.
pub open spec fn occurrences(lo: nat, hi: nat, key: nat) -> nat
    decreases hi,
{
    if hi <= lo {
        0
    } else if factor_count_of(hi) == key {
        occurrences(lo, (hi - 1) as nat, key) + 1
    } else {
        occurrences(lo, (hi - 1) as nat, key)
    }
}

/// The histogram of the integers above `lo` up to `hi`: an entry for each
/// factor count that one of them has, holding how many of them have it.
pub open spec fn tally(lo: nat, hi: nat) -> Map<u128, u128> {
    Map::new(
        |key: u128| occurrences(lo, hi, key as nat) > 0,
        |key: u128| occurrences(lo, hi, key as nat) as u128,
    )
}

/// No factor count occurs more often than there are integers in the range.
pub proof fn lemma_occurrences_bound(lo: nat, hi: nat, key: nat)
    ensures
        occurrences(lo, hi, key) <= if lo <= hi { hi - lo } else { 0 },
    decreases hi,
{
    if hi > lo {
        lemma_occurrences_bound(lo, (hi - 1) as nat, key);
    }
}

/// The histogram of a range grows with the range as if its next integer were
/// recorded.
pub proof fn lemma_tally_step(lo: nat, hi: nat)
    requires
        lo <= hi < u128::MAX,
        factor_count_of(hi + 1) <= u128::MAX,
    ensures
        tally(lo, hi + 1) == recorded(tally(lo, hi), factor_count_of(hi + 1) as u128),
{
    let key = factor_count_of(hi + 1) as u128;
    assert forall|other: u128|
        occurrences(lo, hi + 1, other as nat) == occurrences(lo, hi, other as nat) + if other
            == key {
            1nat
        } else {
            0nat
        } && occurrences(lo, hi + 1, other as nat) <= u128::MAX by {
        lemma_occurrences_bound(lo, hi + 1, other as nat);
    }
    assert(tally(lo, hi + 1) =~= recorded(tally(lo, hi), key));
}

impl Worker {
    /// Where the worker stands.
    pub closed spec fn state(&self) -> WorkerState {
        self.state
    }

    /// The histogram that the worker has built so far.
    pub closed spec fn histogram(&self) -> Map<u128, u128> {
        self.histogram@
    }

    /// The last integer that the worker drew, 0 before the first.
    pub closed spec fn last_drawn(&self) -> nat {
        self.last as nat
    }

    /// The worker has recorded each integer once, in rising order: no count
    /// in its histogram is above the last integer it drew.
    pub closed spec fn wf(&self) -> bool {
        forall|key: u128| count_of(self.histogram@, key) <= self.last
    }

    /// A running worker that has drawn nothing yet.
    pub fn new() -> (worker: Worker)
        ensures
            worker.wf(),
            worker.state() == WorkerState::Running,
            worker.histogram() == Map::<u128, u128>::empty(),
            worker.last_drawn() == 0,
    {
        Worker { state: WorkerState::Running, histogram: HashMap::new(), last: 0 }
    }

    /// Whether the worker still draws integers.
    pub fn is_running(&self) -> (running: bool)
        ensures
            running == (self.state() == WorkerState::Running),
    {
        match self.state {
            WorkerState::Running => true,
            WorkerState::Done => false,
        }
    }

    /// The last integer that the worker drew, 0 before the first.
    pub fn last(&self) -> (n: u128)
        ensures
            n == self.last_drawn(),
    {
        self.last
    }

    /// Takes what the cursor handed out. On 0 the worker is done and its
    /// histogram stays as it is. On any other integer it stays running and
    /// records the factor count of that integer.
    ///
    /// The cursor hands out rising integers, so `issued` is above the last
    /// integer drawn.
    pub fn step(&mut self, issued: u128)
        requires
            old(self).wf(),
            old(self).state() == WorkerState::Running,
            issued != 0 ==> issued > old(self).last_drawn() && can_factor(issued as nat),
        ensures
            final(self).wf(),
            issued == 0 ==> {
                &&& final(self).state() == WorkerState::Done
                &&& final(self).histogram() == old(self).histogram()
                &&& final(self).last_drawn() == old(self).last_drawn()
            },
            issued != 0 ==> {
                &&& final(self).state() == WorkerState::Running
                &&& final(self).histogram() == recorded(
                    old(self).histogram(),
                    factor_count_of(issued as nat) as u128,
                )
                &&& final(self).last_drawn() == issued
            },
    {
        if issued == 0 {
            self.state = WorkerState::Done;
        } else {
            let count: u128 = factor_count(issued);
            assert(count_of(self.histogram@, count) <= self.last);
            record(&mut self.histogram, count);
            self.last = issued;
            assert forall|key: u128| count_of(self.histogram@, key) <= self.last by {
                assert(count_of(old(self).histogram@, key) <= old(self).last);
            }
        }
    }

    /// Hands the histogram over once the worker is done.
    pub fn into_histogram(self) -> (histogram: HashMap<u128, u128>)
        requires
            self.state() == WorkerState::Done,
        ensures
            histogram@ == self.histogram(),
    {
        self.histogram
    }
}

/// The larger of the cursor's place and the bound: the place from which the
/// cursor hands out nothing but 0.
pub open spec fn exhausted_at(served: nat, bound: nat) -> nat {
    if served < bound {
        bound
    } else {
        served
    }
}

/// Runs one worker to its end on a cursor that it has to itself: it draws
/// integers until the cursor hands out 0, and returns the histogram of the
/// factor counts of all integers drawn, which are those above the cursor's
/// place up to `max_number`.
pub fn worker(cursor: &mut Cursor, max_number: u128) -> (histogram: HashMap<u128, u128>)
    requires
        old(cursor)@ < u128::MAX,
        max_number < u128::MAX,
        forall|n: nat| old(cursor)@ < n <= max_number ==> #[trigger] can_factor(n),
    ensures
        histogram@ == tally(old(cursor)@, max_number as nat),
        final(cursor)@ == exhausted_at(old(cursor)@, max_number as nat) + 1,
{
    let ghost start = cursor@;
    let ghost end = exhausted_at(start, max_number as nat);
    let mut local: Worker = Worker::new();
    while local.is_running()
        invariant
            local.wf(),
            end == exhausted_at(start, max_number as nat),
            end < u128::MAX,
            start <= cursor@ <= end + 1,
            forall|n: nat| start < n <= max_number ==> #[trigger] can_factor(n),
            local.state() == WorkerState::Running ==> {
                &&& cursor@ <= end
                &&& local.last_drawn() <= cursor@
                &&& local.histogram() == tally(start, cursor@)
            },
            local.state() == WorkerState::Done ==> {
                &&& cursor@ == end + 1
                &&& local.histogram() == tally(start, max_number as nat)
            },
        decreases end + 1 - cursor@,
    {
        let ghost before = cursor@;
        let issued: u128 = next_number(cursor, max_number);
        proof {
            if issued != 0 {
                assert(can_factor(issued as nat));
                lemma_factor_count_bounds(issued as nat);
                lemma_tally_step(start, before);
            } else {
                assert(tally(start, before) =~= tally(start, max_number as nat));
            }
        }
        local.step(issued);
    }
    local.into_histogram()
}

/// A range without integers has the empty histogram: with a bound of 0
/// nothing is recorded.
pub proof fn lemma_tally_of_nothing(lo: nat, hi: nat)
    requires
        hi <= lo,
    ensures
        tally(lo, hi) == Map::<u128, u128>::empty(),
{
    assert(tally(lo, hi) =~= Map::<u128, u128>::empty());
}

/// With a bound of 1 the histogram holds the one entry for 1: its factor
/// count, once.
pub proof fn lemma_tally_of_one()
    ensures
        tally(0, 1) == Map::<u128, u128>::empty().insert(2, 1),
{
    lemma_tally_of_nothing(0, 0);
    lemma_tally_step(0, 0);
}

/// The counts of the histogram of a range add up to the number of integers
/// in the range: each of them is recorded once.
pub proof fn lemma_tally_total(lo: nat, hi: nat)
    requires
        lo <= hi <= u128::MAX,
    ensures
        tally(lo, hi).dom().finite(),
        total(tally(lo, hi)) == hi - lo,
    decreases hi,
{
    if hi == lo {
        lemma_tally_of_nothing(lo, hi);
    } else {
        let before = (hi - 1) as nat;
        let key = factor_count_of(hi) as u128;
        lemma_tally_total(lo, before);
        lemma_factor_count_bounds(hi);
        lemma_tally_step(lo, before);
        lemma_occurrences_bound(lo, before, key as nat);
        lemma_total_recorded(tally(lo, before), key);
    }
}

/// The histogram of a range has an entry under a factor count exactly when
/// an integer of the range has that factor count.
pub proof fn lemma_tally_keys(lo: nat, hi: nat, key: u128)
    ensures
        tally(lo, hi).contains_key(key) <==> exists|n: nat|
            lo < n <= hi && #[trigger] factor_count_of(n) == key,
    decreases hi,
{
    if hi > lo {
        let before = (hi - 1) as nat;
        lemma_tally_keys(lo, before, key);
        if tally(lo, hi).contains_key(key) {
            if factor_count_of(hi) != key {
                let n = choose|n: nat| lo < n <= before && #[trigger] factor_count_of(n) == key;
                assert(lo < n <= hi && factor_count_of(n) == key);
            }
        }
        if exists|n: nat| lo < n <= hi && #[trigger] factor_count_of(n) == key {
            let n = choose|n: nat| lo < n <= hi && #[trigger] factor_count_of(n) == key;
            if n != hi {
                assert(lo < n <= before && factor_count_of(n) == key);
            }
        }
    }
}

/// The histogram of a worker that drew the integers `drawn`, in that order,
/// and recorded each.
pub open spec fn tally_of(drawn: Seq<nat>) -> Map<u128, u128>
    decreases drawn.len(),
{
    if drawn.len() == 0 {
        Map::empty()
    } else {
        recorded(tally_of(drawn.drop_last()), factor_count_of(drawn.last()) as u128)
    }
}

/// The histogram of a worker has an entry under a factor count exactly when
/// it drew an integer with that factor count.
pub proof fn lemma_tally_of_keys(drawn: Seq<nat>, key: u128)
    ensures
        tally_of(drawn).contains_key(key) <==> exists|i: int|
            0 <= i < drawn.len() && factor_count_of(#[trigger] drawn[i]) as u128 == key,
    decreases drawn.len(),
{
    if drawn.len() > 0 {
        let front = drawn.drop_last();
        lemma_tally_of_keys(front, key);
        if tally_of(drawn).contains_key(key) {
            if factor_count_of(drawn.last()) as u128 == key {
                assert(factor_count_of(drawn[drawn.len() - 1]) as u128 == key);
            } else {
                let i = choose|i: int|
                    0 <= i < front.len() && factor_count_of(#[trigger] front[i]) as u128 == key;
                assert(factor_count_of(drawn[i]) as u128 == key);
            }
        }
        if exists|i: int|
            0 <= i < drawn.len() && factor_count_of(#[trigger] drawn[i]) as u128 == key {
            let i = choose|i: int|
                0 <= i < drawn.len() && factor_count_of(#[trigger] drawn[i]) as u128 == key;
            if i < front.len() {
                assert(factor_count_of(front[i]) as u128 == key);
            }
        }
    }
}

/// Whether one of the workers, whose draws are `draws`, drew the integer `n`.
pub open spec fn drawn_by_one(draws: Seq<Seq<nat>>, n: nat) -> bool {
    exists|w: int, i: int|
        0 <= w < draws.len() && 0 <= i < draws[w].len() && #[trigger] draws[w][i] == n
}

/// The histograms of workers with the draws `draws`, in the workers' order.
pub open spec fn tallies(draws: Seq<Seq<nat>>) -> Seq<Map<u128, u128>> {
    draws.map_values(|drawn: Seq<nat>| tally_of(drawn))
}

/// However many workers there are and whichever of them draws which integer:
/// when the integers of `1..=bound` and no others are drawn, the merged
/// histogram has an entry under exactly the factor counts under which the
/// histogram of one worker that draws them all has one. The counts under a key
/// may differ, because merging replaces them and does not add them up.
pub proof fn lemma_merged_keys_whoever_draws(draws: Seq<Seq<nat>>, bound: nat, key: u128)
    requires
        bound <= u128::MAX,
        forall|w: int, i: int|
            0 <= w < draws.len() && 0 <= i < draws[w].len() ==> 1 <= #[trigger] draws[w][i]
                <= bound,
        forall|n: nat| 1 <= n <= bound ==> #[trigger] drawn_by_one(draws, n),
    ensures
        merged(tallies(draws)).contains_key(key) <==> tally(0, bound).contains_key(key),
{
    let parts = tallies(draws);
    lemma_merged_keys(parts, key);
    lemma_tally_keys(0, bound, key);
    if merged(parts).contains_key(key) {
        let w = choose|w: int| 0 <= w < parts.len() && (#[trigger] parts[w]).contains_key(key);
        lemma_tally_of_keys(draws[w], key);
        let i = choose|i: int|
            0 <= i < draws[w].len() && factor_count_of(#[trigger] draws[w][i]) as u128 == key;
        let n = draws[w][i];
        lemma_factor_count_bounds(n);
        assert(0 < n <= bound && factor_count_of(n) == key);
    }
    if tally(0, bound).contains_key(key) {
        let n = choose|n: nat| 0 < n <= bound && #[trigger] factor_count_of(n) == key;
        assert(drawn_by_one(draws, n));
        let (w, i) = choose|w: int, i: int|
            0 <= w < draws.len() && 0 <= i < draws[w].len() && #[trigger] draws[w][i] == n;
        lemma_tally_of_keys(draws[w], key);
        assert(factor_count_of(draws[w][i]) as u128 == key);
        assert(parts[w].contains_key(key));
    }
}

/// A worker that draws the integers above `lo` up to `hi` in rising order
/// builds the histogram of that range.
pub proof fn lemma_tally_of_range(lo: nat, hi: nat)
    requires
        lo <= hi <= u128::MAX,
    ensures
        tally_of(Seq::new((hi - lo) as nat, |i: int| (lo + 1 + i) as nat)) == tally(lo, hi),
    decreases hi,
{
    let drawn = Seq::new((hi - lo) as nat, |i: int| (lo + 1 + i) as nat);
    if hi == lo {
        lemma_tally_of_nothing(lo, hi);
    } else {
        let before = (hi - 1) as nat;
        lemma_tally_of_range(lo, before);
        assert(drawn.drop_last() == Seq::new((before - lo) as nat, |i: int| (lo + 1 + i) as nat));
        assert(drawn.last() == hi);
        lemma_factor_count_bounds(hi);
        lemma_tally_step(lo, before);
    }
}

} // verus!
