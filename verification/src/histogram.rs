//! Histograms: for each factor count, how many integers have it.

use std::collections::HashMap;
use vstd::prelude::*;
use vstd::std_specs::hash::spec_hash_map_iter;
use vstd::std_specs::iter::IteratorSpec;

verus! {

broadcast use vstd::std_specs::hash::group_hash_axioms;

/// The histogram `histogram` after one more integer with factor count `key`
/// has been recorded: an absent entry starts at 1, a present one grows by 1.
pub open spec fn recorded(histogram: Map<u128, u128>, key: u128) -> Map<u128, u128> {
    if histogram.contains_key(key) {
        histogram.insert(key, (histogram[key] + 1) as u128)
    } else {
        histogram.insert(key, 1)
    }
}

/// How many integers have factor count `key` according to `histogram`: the
/// entry under `key`, and 0 where there is none.
pub open spec fn count_of(histogram: Map<u128, u128>, key: u128) -> nat {
    if histogram.contains_key(key) {
        histogram[key] as nat
    } else {
        0
    }
}

/// Records one integer with factor count `factor_count` in `histogram`.
pub fn record(histogram: &mut HashMap<u128, u128>, factor_count: u128)
    requires
        count_of(old(histogram)@, factor_count) < u128::MAX,
    ensures
        final(histogram)@ == recorded(old(histogram)@, factor_count),
{
    let value: u128 = match histogram.get(&factor_count) {
        Some(previous) => *previous + 1,
        None => 1,
    };
    histogram.insert(factor_count, value);
}

/// The number of integers that `histogram` has under `factor_count`.
pub fn count(histogram: &HashMap<u128, u128>, factor_count: u128) -> (n: u128)
    ensures
        n == count_of(histogram@, factor_count),
{
    match histogram.get(&factor_count) {
        Some(value) => *value,
        None => 0,
    }
}

/// The sum of all counts of `histogram`: the number of integers recorded
/// in it.
pub open spec fn total(histogram: Map<u128, u128>) -> nat
    decreases histogram.dom().len(),
    when histogram.dom().finite()
{
    if histogram.dom().len() == 0 {
        0
    } else {
        let key = histogram.dom().choose();
        histogram[key] as nat + total(histogram.remove(key))
    }
}

/// The sum of all counts is the count under any one key plus the sum of the
/// counts under the others.
pub proof fn lemma_total_without(histogram: Map<u128, u128>, key: u128)
    requires
        histogram.dom().finite(),
        histogram.contains_key(key),
    ensures
        total(histogram) == histogram[key] + total(histogram.remove(key)),
    decreases histogram.dom().len(),
{
    let chosen = histogram.dom().choose();
    if chosen != key {
        lemma_total_without(histogram.remove(chosen), key);
        lemma_total_without(histogram.remove(key), chosen);
        assert(histogram.remove(chosen).remove(key) == histogram.remove(key).remove(chosen));
    }
}

/// Recording one integer adds one to the sum of all counts.
pub proof fn lemma_total_recorded(histogram: Map<u128, u128>, key: u128)
    requires
        histogram.dom().finite(),
        count_of(histogram, key) < u128::MAX,
    ensures
        recorded(histogram, key).dom().finite(),
        total(recorded(histogram, key)) == total(histogram) + 1,
{
    let after = recorded(histogram, key);
    lemma_total_without(after, key);
    if histogram.contains_key(key) {
        lemma_total_without(histogram, key);
        assert(after.remove(key) == histogram.remove(key));
    } else {
        assert(after.remove(key) == histogram);
    }
}

/// The views of the histograms in `histograms`, in their order.
pub open spec fn views(histograms: Seq<HashMap<u128, u128>>) -> Seq<Map<u128, u128>> {
    histograms.map_values(|histogram: HashMap<u128, u128>| histogram@)
}

/// The histograms `parts` merged in their order: every entry of every part is
/// taken over, and where a later part has an entry under the key of an
/// earlier one, the later entry replaces it. The counts of one key are not
/// added up.
pub open spec fn merged(parts: Seq<Map<u128, u128>>) -> Map<u128, u128>
    decreases parts.len(),
{
    if parts.len() == 0 {
        Map::empty()
    } else {
        merged(parts.drop_last()).union_prefer_right(parts.last())
    }
}

/// The merged histogram has an entry under a key exactly when one of the
/// parts has one.
pub proof fn lemma_merged_keys(parts: Seq<Map<u128, u128>>, key: u128)
    ensures
        merged(parts).contains_key(key) <==> exists|i: int|
            0 <= i < parts.len() && (#[trigger] parts[i]).contains_key(key),
    decreases parts.len(),
{
    if parts.len() > 0 {
        let front = parts.drop_last();
        lemma_merged_keys(front, key);
        if merged(parts).contains_key(key) {
            if parts.last().contains_key(key) {
                assert(parts[parts.len() - 1].contains_key(key));
            } else {
                let i = choose|i: int| 0 <= i < front.len() && (#[trigger] front[i]).contains_key(key);
                assert(parts[i].contains_key(key));
            }
        }
        if exists|i: int| 0 <= i < parts.len() && (#[trigger] parts[i]).contains_key(key) {
            let i = choose|i: int| 0 <= i < parts.len() && (#[trigger] parts[i]).contains_key(key);
            if i < front.len() {
                assert(front[i].contains_key(key));
            }
        }
    }
}

/// The last writer wins: under a key, the merged histogram holds the count
/// of the last part that has an entry under it, whatever the earlier parts
/// hold there.
pub proof fn lemma_merged_last_writer(parts: Seq<Map<u128, u128>>, last: int, key: u128)
    requires
        0 <= last < parts.len(),
        parts[last].contains_key(key),
        forall|later: int| last < later < parts.len() ==> !(#[trigger] parts[later]).contains_key(key),
    ensures
        merged(parts).contains_key(key),
        merged(parts)[key] == parts[last][key],
    decreases parts.len(),
{
    if last < parts.len() - 1 {
        let front = parts.drop_last();
        assert(!parts[parts.len() - 1].contains_key(key));
        assert forall|later: int| last < later < front.len() implies !(#[trigger] front[later]).contains_key(key) by {
            assert(front[later] == parts[later]);
        }
        lemma_merged_last_writer(front, last, key);
    }
}

/// Whether one of the first `upto` entries of `entries` has the key `key`.
spec fn visited(entries: Seq<(&u128, &u128)>, upto: int, key: u128) -> bool {
    exists|i: int| 0 <= i < upto && *(#[trigger] entries[i]).0 == key
}

/// Merges the histograms of all workers into one, in the order of
/// `histograms`. An entry replaces the entry that an earlier histogram has
/// under the same key.
pub fn merge(histograms: Vec<HashMap<u128, u128>>) -> (global: HashMap<u128, u128>)
    ensures
        global@ == merged(views(histograms@)),
{
    let mut global: HashMap<u128, u128> = HashMap::new();
    let mut taken: usize = 0;
    while taken < histograms.len()
        invariant
            taken <= histograms.len(),
            global@ == merged(views(histograms@).take(taken as int)),
        decreases histograms.len() - taken,
    {
        let local: &HashMap<u128, u128> = &histograms[taken];
        let ghost before = global@;
        let ghost all = spec_hash_map_iter(local).remaining();
        let ghost mut seen: int = 0;
        for entry in entries: local.iter()
            invariant
                entries.seq() == all,
                entries.index() == seen,
                all == spec_hash_map_iter(local).remaining(),
                forall|key: u128|
                    #![trigger global@.contains_key(key)]
                    global@.contains_key(key) <==> before.contains_key(key) || visited(
                        all,
                        seen,
                        key,
                    ),
                forall|key: u128|
                    #![trigger global@[key]]
                    global@.contains_key(key) ==> global@[key] == if visited(all, seen, key) {
                        local@[key]
                    } else {
                        before[key]
                    },
        {
            let (key, value) = entry;
            proof {
                assert(entry == all[seen]);
                assert(local@.contains_key(*all[seen].0));
                assert forall|other: u128|
                    visited(all, seen + 1, other) <==> visited(all, seen, other) || other
                        == *key by {
                    if visited(all, seen + 1, other) {
                        let i = choose|i: int| 0 <= i < seen + 1 && *(#[trigger] all[i]).0 == other;
                        if i < seen {
                            assert(visited(all, seen, other));
                        }
                    }
                    if other == *key {
                        assert(*all[seen].0 == other);
                    }
                }
                seen = seen + 1;
            }
            global.insert(*key, *value);
        }
        proof {
            let parts = views(histograms@);
            assert(seen == all.len());
            assert(parts.take(taken as int + 1).drop_last() == parts.take(taken as int));
            assert(parts.take(taken as int + 1).last() == local@);
            assert forall|key: u128| visited(all, seen, key) <==> local@.contains_key(key) by {
                if local@.contains_key(key) {
                    assert(all.contains((&key, &local@[key])));
                }
                if visited(all, seen, key) {
                    let i = choose|i: int| 0 <= i < seen && *(#[trigger] all[i]).0 == key;
                    assert(local@.contains_key(*all[i].0));
                }
            }
            assert(global@ =~= before.union_prefer_right(local@));
        }
        taken = taken + 1;
    }
    proof {
        assert(views(histograms@).take(taken as int) == views(histograms@));
    }
    global
}

} // verus!
