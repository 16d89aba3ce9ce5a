use factor_counter::cursor::{next_number, Cursor};
use factor_counter::factor::factor_count;
use factor_counter::histogram::merge;
use factor_counter::worker::{worker, Worker};
use std::collections::{BTreeSet, HashMap};

fn histogram_of(entries: &[(u128, u128)]) -> HashMap<u128, u128> {
    let mut histogram = HashMap::new();
    for (key, value) in entries {
        histogram.insert(*key, *value);
    }
    histogram
}

/// Runs `workers` workers that take turns on one cursor, and returns for each
/// the integers it drew and its histogram.
fn take_turns(bound: u128, workers: usize) -> Vec<(Vec<u128>, HashMap<u128, u128>)> {
    let mut cursor = Cursor::new();
    let mut pool: Vec<Worker> = Vec::new();
    let mut drawn: Vec<Vec<u128>> = Vec::new();
    for _ in 0..workers {
        pool.push(Worker::new());
        drawn.push(Vec::new());
    }
    let mut running = workers;
    while running > 0 {
        for (index, local) in pool.iter_mut().enumerate() {
            if local.is_running() {
                let issued = next_number(&mut cursor, bound);
                if issued != 0 {
                    drawn[index].push(issued);
                }
                local.step(issued);
                if !local.is_running() {
                    running -= 1;
                }
            }
        }
    }
    pool.into_iter().zip(drawn).map(|(local, seen)| (seen, local.into_histogram())).collect()
}

fn pairs(runs: &[(Vec<u128>, HashMap<u128, u128>)]) -> BTreeSet<(u128, u128)> {
    let mut all = BTreeSet::new();
    for (drawn, _) in runs {
        for n in drawn {
            all.insert((*n, factor_count(*n)));
        }
    }
    all
}

#[test]
fn new_worker_is_running_and_has_drawn_nothing() {
    let local = Worker::new();
    assert!(local.is_running());
    assert_eq!(local.last(), 0);
}

#[test]
fn step_on_zero_ends_the_worker_with_an_empty_histogram() {
    let mut local = Worker::new();
    local.step(0);
    assert!(!local.is_running());
    assert_eq!(local.last(), 0);
    assert!(local.into_histogram().is_empty());
}

#[test]
fn step_records_the_factor_count_of_what_it_takes() {
    let mut local = Worker::new();
    local.step(4);
    assert!(local.is_running());
    assert_eq!(local.last(), 4);
    local.step(8);
    local.step(9);
    local.step(16);
    local.step(81);
    assert_eq!(local.last(), 81);
    local.step(0);
    assert!(!local.is_running());
    assert_eq!(local.last(), 81);
    // 4 -> 4, 8 -> 5, 9 -> 3, 16 -> 6, 81 -> 5
    assert_eq!(local.into_histogram(), histogram_of(&[(3, 1), (4, 1), (5, 2), (6, 1)]));
}

#[test]
fn worker_with_bound_zero_returns_an_empty_histogram() {
    let mut cursor = Cursor::new();
    let histogram = worker(&mut cursor, 0);
    assert!(histogram.is_empty());
    assert_eq!(cursor.served(), 1);
}

#[test]
fn worker_with_bound_one_returns_one_entry() {
    let mut cursor = Cursor::new();
    let histogram = worker(&mut cursor, 1);
    assert_eq!(histogram, histogram_of(&[(2, 1)]));
    assert_eq!(cursor.served(), 2);
}

#[test]
fn worker_with_bound_ten() {
    let mut cursor = Cursor::new();
    let histogram = worker(&mut cursor, 10);
    assert_eq!(histogram, histogram_of(&[(2, 4), (3, 4), (4, 1), (5, 1)]));
    assert_eq!(cursor.served(), 11);
}

#[test]
fn worker_with_bound_thousand() {
    let mut cursor = Cursor::new();
    let histogram = worker(&mut cursor, 1000);
    assert_eq!(
        histogram,
        histogram_of(&[
            (2, 168),
            (3, 299),
            (4, 247),
            (5, 149),
            (6, 76),
            (7, 37),
            (8, 14),
            (9, 7),
            (10, 2),
            (11, 1),
        ])
    );
}

#[test]
fn one_worker_records_each_integer_once() {
    for bound in [0u128, 1, 2, 10, 100, 257] {
        let mut cursor = Cursor::new();
        let histogram = worker(&mut cursor, bound);
        let sum: u128 = histogram.values().sum();
        assert_eq!(sum, bound);
    }
}

#[test]
fn worker_starts_where_the_cursor_stands() {
    let mut cursor = Cursor::new();
    for _ in 0..6 {
        next_number(&mut cursor, 10);
    }
    // 7 -> 2, 8 -> 5, 9 -> 3, 10 -> 3
    let histogram = worker(&mut cursor, 10);
    assert_eq!(histogram, histogram_of(&[(2, 1), (3, 2), (5, 1)]));
    assert_eq!(cursor.served(), 11);
}

#[test]
fn worker_on_an_exhausted_cursor_draws_nothing() {
    let mut cursor = Cursor::new();
    let first = worker(&mut cursor, 10);
    let second = worker(&mut cursor, 10);
    assert_eq!(first.values().sum::<u128>(), 10);
    assert!(second.is_empty());
    assert_eq!(cursor.served(), 12);
}

#[test]
fn one_worker_and_four_workers_produce_the_same_pairs() {
    let single = take_turns(10, 1);
    let four = take_turns(10, 4);
    assert_eq!(pairs(&single), pairs(&four));
    assert_eq!(pairs(&single).len(), 10);

    // With one worker the merged histogram counts every integer.
    let merged_single = merge(single.into_iter().map(|(_, histogram)| histogram).collect());
    assert_eq!(merged_single, histogram_of(&[(2, 4), (3, 4), (4, 1), (5, 1)]));
    assert_eq!(merged_single.values().sum::<u128>(), 10);
}

#[test]
fn four_workers_taking_turns() {
    let four = take_turns(10, 4);
    assert_eq!(four[0].0, vec![1, 5, 9]);
    assert_eq!(four[1].0, vec![2, 6, 10]);
    assert_eq!(four[2].0, vec![3, 7]);
    assert_eq!(four[3].0, vec![4, 8]);
    assert_eq!(four[0].1, histogram_of(&[(2, 2), (3, 1)]));
    assert_eq!(four[1].1, histogram_of(&[(3, 3)]));
    assert_eq!(four[2].1, histogram_of(&[(2, 2)]));
    assert_eq!(four[3].1, histogram_of(&[(4, 1), (5, 1)]));

    // Merging replaces rather than adds: the counts under 2 and 3 are those
    // of the last worker that has them, while the keys are those of one
    // worker alone.
    let merged = merge(four.into_iter().map(|(_, histogram)| histogram).collect());
    assert_eq!(merged, histogram_of(&[(2, 2), (3, 3), (4, 1), (5, 1)]));
    let mut cursor = Cursor::new();
    let alone = worker(&mut cursor, 10);
    let merged_keys: BTreeSet<u128> = merged.keys().copied().collect();
    let alone_keys: BTreeSet<u128> = alone.keys().copied().collect();
    assert_eq!(merged_keys, alone_keys);
}

#[test]
fn every_worker_of_a_pool_ends() {
    let runs = take_turns(3, 8);
    let drawn: usize = runs.iter().map(|(seen, _)| seen.len()).sum();
    assert_eq!(drawn, 3);
    assert_eq!(runs.len(), 8);
}
