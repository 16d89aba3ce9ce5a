use factor_counter::factor::{factor_count, BASE_COUNT, FACTOR_LIMIT, MAX_CANDIDATE};

#[test]
fn base_count_is_two() {
    assert_eq!(BASE_COUNT, 2);
}

#[test]
fn factor_limit_is_the_square_of_the_largest_candidate() {
    assert_eq!(MAX_CANDIDATE, u64::MAX as u128);
    assert_eq!(MAX_CANDIDATE.checked_mul(MAX_CANDIDATE), Some(FACTOR_LIMIT));
    assert_eq!((MAX_CANDIDATE + 2).checked_mul(MAX_CANDIDATE + 2), None);
}

#[test]
fn one_has_the_base_count() {
    assert_eq!(factor_count(1), 2);
}

#[test]
fn two_counts_one_division() {
    assert_eq!(factor_count(2), 3);
}

#[test]
fn four_counts_two_divisions() {
    assert_eq!(factor_count(4), 4);
}

#[test]
fn twelve_counts_its_two_halvings_only() {
    // 12 -> 6 -> 3, and 3 * 3 is already above 3: the 3 is never divided out.
    assert_eq!(factor_count(12), 4);
}

#[test]
fn odd_primes_have_the_base_count() {
    for p in [3u128, 5, 7, 11, 13, 97, 7919, 49_999_991] {
        assert_eq!(factor_count(p), 2, "prime {}", p);
    }
}

#[test]
fn powers_of_two_count_every_factor() {
    assert_eq!(factor_count(8), 5);
    assert_eq!(factor_count(16), 6);
    assert_eq!(factor_count(1024), 12);
    assert_eq!(factor_count(1u128 << 64), 66);
    assert_eq!(factor_count(1u128 << 127), 129);
}

#[test]
fn the_largest_prime_factor_is_left_out() {
    assert_eq!(factor_count(6), 3);
    assert_eq!(factor_count(9), 3);
    assert_eq!(factor_count(10), 3);
    assert_eq!(factor_count(15), 3);
    assert_eq!(factor_count(25), 3);
    assert_eq!(factor_count(27), 4);
    assert_eq!(factor_count(30), 4);
    assert_eq!(factor_count(100), 5);
    assert_eq!(factor_count(360), 7);
    assert_eq!(factor_count(50_000_000), 16);
}

#[test]
fn square_of_a_prime_counts_one_division() {
    assert_eq!(factor_count(1_000_003 * 1_000_003), 3);
}

#[test]
fn doubling_adds_one() {
    for n in 1u128..200 {
        assert_eq!(factor_count(2 * n), factor_count(n) + 1, "n = {}", n);
    }
}

#[test]
fn counting_twice_gives_the_same_count() {
    for n in [1u128, 2, 12, 97, 360, 65_536, 999_983] {
        let first = factor_count(n);
        let second = factor_count(n);
        let third = factor_count(n);
        assert_eq!(first, second);
        assert_eq!(second, third);
    }
}

#[test]
fn counts_lie_between_the_base_count_and_129() {
    for n in 1u128..2000 {
        let count = factor_count(n);
        assert!(2 <= count && count <= 129, "n = {}", n);
    }
}

#[test]
fn just_below_the_limit() {
    // (2^64 - 1)^2 - 1 = 2^65 * (2^63 - 1)
    assert_eq!(factor_count(FACTOR_LIMIT - 1), 73);
}

#[test]
fn composites_at_and_above_the_limit() {
    assert_eq!(factor_count(FACTOR_LIMIT), 15);
    assert_eq!(factor_count(u128::MAX), 10);
}
