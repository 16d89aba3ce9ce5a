//! The factorizer: how many divisions trial division performs on an integer.

use vstd::arithmetic::power2::{
    lemma2_to64, lemma_pow2_adds, lemma_pow2_strictly_increases, lemma_pow2_unfold, pow2,
};
use vstd::prelude::*;

verus! {

/// The count that every integer starts from, before any division.
pub const BASE_COUNT: u128 = 2;

/// The largest candidate whose square still fits the integer type.
pub const MAX_CANDIDATE: u128 = 0xFFFF_FFFF_FFFF_FFFF;

/// The square of [`MAX_CANDIDATE`]. Trial division of any integer below it
/// never squares a candidate beyond [`MAX_CANDIDATE`].
pub const FACTOR_LIMIT: u128 = 0xFFFF_FFFF_FFFF_FFFE_0000_0000_0000_0001;

/// `d` divides `n`.
pub open spec fn divides(d: nat, n: nat) -> bool {
    d != 0 && n % d == 0
}

/// `n` is prime: above 1, with no divisor between 1 and itself.
pub open spec fn is_prime(n: nat) -> bool {
    n >= 2 && forall|d: nat| 2 <= d < n ==> !#[trigger] divides(d, n)
}

/// The least divisor of `n` that is at least `from`, and `n` itself when no
/// smaller one exists.
pub open spec fn least_divisor_from(n: nat, from: nat) -> nat
    decreases n - from,
{
    if from == 0 || from >= n {
        n
    } else if n % from == 0 {
        from
    } else {
        least_divisor_from(n, from + 1)
    }
}

/// The least divisor of `n` above 1: for `n >= 2` its least prime factor.
pub open spec fn least_factor(n: nat) -> nat {
    least_divisor_from(n, 2)
}

/// The number of prime factors of `n`, each counted as often as it divides
/// `n`; 0 for `n < 2`.
pub open spec fn prime_factor_count(n: nat) -> nat
    decreases n,
    via prime_factor_count_decreases
{
    if n < 2 {
        0
    } else {
        1 + prime_factor_count(n / least_factor(n))
    }
}

#[via_fn]
proof fn prime_factor_count_decreases(n: nat) {
    if n >= 2 {
        lemma_least_factor(n);
        lemma_cofactor(n, least_factor(n));
    }
}

/// `n` is 1, 2, 4, 8, ...: it has no odd prime factor.
pub open spec fn is_power_of_two(n: nat) -> bool
    decreases n,
{
    n == 1 || (n >= 2 && n % 2 == 0 && is_power_of_two(n / 2))
}

/// The factor count of `n`: [`BASE_COUNT`] plus one for every division that
/// trial division performs on `n`.
///
/// Trial division divides out every prime factor of `n`, once for each time it
/// divides `n`, until the square of the candidate passes what remains. What
/// remains is then 1 if `n` is a power of two, and the largest prime factor of
/// `n` otherwise; that last prime is never divided out, so it is not counted.
pub open spec fn factor_count_of(n: nat) -> nat {
    if is_power_of_two(n) {
        BASE_COUNT as nat + prime_factor_count(n)
    } else {
        (BASE_COUNT as nat + prime_factor_count(n) - 1) as nat
    }
}

/// The integers that trial division handles within the integer type: every
/// positive integer below [`FACTOR_LIMIT`], and above it those that are not
/// prime. On a prime at or above the limit the candidate would have to pass
/// [`MAX_CANDIDATE`].
pub open spec fn can_factor(n: nat) -> bool {
    n >= 1 && (n < FACTOR_LIMIT || !is_prime(n))
}

/// For a divisor `d` of `n`, the quotient `n / d` divides `n` as well.
proof fn lemma_cofactor(n: nat, d: nat)
    requires
        n >= 1,
        divides(d, n),
    ensures
        n == d * (n / d),
        n / d >= 1,
        divides(n / d, n),
        d < n ==> n / d >= 2,
        d >= 2 ==> n / d < n,
{
    let q = n / d;
    assert(n == d * q) by (nonlinear_arith)
        requires
            d > 0,
            n % d == 0,
            q == n / d,
    ;
    assert(q >= 1 && (d < n ==> q >= 2) && (d >= 2 ==> q < n)) by (nonlinear_arith)
        requires
            n == d * q,
            n >= 1,
            d >= 1,
    ;
    assert((d * q) % q == 0) by (nonlinear_arith)
        requires
            q > 0,
    ;
}

/// A divisor of a divisor of `n` divides `n`.
proof fn lemma_divides_transitive(d: nat, m: nat, n: nat)
    requires
        divides(d, m),
        divides(m, n),
    ensures
        divides(d, n),
{
    let a = m / d;
    let b = n / m;
    assert(m == d * a) by (nonlinear_arith)
        requires
            d > 0,
            m % d == 0,
            a == m / d,
    ;
    assert(n == m * b) by (nonlinear_arith)
        requires
            m > 0,
            n % m == 0,
            b == n / m,
    ;
    assert(n == d * (a * b)) by (nonlinear_arith)
        requires
            m == d * a,
            n == m * b,
    ;
    assert((d * (a * b)) % d == 0) by (nonlinear_arith)
        requires
            d > 0,
    ;
}

proof fn lemma_least_divisor_from(n: nat, from: nat)
    requires
        1 <= from <= n,
    ensures
        from <= least_divisor_from(n, from) <= n,
        divides(least_divisor_from(n, from), n),
        forall|d: nat| from <= d < least_divisor_from(n, from) ==> !#[trigger] divides(d, n),
    decreases n - from,
{
    if from >= n {
        assert(n % n == 0) by (nonlinear_arith)
            requires
                n > 0,
        ;
    } else if n % from == 0 {
    } else {
        lemma_least_divisor_from(n, from + 1);
    }
}

/// The least factor of `n >= 2` divides `n`, and nothing between 1 and it does.
pub proof fn lemma_least_factor(n: nat)
    requires
        n >= 2,
    ensures
        2 <= least_factor(n) <= n,
        divides(least_factor(n), n),
        forall|d: nat| 2 <= d < least_factor(n) ==> !#[trigger] divides(d, n),
{
    lemma_least_divisor_from(n, 2);
}

/// A division leaves room for one more count: the count stays small against
/// what remains.
proof fn lemma_division_keeps_budget(n: nat, remaining: nat, d: nat, count: nat)
    requires
        d >= 2,
        count >= 2,
        remaining >= 1,
        divides(d, remaining),
        remaining * (count - 1) <= n,
    ensures
        2 * (count - 1) <= n,
        (remaining / d) * count <= n,
        remaining / d < remaining,
        2 * (remaining / d) <= remaining,
{
    let q = remaining / d;
    lemma_cofactor(remaining, d);
    assert(2 * q <= remaining) by (nonlinear_arith)
        requires
            remaining == d * q,
            d >= 2,
    ;
    assert(2 * q * (count - 1) <= n) by (nonlinear_arith)
        requires
            2 * q <= remaining,
            count >= 2,
            remaining * (count - 1) <= n,
    ;
    assert(q * count <= 2 * q * (count - 1) && 2 * (count - 1) <= 2 * q * (count - 1))
        by (nonlinear_arith)
        requires
            q >= 1,
            count >= 2,
    ;
}

/// The least divisor of `n` above 1 is `d`, when `d` divides `n` and nothing
/// between 1 and `d` does.
proof fn lemma_least_factor_is(n: nat, d: nat)
    requires
        2 <= d <= n,
        divides(d, n),
        forall|e: nat| 2 <= e < d ==> !#[trigger] divides(e, n),
    ensures
        least_factor(n) == d,
{
    lemma_least_factor(n);
}

/// A prime has one prime factor: itself.
pub proof fn lemma_prime_has_one_factor(p: nat)
    requires
        is_prime(p),
    ensures
        least_factor(p) == p,
        prime_factor_count(p) == 1,
{
    lemma_least_factor(p);
    assert(p / p == 1) by (nonlinear_arith)
        requires
            p > 0,
    ;
    assert(prime_factor_count(1) == 0);
}

/// Dividing `n` by its least factor takes one prime factor away.
proof fn lemma_count_after_division(n: nat, d: nat)
    requires
        2 <= d <= n,
        divides(d, n),
        forall|e: nat| 2 <= e < d ==> !#[trigger] divides(e, n),
    ensures
        prime_factor_count(n) == 1 + prime_factor_count(n / d),
{
    lemma_least_factor_is(n, d);
}

/// `n` is prime when nothing between 1 and `c` divides it and the square of
/// `c` is above it: of two factors of `n`, one would be below `c`.
proof fn lemma_prime_by_square(n: nat, c: nat)
    requires
        n >= 2,
        c * c > n,
        forall|d: nat| 2 <= d < c ==> !#[trigger] divides(d, n),
    ensures
        is_prime(n),
{
    assert forall|d: nat| 2 <= d < n implies !#[trigger] divides(d, n) by {
        if divides(d, n) {
            let q = n / d;
            lemma_cofactor(n, d);
            assert(q < c) by (nonlinear_arith)
                requires
                    n == d * q,
                    d >= c,
                    c * c > n,
            ;
            assert(divides(q, n));
        }
    }
}

/// An odd integer has no even divisor.
proof fn lemma_odd_has_no_even_divisor(n: nat, d: nat)
    requires
        n % 2 == 1,
        d % 2 == 0,
    ensures
        !divides(d, n),
{
    if divides(d, n) {
        let q = n / d;
        let h = d / 2;
        lemma_cofactor(n, d);
        assert(n == 2 * (h * q)) by (nonlinear_arith)
            requires
                n == d * q,
                d == 2 * h,
        ;
    }
}

/// An integer is at least 2 to the power of the number of its prime factors.
pub proof fn lemma_prime_factor_count_is_logarithmic(n: nat)
    requires
        n >= 1,
    ensures
        pow2(prime_factor_count(n)) <= n,
    decreases n,
{
    if n >= 2 {
        let p = least_factor(n);
        let q = n / p;
        lemma_least_factor(n);
        lemma_cofactor(n, p);
        lemma_prime_factor_count_is_logarithmic(q);
        lemma_pow2_unfold(prime_factor_count(n));
        assert(2 * pow2(prime_factor_count(q)) <= n) by (nonlinear_arith)
            requires
                pow2(prime_factor_count(q)) <= q,
                n == p * q,
                p >= 2,
        ;
    } else {
        lemma2_to64();
    }
}

/// The factor count of an integer of 128 bits lies between [`BASE_COUNT`]
/// and 129.
pub proof fn lemma_factor_count_bounds(n: nat)
    requires
        1 <= n <= u128::MAX,
    ensures
        BASE_COUNT <= factor_count_of(n) <= 129,
{
    lemma_prime_factor_count_is_logarithmic(n);
    assert(prime_factor_count(n) <= 127) by {
        lemma2_to64();
        lemma_pow2_adds(64, 64);
        assert(pow2(128) == 0x1_0000_0000_0000_0000_0000_0000_0000_0000) by (nonlinear_arith)
            requires
                pow2(128) == pow2(64) * pow2(64),
                pow2(64) == 0x1_0000_0000_0000_0000,
        ;
        if prime_factor_count(n) > 128 {
            lemma_pow2_strictly_increases(128, prime_factor_count(n));
        }
    }
    if n >= 2 {
        lemma_prime_factor_count_unfolds(n);
    }
}

/// For `n >= 2`, the prime factors of `n` are its least factor and the prime
/// factors of what is left when that is divided out.
pub proof fn lemma_prime_factor_count_unfolds(n: nat)
    requires
        n >= 2,
    ensures
        1 <= n / least_factor(n) < n,
        prime_factor_count(n) == 1 + prime_factor_count(n / least_factor(n)),
{
    lemma_least_factor(n);
    lemma_cofactor(n, least_factor(n));
}

/// The factor count of 1 is [`BASE_COUNT`]: nothing is divided out.
pub proof fn lemma_factor_count_of_one()
    ensures
        factor_count_of(1) == BASE_COUNT,
{
}

/// The factor count of 2 is one above [`BASE_COUNT`], and that of an odd prime
/// is [`BASE_COUNT`]: the square of the first candidate is already above an odd
/// prime, or its candidates never divide it, so an odd prime is never divided.
pub proof fn lemma_factor_count_of_prime(p: nat)
    requires
        is_prime(p),
    ensures
        factor_count_of(p) == if p == 2 {
            BASE_COUNT + 1
        } else {
            BASE_COUNT as int
        },
{
    lemma_prime_has_one_factor(p);
    if p == 2 {
        assert(is_power_of_two(1));
    } else {
        assert(!divides(2, p));
    }
}

/// Doubling an integer adds one to its factor count.
pub proof fn lemma_factor_count_of_double(n: nat)
    requires
        n >= 1,
    ensures
        factor_count_of(2 * n) == factor_count_of(n) + 1,
{
    assert((2 * n) / 2 == n && (2 * n) % 2 == 0);
    assert(least_factor(2 * n) == 2);
    lemma_prime_factor_count_unfolds(2 * n);
    if n >= 2 {
        lemma_prime_factor_count_unfolds(n);
    }
}

/// The factorizer has no state: two counts of one integer are the same.
pub proof fn lemma_factor_count_repeats(n: nat, first: nat, second: nat)
    requires
        first == factor_count_of(n),
        second == factor_count_of(n),
    ensures
        first == second,
{
}

/// Counts the divisions that trial division performs on `n`, starting from
/// [`BASE_COUNT`]: first every factor 2 is divided out, then the odd
/// candidates from 3 on are tried in turn, each as often as it divides what
/// remains, until the square of the candidate passes what remains.
pub fn factor_count(n: u128) -> (count: u128)
    requires
        can_factor(n as nat),
    ensures
        count == factor_count_of(n as nat),
{
    let mut remaining: u128 = n;
    let mut count: u128 = BASE_COUNT;
    while remaining % 2 == 0
        invariant
            1 <= remaining <= n,
            count >= 2,
            remaining * (count - 1) <= n,
            remaining == n || 2 * remaining <= n,
            prime_factor_count(n as nat) == (count - 2) + prime_factor_count(remaining as nat),
            is_power_of_two(n as nat) == is_power_of_two(remaining as nat),
        decreases remaining,
    {
        proof {
            lemma_count_after_division(remaining as nat, 2);
            lemma_division_keeps_budget(n as nat, remaining as nat, 2, count as nat);
        }
        count = count + 1;
        remaining = remaining / 2;
    }
    let mut candidate: u128 = 3;
    while candidate * candidate <= remaining
        invariant
            can_factor(n as nat),
            1 <= remaining <= n,
            remaining % 2 == 1,
            3 <= candidate <= MAX_CANDIDATE,
            candidate % 2 == 1,
            candidate * candidate <= u128::MAX,
            count >= 2,
            remaining * (count - 1) <= n,
            remaining == n || 2 * remaining <= n,
            forall|d: nat| 2 <= d < candidate ==> !#[trigger] divides(d, remaining as nat),
            prime_factor_count(n as nat) == (count - 2) + prime_factor_count(remaining as nat),
            is_power_of_two(n as nat) <==> remaining == 1,
        decreases remaining, MAX_CANDIDATE - candidate,
    {
        if remaining % candidate == 0 {
            proof {
                let quotient = (remaining / candidate) as nat;
                assert(candidate <= remaining) by (nonlinear_arith)
                    requires
                        candidate * candidate <= remaining,
                        candidate >= 1,
                ;
                lemma_count_after_division(remaining as nat, candidate as nat);
                lemma_division_keeps_budget(
                    n as nat,
                    remaining as nat,
                    candidate as nat,
                    count as nat,
                );
                lemma_cofactor(remaining as nat, candidate as nat);
                assert(quotient >= candidate) by (nonlinear_arith)
                    requires
                        remaining == candidate * quotient,
                        candidate * candidate <= remaining,
                        candidate >= 1,
                ;
                assert forall|d: nat| 2 <= d < candidate implies !#[trigger] divides(
                    d,
                    quotient,
                ) by {
                    if divides(d, quotient) {
                        lemma_divides_transitive(d, quotient, remaining as nat);
                    }
                }
                assert(!divides(2, quotient));
            }
            count = count + 1;
            remaining = remaining / candidate;
        } else {
            proof {
                lemma_odd_has_no_even_divisor(remaining as nat, (candidate + 1) as nat);
                if candidate == MAX_CANDIDATE {
                    assert(candidate * candidate == FACTOR_LIMIT) by (nonlinear_arith)
                        requires
                            candidate == 0xFFFF_FFFF_FFFF_FFFFu128,
                            FACTOR_LIMIT == 0xFFFF_FFFF_FFFF_FFFE_0000_0000_0000_0001u128,
                    ;
                    assert(remaining == n);
                    lemma_prime_by_square(n as nat, (MAX_CANDIDATE + 1) as nat);
                }
                assert((candidate + 2) * (candidate + 2) <= u128::MAX) by (nonlinear_arith)
                    requires
                        candidate + 2 <= MAX_CANDIDATE,
                ;
            }
            candidate = candidate + 2;
        }
    }
    proof {
        if remaining != 1 {
            lemma_prime_by_square(remaining as nat, candidate as nat);
            lemma_prime_has_one_factor(remaining as nat);
        }
    }
    count
}

} // verus!
