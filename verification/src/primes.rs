//! Primality and prime counting at the specification level, with the
//! number-theoretic lemmas the sieve proof rests on.

use vstd::arithmetic::div_mod::{lemma_fundamental_div_mod, lemma_mod_multiples_basic};
use vstd::prelude::*;

verus! {

/// A number is prime when it is at least 2 and no number strictly between
/// 1 and itself divides it.
pub open spec fn is_prime(n: int) -> bool {
    2 <= n && forall|d: int| 2 <= d < n ==> #[trigger] (n % d) != 0
}

/// The number of primes in the interval `[2, n]`.
pub open spec fn prime_count(n: int) -> int
    decreases n,
{
    if n < 2 {
        0
    } else {
        prime_count(n - 1) + if is_prime(n) {
            1int
        } else {
            0int
        }
    }
}

/// The number of indices `k` in `[1, m)` whose odd value `2*k + 1` is prime.
pub open spec fn odd_prime_count(m: int) -> int
    decreases m,
{
    if m <= 1 {
        0
    } else {
        odd_prime_count(m - 1) + if is_prime(2 * (m - 1) + 1) {
            1int
        } else {
            0int
        }
    }
}

/// Divisibility chains: a divisor of a divisor of `n` divides `n`.
pub proof fn lemma_divides_transitive(d: int, f: int, n: int)
    requires
        1 <= d,
        1 <= f,
        f % d == 0,
        n % f == 0,
    ensures
        n % d == 0,
{
    lemma_fundamental_div_mod(f, d);
    lemma_fundamental_div_mod(n, f);
    let a = f / d;
    let b = n / f;
    assert(n == (a * b) * d) by (nonlinear_arith)
        requires
            f == d * a,
            n == f * b,
    ;
    lemma_mod_multiples_basic(a * b, d);
}

/// Every divisor of an odd number is odd.
pub proof fn lemma_divisor_of_odd_is_odd(d: int, n: int)
    requires
        1 <= d,
        n % 2 == 1,
        n % d == 0,
    ensures
        d % 2 == 1,
{
    if d % 2 == 0 {
        lemma_fundamental_div_mod(n, d);
        lemma_fundamental_div_mod(d, 2);
        let e = d / 2;
        let k = n / d;
        assert(n == (e * k) * 2) by (nonlinear_arith)
            requires
                d == 2 * e,
                n == d * k,
        ;
        lemma_mod_multiples_basic(e * k, 2);
    }
}

/// A composite number has a divisor no larger than its square root.
pub proof fn lemma_composite_has_small_divisor(n: int)
    requires
        2 <= n,
        !is_prime(n),
    ensures
        exists|d: int| 2 <= d && d * d <= n && #[trigger] (n % d) == 0,
{
    let a = choose|a: int| 2 <= a < n && #[trigger] (n % a) == 0;
    lemma_fundamental_div_mod(n, a);
    let b = n / a;
    assert(n == a * b);
    assert(2 <= b) by (nonlinear_arith)
        requires
            n == a * b,
            2 <= a < n,
    ;
    assert(n == b * a) by (nonlinear_arith)
        requires
            n == a * b,
    ;
    lemma_mod_multiples_basic(b, a);
    lemma_mod_multiples_basic(a, b);
    if a * a <= n {
        assert(2 <= a && a * a <= n && n % a == 0);
    } else {
        assert(b * b <= n) by (nonlinear_arith)
            requires
                n == a * b,
                2 <= a,
                2 <= b,
                a * a > n,
        ;
        assert(2 <= b && b * b <= n && n % b == 0);
    }
}

/// A divisor between 2 and the square root witnesses compositeness.
pub proof fn lemma_small_divisor_not_prime(n: int, d: int)
    requires
        2 <= d,
        d * d <= n,
        n % d == 0,
    ensures
        !is_prime(n),
{
    assert(d < n) by (nonlinear_arith)
        requires
            2 <= d,
            d * d <= n,
    ;
    assert(2 <= d < n && n % d == 0);
}

/// Even numbers past 2 are composite.
pub proof fn lemma_even_not_prime(n: int)
    requires
        4 <= n,
        n % 2 == 0,
    ensures
        !is_prime(n),
{
    assert(2 <= 2 < n && n % 2 == 0);
}

/// 2 and 3 are prime; grounds the base cases of the counting lemmas.
pub proof fn lemma_two_and_three_prime()
    ensures
        is_prime(2),
        is_prime(3),
{
    assert(forall|d: int| 2 <= d < 3 ==> #[trigger] (3int % d) != 0) by {
        assert(3int % 2 == 1);
    }
}

/// Counting primes up to `n` splits into the prime 2 and the odd primes,
/// which sit one per index in the first `(n + 1) / 2` slots of the
/// half-index encoding.
pub proof fn lemma_prime_count_halved(n: int)
    requires
        2 <= n,
    ensures
        prime_count(n) == 1 + odd_prime_count((n + 1) / 2),
    decreases n,
{
    lemma_two_and_three_prime();
    if n == 2 {
        assert(prime_count(2) == prime_count(1) + 1);
        assert(odd_prime_count((2int + 1) / 2) == 0);
    } else {
        lemma_prime_count_halved(n - 1);
        if n % 2 == 1 {
            let m = (n + 1) / 2;
            assert(m == n / 2 + 1);
            assert(2 * (m - 1) + 1 == n);
            assert(odd_prime_count(m) == odd_prime_count(m - 1) + if is_prime(n) {
                1int
            } else {
                0int
            });
        } else {
            assert((n + 1) / 2 == n / 2);
            lemma_even_not_prime(n);
            assert(prime_count(n) == prime_count(n - 1));
        }
    }
}

/// Counting more numbers never lowers the count of primes among them.
///
/// Law: for `a <= b`, the prime count up to `a` is at most the prime count
/// up to `b`.
pub proof fn lemma_prime_count_monotonic(a: int, b: int)
    requires
        a <= b,
    ensures
        prime_count(a) <= prime_count(b),
    decreases b - a,
{
    if a < b {
        lemma_prime_count_monotonic(a, b - 1);
    }
}

/// The count is a function of the limit alone: two runs over the same
/// limit give the same number, with no state carried between them.
pub proof fn lemma_prime_count_deterministic(limit: int, c1: int, c2: int)
    requires
        c1 == prime_count(limit),
        c2 == prime_count(limit),
    ensures
        c1 == c2,
{
}

} // verus!
