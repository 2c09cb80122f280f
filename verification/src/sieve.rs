//! The odd-only sieve: a buffer with one flag per odd number, filled,
//! swept factor by factor, and counted, each step under contract.
//!
//! Index `k` of the buffer stands for the odd number `2*k + 1`; a flag of 1
//! means "still a candidate prime", 0 means "known composite". Index 0
//! (the number 1) is forced to 0 right after initialization, and the prime
//! 2 never appears in the buffer: the counter starts at 1 to cover it.

use crate::primes::{
    is_prime, lemma_composite_has_small_divisor, lemma_divides_transitive,
    lemma_divisor_of_odd_is_odd, lemma_prime_count_halved, lemma_small_divisor_not_prime,
    odd_prime_count, prime_count,
};
use vstd::arithmetic::div_mod::{
    lemma_fundamental_div_mod, lemma_mod_multiples_basic, lemma_mod_multiples_vanish,
};
use vstd::prelude::*;

verus! {

/// `n` has a factor at least 3, below `bound`, and no larger than the
/// square root of `n`. The sieve's progress measure: after all factors
/// below `bound` are swept, a flag is clear exactly when this holds.
pub open spec fn has_small_factor_below(n: int, bound: int) -> bool {
    exists|f: int| 3 <= f < bound && f * f <= n && #[trigger] (n % f) == 0
}

/// The buffer state after sweeping every factor below `bound`: flags are
/// 0 or 1, index 0 is cleared, and a flag survives exactly when its odd
/// number has no swept factor.
pub open spec fn sieve_swept(s: Seq<i64>, bound: int) -> bool {
    &&& forall|k: int| 0 <= k < s.len() ==> s[k] == 0 || #[trigger] s[k] == 1
    &&& 0 < s.len() ==> s[0] == 0
    &&& forall|k: int|
        1 <= k < s.len() ==> ((#[trigger] s[k] == 1) <==> !has_small_factor_below(2 * k + 1, bound))
}

/// The finished buffer: a flag is set exactly when its odd number is prime.
pub open spec fn sieve_complete(s: Seq<i64>) -> bool {
    &&& forall|k: int| 0 <= k < s.len() ==> s[k] == 0 || #[trigger] s[k] == 1
    &&& 0 < s.len() ==> s[0] == 0
    &&& forall|k: int| 1 <= k < s.len() ==> ((#[trigger] s[k] == 1) <==> is_prime(2 * k + 1))
}

/// The number of set flags among the first `m` entries.
pub open spec fn ones_below(s: Seq<i64>, m: int) -> int
    decreases m,
{
    if m <= 0 {
        0
    } else {
        ones_below(s, m - 1) + if s[m - 1] == 1 {
            1int
        } else {
            0int
        }
    }
}

/// Two distinct multiples of `f` lie at least `f` apart.
proof fn lemma_multiples_apart(a: int, b: int, f: int)
    requires
        1 <= f,
        0 <= a < b,
        a % f == 0,
        b % f == 0,
    ensures
        a + f <= b,
{
    lemma_fundamental_div_mod(a, f);
    lemma_fundamental_div_mod(b, f);
    assert(a + f <= b) by (nonlinear_arith)
        requires
            a == f * (a / f),
            b == f * (b / f),
            0 <= a < b,
            1 <= f,
    ;
}

/// Sets every entry of `arr` in `[i, size)` to 1, leaving the rest alone.
pub fn init_sieve(arr: &mut Vec<i64>, i: i64, size: i64)
    requires
        0 <= i,
        size <= old(arr).len(),
    ensures
        final(arr).len() == old(arr).len(),
        forall|k: int|
            0 <= k < old(arr).len() ==> final(arr)@[k] == (if i <= k < size {
                1i64
            } else {
                old(arr)@[k]
            }),
{
    let ghost orig: Seq<i64> = arr@;
    let mut j: i64 = i;
    while j < size
        invariant
            0 <= i <= j,
            j <= size || j == i,
            size <= arr.len(),
            arr@.len() == orig.len(),
            forall|k: int|
                0 <= k < arr.len() ==> arr@[k] == (if i <= k < j {
                    1i64
                } else {
                    orig[k]
                }),
        decreases size - j,
    {
        arr[j as usize] = 1;
        j = j + 1;
    }
}

/// Clears every `factor`-th entry from `num` up to `size`: the entries at
/// `num + t * factor`, and no others.
pub fn clear_multiples(arr: &mut Vec<i64>, factor: i64, num: i64, size: i64)
    requires
        1 <= factor,
        0 <= num,
        size <= old(arr).len(),
        size + factor <= i64::MAX,
    ensures
        final(arr).len() == old(arr).len(),
        forall|k: int|
            0 <= k < old(arr).len() ==> final(arr)@[k] == (if num <= k < size && (k - num) % (
            factor as int) == 0 {
                0i64
            } else {
                old(arr)@[k]
            }),
{
    let ghost orig: Seq<i64> = arr@;
    let mut cur: i64 = num;
    proof {
        lemma_mod_multiples_basic(0, factor as int);
        assert(0 * (factor as int) == 0);
    }
    while cur < size
        invariant
            0 <= num <= cur,
            1 <= factor,
            size + factor <= i64::MAX,
            (cur - num) % (factor as int) == 0,
            size <= arr.len(),
            arr@.len() == orig.len(),
            forall|k: int|
                0 <= k < arr.len() ==> arr@[k] == (if num <= k < cur && k < size && (k - num) % (
                factor as int) == 0 {
                    0i64
                } else {
                    orig[k]
                }),
        decreases size + factor - cur,
    {
        arr[cur as usize] = 0;
        proof {
            assert forall|k: int|
                cur < k < cur + factor implies #[trigger] ((k - num) % (factor as int)) != 0 by {
                if (k - num) % (factor as int) == 0 {
                    lemma_multiples_apart(cur - num, k - num, factor as int);
                }
            }
            lemma_mod_multiples_vanish(1, cur - num, factor as int);
        }
        cur = cur + factor;
    }
}

/// Scans the buffer from index `i` to index `limit`, both inclusive, for
/// the first set flag. Returns that index, or 0 when no flag in range is
/// set; the caller keeps `i` at least 1, so 0 is never a found index.
pub fn find_next_prime(arr: &Vec<i64>, i: i64, limit: i64) -> (r: i64)
    requires
        1 <= i,
        limit < arr.len(),
        limit < i64::MAX,
    ensures
        r == 0 ==> forall|j: int| i <= j <= limit ==> arr@[j] != 1,
        r != 0 ==> i <= r <= limit && arr@[r as int] == 1 && (forall|j: int|
            i <= j < r ==> arr@[j] != 1),
{
    let mut j: i64 = i;
    while j <= limit
        invariant
            1 <= i <= j,
            limit < arr.len(),
            limit < i64::MAX,
            forall|k: int| i <= k < j ==> arr@[k] != 1,
        decreases limit + 1 - j,
    {
        if arr[j as usize] == 1 {
            return j;
        }
        j = j + 1;
    }
    0
}

/// One Newton step from a guess above the root lands above the root again:
/// with `n == g * m + rem` and `y == (g + m) / 2`, the value `y + 1`
/// squares past `n`.
proof fn lemma_newton_step(g: int, m: int, rem: int, y: int)
    by (nonlinear_arith)
    requires
        1 <= g,
        0 <= m,
        0 <= rem < g,
        2 * y <= g + m,
        g + m <= 2 * y + 1,
    ensures
        g * m + rem < (y + 1) * (y + 1),
{
    assert((g - m - 1) * (g - m - 1) >= 0);
    assert((g + m + 1) * (g + m + 1) >= 4 * g * (m + 1));
    assert(2 * (y + 1) >= g + m + 1);
}

/// Floor square root by Newton's method, descending from a guess at or
/// above the root. Terminates at the first step that fails to shrink the
/// guess, which is then the floor square root of `n`.
pub fn isqrt(n: i64, guess: i64) -> (r: i64)
    requires
        1 <= n,
        1 <= guess,
        n < (guess + 1) * (guess + 1),
        2 * guess + 2 <= i64::MAX,
    ensures
        1 <= r,
        r * r <= n,
        n < (r + 1) * (r + 1),
{
    let mut g: i64 = guess;
    loop
        invariant
            1 <= g,
            1 <= n,
            n < (g + 1) * (g + 1),
            2 * g + 2 <= i64::MAX,
        ensures
            1 <= g,
            g * g <= n,
            n < (g + 1) * (g + 1),
        decreases g,
    {
        proof {
            lemma_fundamental_div_mod(n as int, g as int);
            assert((n as int) / (g as int) <= g + 2) by (nonlinear_arith)
                requires
                    1 <= g,
                    0 <= (n as int) % (g as int) < g,
                    n as int == (g as int) * ((n as int) / (g as int)) + (n as int) % (g as int),
                    n < (g + 1) * (g + 1),
            ;
        }
        let next: i64 = (g + n / g) / 2;
        proof {
            lemma_newton_step(
                g as int,
                (n as int) / (g as int),
                (n as int) % (g as int),
                next as int,
            );
            assert(0 <= (n as int) / (g as int)) by (nonlinear_arith)
                requires
                    1 <= g,
                    1 <= n,
                    n as int == (g as int) * ((n as int) / (g as int)) + (n as int) % (g as int),
                    0 <= (n as int) % (g as int) < g,
            ;
        }
        if next >= g {
            proof {
                assert(g * g <= n) by (nonlinear_arith)
                    requires
                        1 <= g,
                        (n as int) / (g as int) >= g,
                        n as int == (g as int) * ((n as int) / (g as int)) + (n as int) % (g as int),
                        0 <= (n as int) % (g as int),
                ;
            }
            return g;
        }
        proof {
            // the shrunk guess stays positive: with g == 1 the quotient is n
            let q: int = (n as int) / (g as int);
            assert(g == 1 ==> q == n);
            assert(next == ((g as int) + q) / 2);
            assert(1 <= next);
        }
        g = next;
    }
}

/// The odd number at index `k` is odd.
proof fn lemma_odd_form(k: int)
    requires
        0 <= k,
    ensures
        (2 * k + 1) % 2 == 1,
{
    lemma_mod_multiples_vanish(k, 1, 2);
    assert(1int % 2 == 1);
}

/// An odd number squared is odd.
proof fn lemma_odd_square(a: int)
    requires
        0 <= a,
        a % 2 == 1,
    ensures
        (a * a) % 2 == 1,
{
    lemma_fundamental_div_mod(a, 2);
    let h = a / 2;
    assert(a * a == 2 * (2 * h * h + 2 * h) + 1) by (nonlinear_arith)
        requires
            a == 2 * h + 1,
    ;
    lemma_mod_multiples_vanish(2 * h * h + 2 * h, 1, 2);
    assert(1int % 2 == 1);
}

/// An odd number that divides twice a value divides the value itself.
proof fn lemma_odd_divides_double(af: int, x: int)
    requires
        1 <= af,
        af % 2 == 1,
        0 <= x,
        (2 * x) % af == 0,
    ensures
        x % af == 0,
{
    let q = x / af;
    let r = x % af;
    lemma_fundamental_div_mod(x, af);
    assert(2 * x == af * (2 * q) + 2 * r) by (nonlinear_arith)
        requires
            x == af * q + r,
    ;
    lemma_mod_multiples_vanish(2 * q, 2 * r, af);
    assert((2 * r) % af == 0);
    lemma_fundamental_div_mod(2 * r, af);
    let t = (2 * r) / af;
    assert(t == 0 || t == 1) by (nonlinear_arith)
        requires
            2 * r == af * t,
            0 <= r < af,
            1 <= af,
    ;
    if t == 1 {
        assert(af == 2 * r);
        lemma_mod_multiples_basic(r, 2);
        assert(r * 2 == af);
        assert(false);
    }
}

/// An entry at or past the square's half-index is stepped on by the sweep
/// for `af` exactly when `af` divides its odd number.
proof fn lemma_cleared_iff_multiple(j: int, af: int)
    requires
        3 <= af,
        af % 2 == 1,
        (af * af) / 2 <= j,
    ensures
        ((j - (af * af) / 2) % af == 0) <==> ((2 * j + 1) % af == 0),
{
    lemma_odd_square(af);
    let start = (af * af) / 2;
    lemma_fundamental_div_mod(af * af, 2);
    assert(af * af == 2 * start + 1);
    let d = j - start;
    assert(2 * j + 1 == 2 * d + af * af);
    if d % af == 0 {
        lemma_fundamental_div_mod(d, af);
        assert(2 * j + 1 == af * (2 * (d / af) + af)) by (nonlinear_arith)
            requires
                d == af * (d / af),
                2 * j + 1 == 2 * d + af * af,
        ;
        assert((2 * (d / af) + af) * af == af * (2 * (d / af) + af)) by (nonlinear_arith);
        lemma_mod_multiples_basic(2 * (d / af) + af, af);
        assert((2 * j + 1) % af == 0);
    }
    if (2 * j + 1) % af == 0 && d % af != 0 {
        lemma_fundamental_div_mod(2 * j + 1, af);
        let m = (2 * j + 1) / af;
        assert(2 * d == af * (m - af)) by (nonlinear_arith)
            requires
                2 * j + 1 == af * m,
                2 * j + 1 == 2 * d + af * af,
        ;
        assert((m - af) * af == af * (m - af)) by (nonlinear_arith);
        lemma_mod_multiples_basic(m - af, af);
        assert((2 * d) % af == 0);
        lemma_odd_divides_double(af, d);
        assert(false);
    }
}

/// Sweeping the next surviving factor `af == 2 * nx + 1` advances the
/// sieve from "all factors below `bound` swept" to "all factors below
/// `af + 2` swept": factors skipped between `bound` and `af` are composite,
/// so their multiples were already cleared by smaller factors.
proof fn lemma_sieve_step(s0: Seq<i64>, s1: Seq<i64>, bound: int, nx: int, af: int)
    requires
        sieve_swept(s0, bound),
        3 <= bound,
        bound % 2 == 1,
        bound / 2 <= nx < s0.len(),
        1 <= nx,
        s0[nx] == 1,
        forall|j: int| bound / 2 <= j < nx ==> s0[j] != 1,
        af == 2 * nx + 1,
        s1.len() == s0.len(),
        forall|k: int|
            0 <= k < s1.len() ==> s1[k] == (if (af * af) / 2 <= k < s1.len() && (k - (af * af)
                / 2) % af == 0 {
                0i64
            } else {
                s0[k]
            }),
    ensures
        sieve_swept(s1, af + 2),
{
    let start = (af * af) / 2;
    lemma_odd_square(af);
    lemma_fundamental_div_mod(af * af, 2);
    assert(af * af == 2 * start + 1);
    lemma_fundamental_div_mod(bound, 2);
    assert(bound == 2 * (bound / 2) + 1);
    assert(af >= bound);
    assert forall|k: int|
        1 <= k < s1.len() implies ((s1[k] == 1) <==> !has_small_factor_below(
        2 * k + 1,
        af + 2,
    )) by {
        let n = 2 * k + 1;
        lemma_odd_form(k);
        if s1[k] == 1 {
            assert(s0[k] == 1);
            assert(!(start <= k < s1.len() && (k - start) % af == 0));
            assert(!has_small_factor_below(n, bound));
            assert forall|f: int|
                3 <= f < af + 2 && f * f <= n && #[trigger] (n % f) == 0 implies false by {
                lemma_divisor_of_odd_is_odd(f, n);
                if f < bound {
                    assert(has_small_factor_below(n, bound));
                } else if f < af {
                    let fj = f / 2;
                    lemma_fundamental_div_mod(f, 2);
                    assert(f == 2 * fj + 1);
                    assert(bound / 2 <= fj < nx);
                    assert(s0[fj] != 1);
                    assert(1 <= fj < s0.len());
                    assert(s0[fj] == 0);
                    assert(has_small_factor_below(f, bound));
                    let d = choose|d: int|
                        3 <= d < bound && d * d <= f && #[trigger] (f % d) == 0;
                    lemma_divides_transitive(d, f, n);
                    assert(d * d <= n) by (nonlinear_arith)
                        requires
                            d * d <= f,
                            3 <= f,
                            f * f <= n,
                    ;
                    assert(has_small_factor_below(n, bound));
                } else if f == af {
                    assert(start <= k);
                    lemma_cleared_iff_multiple(k, af);
                    assert((k - start) % af == 0);
                } else {
                    assert(f == af + 1);
                    lemma_fundamental_div_mod(af, 2);
                    lemma_mod_multiples_basic(af / 2 + 1, 2);
                    assert((af / 2 + 1) * 2 == af + 1);
                    assert(f % 2 == 0);
                }
            }
        } else {
            assert(s1[k] == 0);
            if start <= k < s1.len() && (k - start) % af == 0 {
                lemma_cleared_iff_multiple(k, af);
                assert(n % af == 0);
                assert(af * af <= n);
                assert(3 <= af < af + 2 && af * af <= n && n % af == 0);
                assert(has_small_factor_below(n, af + 2));
            } else {
                assert(s0[k] == 0);
                assert(has_small_factor_below(n, bound));
                let f = choose|f: int| 3 <= f < bound && f * f <= n && #[trigger] (n % f) == 0;
                assert(3 <= f < af + 2 && f * f <= n && n % f == 0);
                assert(has_small_factor_below(n, af + 2));
            }
        }
    }
}

/// When the scan from `bound / 2` through `hi` finds no surviving flag,
/// every factor up to `2 * hi + 1` is already covered: each such factor is
/// itself composite with a smaller swept factor.
proof fn lemma_sieve_extend(s: Seq<i64>, bound: int, hi: int)
    requires
        sieve_swept(s, bound),
        3 <= bound,
        bound % 2 == 1,
        bound / 2 <= hi,
        forall|j: int| bound / 2 <= j <= hi && j < s.len() ==> s[j] != 1,
    ensures
        sieve_swept(s, 2 * hi + 3),
{
    lemma_fundamental_div_mod(bound, 2);
    assert(bound == 2 * (bound / 2) + 1);
    assert forall|k: int|
        1 <= k < s.len() implies ((s[k] == 1) <==> !has_small_factor_below(
        2 * k + 1,
        2 * hi + 3,
    )) by {
        let n = 2 * k + 1;
        lemma_odd_form(k);
        if s[k] == 1 {
            assert(!has_small_factor_below(n, bound));
            assert forall|f: int|
                3 <= f < 2 * hi + 3 && f * f <= n && #[trigger] (n % f) == 0 implies false by {
                lemma_divisor_of_odd_is_odd(f, n);
                if f >= bound {
                    let fj = f / 2;
                    lemma_fundamental_div_mod(f, 2);
                    assert(f == 2 * fj + 1);
                    assert(bound / 2 <= fj <= hi);
                    assert(f <= n) by (nonlinear_arith)
                        requires
                            3 <= f,
                            f * f <= n,
                    ;
                    assert(fj < s.len());
                    assert(s[fj] != 1);
                    assert(1 <= fj);
                    assert(s[fj] == 0);
                    assert(has_small_factor_below(f, bound));
                    let d = choose|d: int|
                        3 <= d < bound && d * d <= f && #[trigger] (f % d) == 0;
                    lemma_divides_transitive(d, f, n);
                    assert(d * d <= n) by (nonlinear_arith)
                        requires
                            d * d <= f,
                            3 <= f,
                            f * f <= n,
                    ;
                    assert(has_small_factor_below(n, bound));
                } else {
                    assert(has_small_factor_below(n, bound));
                }
            }
        } else {
            assert(s[k] == 0);
            assert(has_small_factor_below(n, bound));
            let f = choose|f: int| 3 <= f < bound && f * f <= n && #[trigger] (n % f) == 0;
            assert(3 <= f < 2 * hi + 3 && f * f <= n && n % f == 0);
            assert(has_small_factor_below(n, 2 * hi + 3));
        }
    }
}

/// Once every factor up to the square root of the limit is swept, the
/// surviving flags are exactly the odd primes: a composite odd number
/// always has a factor no larger than its square root.
proof fn lemma_sieve_done(s: Seq<i64>, bound: int, limit: int, q: int)
    requires
        sieve_swept(s, bound),
        2 <= limit,
        1 <= q,
        q * q <= limit,
        limit < (q + 1) * (q + 1),
        q < bound,
        2 * s.len() <= limit + 1,
    ensures
        sieve_complete(s),
{
    assert forall|k: int|
        1 <= k < s.len() implies ((s[k] == 1) <==> is_prime(2 * k + 1)) by {
        let n = 2 * k + 1;
        lemma_odd_form(k);
        assert(3 <= n <= limit);
        if s[k] == 1 {
            if !is_prime(n) {
                lemma_composite_has_small_divisor(n);
                let d = choose|d: int| 2 <= d && d * d <= n && #[trigger] (n % d) == 0;
                lemma_divisor_of_odd_is_odd(d, n);
                assert(3 <= d);
                assert(d <= q) by (nonlinear_arith)
                    requires
                        d * d <= n,
                        n <= limit,
                        limit < (q + 1) * (q + 1),
                        1 <= q,
                        2 <= d,
                ;
                assert(3 <= d < bound && d * d <= n && n % d == 0);
                assert(has_small_factor_below(n, bound));
            }
        } else {
            assert(s[k] == 0);
            assert(has_small_factor_below(n, bound));
            let f = choose|f: int| 3 <= f < bound && f * f <= n && #[trigger] (n % f) == 0;
            lemma_small_divisor_not_prime(n, f);
        }
    }
}

/// In a finished buffer the count of set flags over the first `m` entries
/// is the count of odd primes among the first `m` odd numbers.
proof fn lemma_ones_match_odd_primes(s: Seq<i64>, m: int)
    requires
        sieve_complete(s),
        0 <= m <= s.len(),
    ensures
        ones_below(s, m) == odd_prime_count(m),
    decreases m,
{
    if m > 0 {
        lemma_ones_match_odd_primes(s, m - 1);
    }
}

/// Counts the set flags among the first `size` entries and adds 1 for the
/// prime 2, which the odd-only buffer never holds.
pub fn count_primes(arr: &Vec<i64>, size: i64) -> (count: i64)
    requires
        0 <= size <= arr.len(),
        size < i64::MAX,
    ensures
        count == 1 + ones_below(arr@, size as int),
{
    let mut count: i64 = 1;
    let mut i: i64 = 0;
    while i < size
        invariant
            0 <= i <= size,
            size <= arr.len(),
            size < i64::MAX,
            count == 1 + ones_below(arr@, i as int),
            count <= 1 + i,
        decreases size - i,
    {
        if arr[i as usize] == 1 {
            count = count + 1;
        }
        i = i + 1;
    }
    count
}

/// Builds the fully swept buffer for `limit`: one flag per odd number in
/// `[1, limit]`, set exactly on the odd primes, with index 0 (the number 1)
/// cleared.
pub fn sieve_flags(limit: i64) -> (arr: Vec<i64>)
    requires
        2 <= limit,
        limit <= (i64::MAX - 1) / 4,
        (limit + 1) / 2 <= usize::MAX as int,
    ensures
        arr@.len() == (limit + 1) as int / 2,
        sieve_complete(arr@),
{
    let size: i64 = (limit + 1) / 2;
    let mut arr: Vec<i64> = vec![0i64; size as usize];
    init_sieve(&mut arr, 0, size);
    arr[0] = 0;
    proof {
        assert forall|k: int| 1 <= k < arr@.len() implies ((arr@[k] == 1)
            <==> !has_small_factor_below(2 * k + 1, 3)) by {
            assert(arr@[k] == 1);
            if has_small_factor_below(2 * k + 1, 3) {
                let f = choose|f: int|
                    3 <= f < 3 && f * f <= 2 * k + 1 && #[trigger] ((2 * k + 1) % f) == 0;
                assert(false);
            }
        }
        assert(sieve_swept(arr@, 3));
        lemma_fundamental_div_mod(limit as int, 2);
        assert(limit < (limit as int / 2 + 1) * (limit as int / 2 + 1)) by (nonlinear_arith)
            requires
                limit as int == 2 * (limit as int / 2) + limit as int % 2,
                0 <= limit as int % 2 < 2,
                2 <= limit,
        ;
    }
    let q: i64 = isqrt(limit, limit / 2);
    proof {
        // q stays below limit, so the scan bound q / 2 stays inside the buffer
        if q >= 2 {
            assert(2 * q <= q * q) by (nonlinear_arith)
                requires
                    2 <= q,
            ;
        }
        assert(q < limit);
        lemma_fundamental_div_mod(q as int, 2);
        lemma_fundamental_div_mod(limit as int - 1, 2);
        lemma_fundamental_div_mod(limit as int + 1, 2);
    }
    let mut factor: i64 = 3;
    while factor <= q
        invariant
            3 <= factor,
            factor as int % 2 == 1,
            2 <= limit <= (i64::MAX - 1) / 4,
            size as int == (limit as int + 1) / 2,
            1 <= size,
            arr@.len() == size as int,
            1 <= q,
            q * q <= limit,
            limit < (q + 1) * (q + 1),
            q < limit,
            (q as int) / 2 < size,
            sieve_swept(arr@, factor as int),
        ensures
            arr@.len() == size as int,
            sieve_complete(arr@) || (sieve_swept(arr@, factor as int) && factor > q),
        decreases q + 3 - factor,
    {
        let next: i64 = find_next_prime(&arr, factor / 2, q / 2);
        proof {
            lemma_fundamental_div_mod(factor as int, 2);
            assert(factor as int == 2 * ((factor as int) / 2) + 1);
        }
        if next == 0 {
            proof {
                lemma_sieve_extend(arr@, factor as int, (q as int) / 2);
                lemma_fundamental_div_mod(q as int, 2);
                assert(q < 2 * ((q as int) / 2) + 3);
                assert(2 * arr@.len() <= limit as int + 1) by {
                    lemma_fundamental_div_mod(limit as int + 1, 2);
                }
                lemma_sieve_done(arr@, 2 * ((q as int) / 2) + 3, limit as int, q as int);
            }
            break ;
        }
        let actual_factor: i64 = next * 2 + 1;
        proof {
            assert(actual_factor as int <= q + 1);
            assert((actual_factor as int) * (actual_factor as int) <= 4 * (limit as int))
                by (nonlinear_arith)
                requires
                    actual_factor as int <= q + 1,
                    1 <= q,
                    1 <= actual_factor,
                    q * q <= limit,
            ;
        }
        let start: i64 = actual_factor * actual_factor / 2;
        let ghost before: Seq<i64> = arr@;
        clear_multiples(&mut arr, actual_factor, start, size);
        proof {
            lemma_sieve_step(
                before,
                arr@,
                factor as int,
                next as int,
                actual_factor as int,
            );
            lemma_mod_multiples_vanish(next as int + 1, 1, 2);
            assert(2 * (next as int + 1) + 1 == actual_factor as int + 2);
            assert(1int % 2 == 1);
        }
        factor = actual_factor + 2;
    }
    proof {
        if !sieve_complete(arr@) {
            assert(2 * arr@.len() <= limit as int + 1) by {
                lemma_fundamental_div_mod(limit as int + 1, 2);
            }
            lemma_sieve_done(arr@, factor as int, limit as int, q as int);
        }
    }
    arr
}

/// The error a negative limit is rejected with.
#[derive(Clone, Copy, Debug, PartialEq, Eq, Structural)]
pub enum SieveError {
    InvalidInput,
}

/// Runs the whole sieve for `limit` and returns the number of primes in
/// `[2, limit]`: derive the buffer size, fill the buffer, sweep every
/// factor up to the square root of `limit`, and count the survivors.
pub fn run_sieve(limit: i64) -> (count: i64)
    requires
        0 <= limit,
        limit <= (i64::MAX - 1) / 4,
        (limit + 1) / 2 <= usize::MAX as int,
    ensures
        count == prime_count(limit as int),
{
    if limit < 2 {
        return 0;
    }
    let arr: Vec<i64> = sieve_flags(limit);
    let size: i64 = (limit + 1) / 2;
    let count: i64 = count_primes(&arr, size);
    proof {
        lemma_ones_match_odd_primes(arr@, size as int);
        lemma_prime_count_halved(limit as int);
    }
    count
}

/// Checked entry point: rejects a negative limit with `InvalidInput`
/// before any buffer is sized, and otherwise returns the prime count.
pub fn count_primes_up_to(limit: i64) -> (r: Result<i64, SieveError>)
    requires
        limit <= (i64::MAX - 1) / 4,
        (limit + 1) / 2 <= usize::MAX as int,
    ensures
        limit < 0 ==> r == Err::<i64, SieveError>(SieveError::InvalidInput),
        0 <= limit ==> (r matches Ok(c) && c == prime_count(limit as int)),
{
    if limit < 0 {
        Err(SieveError::InvalidInput)
    } else {
        Ok(run_sieve(limit))
    }
}

} // verus!
