use odd_sieve::sieve::{
    clear_multiples, count_primes, count_primes_up_to, find_next_prime, init_sieve, isqrt,
    run_sieve, sieve_flags, SieveError,
};

/// Independent primality check by trial division, used to cross-check the
/// sieve's buffer without relying on the library's own reasoning.
fn trial_division_prime(n: i64) -> bool {
    if n < 2 {
        return false;
    }
    let mut d: i64 = 2;
    while d < n {
        if n % d == 0 {
            return false;
        }
        d += 1;
    }
    true
}

#[test]
fn counts_below_first_prime() {
    assert_eq!(run_sieve(0), 0);
    assert_eq!(run_sieve(1), 0);
    assert_eq!(run_sieve(2), 1);
}

#[test]
fn count_up_to_ten() {
    assert_eq!(run_sieve(10), 4);
}

#[test]
fn count_up_to_hundred() {
    assert_eq!(run_sieve(100), 25);
}

#[test]
fn count_up_to_thousand() {
    assert_eq!(run_sieve(1000), 168);
}

#[test]
fn count_up_to_million() {
    assert_eq!(run_sieve(1000000), 78498);
}

#[test]
fn repeated_runs_agree() {
    let first = run_sieve(5000);
    let second = run_sieve(5000);
    assert_eq!(first, second);
    let third = run_sieve(7919);
    let fourth = run_sieve(7919);
    assert_eq!(third, fourth);
}

#[test]
fn count_is_monotonic() {
    let mut previous: i64 = run_sieve(0);
    let mut limit: i64 = 1;
    while limit <= 300 {
        let current = run_sieve(limit);
        assert!(previous <= current);
        previous = current;
        limit += 1;
    }
}

#[test]
fn flags_match_trial_division() {
    let limit: i64 = 1000;
    let flags = sieve_flags(limit);
    assert_eq!(flags.len() as i64, (limit + 1) / 2);

    // Reconstruct the primes: 2 plus every flagged odd number.
    let mut primes: Vec<i64> = vec![2];
    for (k, &flag) in flags.iter().enumerate() {
        assert!(flag == 0 || flag == 1);
        if flag == 1 {
            primes.push(2 * (k as i64) + 1);
        }
    }

    // Every reconstructed value passes an independent primality check.
    for &p in &primes {
        assert!(trial_division_prime(p), "{} is not prime", p);
    }

    // Every prime up to the limit appears exactly once.
    let mut n: i64 = 2;
    while n <= limit {
        let occurrences = primes.iter().filter(|&&p| p == n).count();
        if trial_division_prime(n) {
            assert_eq!(occurrences, 1, "prime {} should appear once", n);
        } else {
            assert_eq!(occurrences, 0, "composite {} should not appear", n);
        }
        n += 1;
    }
}

#[test]
fn negative_limit_is_rejected() {
    assert!(matches!(count_primes_up_to(-1), Err(SieveError::InvalidInput)));
    assert!(matches!(
        count_primes_up_to(i64::MIN),
        Err(SieveError::InvalidInput)
    ));
    assert_eq!(count_primes_up_to(100), Ok(25));
    assert_eq!(count_primes_up_to(0), Ok(0));
}

#[test]
fn init_sieve_fills_requested_range() {
    let mut buffer: Vec<i64> = vec![0; 5];
    init_sieve(&mut buffer, 1, 4);
    assert_eq!(buffer, vec![0, 1, 1, 1, 0]);
    let mut all: Vec<i64> = vec![7, 7, 7];
    init_sieve(&mut all, 0, 3);
    assert_eq!(all, vec![1, 1, 1]);
}

#[test]
fn clear_multiples_steps_by_factor() {
    let mut buffer: Vec<i64> = vec![1; 10];
    clear_multiples(&mut buffer, 3, 4, 10);
    assert_eq!(buffer, vec![1, 1, 1, 1, 0, 1, 1, 0, 1, 1]);
    let mut dense: Vec<i64> = vec![1; 6];
    clear_multiples(&mut dense, 1, 0, 6);
    assert_eq!(dense, vec![0, 0, 0, 0, 0, 0]);
}

#[test]
fn find_next_prime_returns_first_set_flag() {
    let buffer: Vec<i64> = vec![0, 0, 1, 0, 1, 0];
    assert_eq!(find_next_prime(&buffer, 1, 4), 2);
    assert_eq!(find_next_prime(&buffer, 3, 4), 4);
    assert_eq!(find_next_prime(&buffer, 3, 3), 0);
    assert_eq!(find_next_prime(&buffer, 5, 5), 0);
}

#[test]
fn isqrt_computes_floor_square_root() {
    assert_eq!(isqrt(100, 50), 10);
    assert_eq!(isqrt(99, 49), 9);
    assert_eq!(isqrt(1, 1), 1);
    assert_eq!(isqrt(2, 1), 1);
    assert_eq!(isqrt(3, 1), 1);
    assert_eq!(isqrt(15, 7), 3);
    assert_eq!(isqrt(16, 8), 4);
    assert_eq!(isqrt(1000000, 500000), 1000);
}

#[test]
fn count_primes_adds_one_for_two() {
    let buffer: Vec<i64> = vec![0, 1, 1, 0, 1];
    assert_eq!(count_primes(&buffer, 5), 4);
    assert_eq!(count_primes(&buffer, 3), 3);
    assert_eq!(count_primes(&buffer, 0), 1);
}

#[test]
fn sieve_flags_small_buffers() {
    // limit 2: only the slot for 1, which is forced to 0.
    assert_eq!(sieve_flags(2), vec![0]);
    // limit 9: odd numbers 1, 3, 5, 7, 9 with 3, 5, 7 prime.
    assert_eq!(sieve_flags(9), vec![0, 1, 1, 1, 0]);
    // limit 10: same odd numbers.
    assert_eq!(sieve_flags(10), vec![0, 1, 1, 1, 0]);
}
