//! Odd-only Sieve of Eratosthenes, verified.
//!
//! The library counts the primes in `[2, limit]` with a work buffer that
//! holds one flag per odd number. Every exec function carries a contract,
//! and the final buffer is proved to flag exactly the odd primes.

pub mod primes;
pub mod sieve;
