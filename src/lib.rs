//! Exact symbolic square roots of non-negative rationals, on top of a
//! bounded prime sieve, a prime table, a primality test and a factorizer.

use vstd::prelude::*;

pub mod expression;
pub mod isqrt;
pub mod math;
pub mod sieve;
pub mod sqrt;
pub mod uniqueness;
pub mod primes;
pub mod rational;
