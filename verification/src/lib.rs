//! A growing table of primes over `u64`, and the queries answered from it:
//! primality, prime factorization, divisors, divisor sum and divisor count.
//!
//! The executable code is in `prime_tools`; the other modules hold the
//! mathematics that its contracts are stated in, and the two calls into the
//! `num` crate.

pub mod divisibility;
pub mod divisors;
pub mod multiplicity;
mod numeric;
pub mod odometer;
pub mod prime_tools;
pub mod table;

pub use crate::prime_tools::{PrimeError, PrimeIterator, PrimeTools};
