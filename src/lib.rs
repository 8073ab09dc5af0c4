//! Elementary number theory: traced Euclidean algorithm, a scan for the pairs
//! that need the most division steps, trial-division factorization,
//! primality testing and residue-class tables.
pub mod arith;
pub mod euclid;
pub mod factorization;
pub mod math;
pub mod primes;
pub mod residue;
pub mod scan;
