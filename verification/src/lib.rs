//! An incremental, segmented sieve of Eratosthenes over a growing cache of
//! primes, with the number theory that justifies each growth step.

pub mod primality;
pub mod model;
pub mod window;
pub mod search;
pub mod shared_flags;
pub mod parallel;
pub mod prime_sieve_vec;
pub mod laws;
pub mod primes_less_than;
