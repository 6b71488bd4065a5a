//! Primes up to a bound, by trial division and by the sieve of
//! Eratosthenes — plain and segmented, sequential and parallel — with the
//! same verified contract for every variant: the result lists exactly the
//! primes in range, in ascending order.
#![verifier::loop_isolation(false)]
pub mod arith;
pub mod listing;
pub mod primality;
pub mod sieve;
