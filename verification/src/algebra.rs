//! Mathematical definitions and laws used by the contracts of the transforms.

pub mod congruence;
pub mod cyclic;
pub mod evaluation;
pub mod modpow;
pub mod negacyclic;
pub mod primes;
pub mod transform;
pub mod twiddles;
