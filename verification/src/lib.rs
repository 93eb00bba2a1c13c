//! Number Theoretic Transforms over prime fields, with contracts proved by Verus.
//!
//! - [`ntt32`] — primes below 2^28, Shoup and Harvey butterflies.
//! - [`ntt64`] — primes below 2^62, Barrett and Montgomery arithmetic.
//! - [`poly`] — polynomials over Z_q\[X\]/(X^N+1).
//! - [`rns`] — several moduli side by side (residue number system).
//! - [`pq`] — ready-made parameter sets for ML-DSA.
//! - [`algebra`] — the mathematics the contracts are stated in, and its laws.
//! - [`bits`] — powers of two and bit reversal on machine integers.

use vstd::prelude::*;

pub mod algebra;
pub mod bits;
pub mod ntt32;
pub mod ntt64;
pub mod poly;
pub mod pq;
pub mod rns;

verus! {

/// Errors returned by NTT context construction.
#[derive(Debug, Clone, PartialEq, Eq, Structural)]
pub enum NttError {
    /// N must be a power of 2 >= 2.
    InvalidSize(usize),
    /// q must be prime.
    NotPrime(u64),
    /// q must satisfy q ≡ 1 (mod 2N) for NTT.
    NotNttFriendly {
        /// The modulus that failed the NTT-friendly check.
        q: u64,
        /// The polynomial size N.
        n: usize,
    },
    /// q must be < 2^28 for the 32-bit pipeline.
    PrimeTooLarge(u64),
}

} // verus!
