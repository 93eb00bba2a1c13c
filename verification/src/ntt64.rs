//! NTT pipeline for primes below 2^62.
//!
//! Products of residues need 128 bits; they are reduced with Barrett's method (one 256-bit
//! product computed from four 64 × 64 partial products) or with Montgomery's REDC. The forward
//! transform is Cooley-Tukey (decimation in time), the inverse Gentleman-Sande (decimation in
//! frequency) with a final N⁻¹ pass; twiddles are stored in bit-reversed (Longa-Naehrig) order
//! with the 2N-th root folded in, so that the transform is negacyclic.

pub mod arith;
pub mod context;
pub mod prime;

pub use arith::{
    from_montgomery, mod_add, mod_inv, mod_mul_barrett, mod_mul_mont, mod_pow, mod_sub,
    to_montgomery, Ntt64Arith, PRIME_60_1, PRIME_60_2, PRIME_60_3, PRIME_62_1, PRIME_SEAL,
};
pub use context::Ntt64Context;
pub use prime::{find_primitive_root, generate_primes_60, is_prime};
