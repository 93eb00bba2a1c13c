//! NTT pipeline for primes below 2^28.
//!
//! The product of two residues fits in a `u64`, so all arithmetic stays in 64-bit registers.
//! Twiddle factors are stored in Longa-Naehrig (bit-reversed) order together with their Shoup
//! quotients, so that the butterflies need no division.

pub mod arith;
pub mod context;
pub mod neon;
pub mod prime;
pub mod scalar;
pub mod shoup;

pub use arith::{mod_add_28, mod_inv_32, mod_mul_28, mod_pow_32, mod_sub_28};
pub use context::Ntt32Context;
pub use prime::generate_primes_28;
pub use prime::{find_primitive_root, is_prime_32};
pub use shoup::{compute_shoup, shoup_mul};
