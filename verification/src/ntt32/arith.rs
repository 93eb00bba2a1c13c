//! Modular arithmetic for primes below 2^28.
//!
//! The product of two 28-bit residues fits in a `u64`, so no `u128` is ever needed.
//! The conditional reductions use masks rather than branches.

use vstd::prelude::*;
use vstd::arithmetic::div_mod::*;
use vstd::arithmetic::mul::*;
use vstd::arithmetic::power::*;
use crate::algebra::modpow::lemma_square_multiply_step;
use crate::algebra::primes::{is_prime, lemma_fermat};

verus! {

/// Modular multiplication for primes below 2^28: `(a · b) mod q`.
pub fn mod_mul_28(a: u32, b: u32, q: u32) -> (r: u32)
    requires
        a < q,
        b < q,
        q < 0x1000_0000,
    ensures
        r == (a * b) % (q as int),
        r < q,
{
    proof {
        assert(a * b < 0x1000_0000 * 0x1000_0000) by (nonlinear_arith)
            requires
                a < q,
                b < q,
                q < 0x1000_0000,
        ;
        lemma_mod_bound(a * b, q as int);
    }
    ((a as u64 * b as u64) % q as u64) as u32
}

/// Mask-based modular addition: `(a + b) mod q` for reduced inputs.
pub fn mod_add_28(a: u32, b: u32, q: u32) -> (r: u32)
    requires
        a < q,
        b < q,
        a + b <= u32::MAX,
    ensures
        r == (a + b) % (q as int),
        r < q,
{
    let s = a + b;
    // all ones when s >= q, zero otherwise
    let mask = 0u32.wrapping_sub((s >= q) as u32);
    let r = s.wrapping_sub(q & mask);
    proof {
        assert(mask == 0xffff_ffffu32 || mask == 0u32);
        assert(q & 0xffff_ffffu32 == q) by (bit_vector);
        assert(q & 0u32 == 0) by (bit_vector);
        if s >= q {
            lemma_mod_sub_multiples_vanish(s as int, q as int);
            lemma_small_mod((s - q) as nat, q as nat);
        } else {
            lemma_small_mod(s as nat, q as nat);
        }
    }
    r
}

/// Mask-based modular subtraction: `(a - b) mod q` for reduced inputs.
pub fn mod_sub_28(a: u32, b: u32, q: u32) -> (r: u32)
    requires
        a < q,
        b < q,
    ensures
        r == (a - b) % (q as int),
        r < q,
{
    // all ones when a < b, zero otherwise
    let mask = 0u32.wrapping_sub((a < b) as u32);
    let r = a.wrapping_sub(b).wrapping_add(q & mask);
    proof {
        assert(mask == 0xffff_ffffu32 || mask == 0u32);
        assert(q & 0xffff_ffffu32 == q) by (bit_vector);
        assert(q & 0u32 == 0) by (bit_vector);
        if a < b {
            lemma_mod_add_multiples_vanish(a - b, q as int);
            lemma_small_mod((a - b + q) as nat, q as nat);
        } else {
            lemma_small_mod((a - b) as nat, q as nat);
        }
    }
    r
}

/// Square-and-multiply exponentiation: `base^exp mod q`, with `u64` intermediates.
pub fn mod_pow_32(base: u32, exp: u32, q: u32) -> (r: u32)
    requires
        exp == 0 || base == 0 || q > 0,
    ensures
        exp == 0 ==> r == 1,
        exp > 0 && base == 0 ==> r == 0,
        exp > 0 && q > 0 ==> r == pow(base as int, exp as nat) % (q as int),
{
    if exp == 0 {
        return 1;
    }
    if base == 0 {
        proof {
            lemma0_pow(exp as nat);
            if q > 0 {
                lemma_small_mod(0, q as nat);
            }
        }
        return 0;
    }
    let mut result = 1u64;
    let mut b = (base % q) as u64;
    let q64 = q as u64;
    let mut e = exp;
    proof {
        lemma_pow_mod_noop(base as int, exp as nat, q as int);
        lemma_mul_basics(pow((base % q) as int, exp as nat));
    }
    while e > 0
        invariant
            q64 == q,
            q > 0,
            b < q,
            result < q || (result == 1 && e > 0),
            (result * pow(b as int, e as nat)) % (q as int) == pow(base as int, exp as nat) % (
            q as int),
        decreases e,
    {
        proof {
            lemma_square_multiply_step(result as int, b as int, e as nat, q as int);
            lemma_mul_upper_bound(result as int, 0xffff_ffff, b as int, 0xffff_ffff);
            lemma_mul_upper_bound(b as int, 0xffff_ffff, b as int, 0xffff_ffff);
            assert(e & 1 == e % 2) by (bit_vector);
            assert(e >> 1 == e / 2) by (bit_vector);
        }
        let ghost old_b = b;
        let ghost old_e = e;
        if e & 1 == 1 {
            result = result * b % q64;
        }
        e >>= 1;
        if e > 0 {
            b = b * b % q64;
        } else {
            proof {
                reveal(pow);
                assert(old_e == 1);
            }
        }
        proof {
            if e == 0 {
                lemma_pow0(b as int);
                lemma_pow0(((old_b * old_b) % (q as int)) as int);
            }
        }
    }
    proof {
        lemma_pow0(b as int);
        lemma_mul_basics(result as int);
        lemma_small_mod(result as nat, q as nat);
    }
    result as u32
}

/// Modular inverse via Fermat's little theorem: `a^(q-2) mod q`.
pub fn mod_inv_32(a: u32, q: u32) -> (r: u32)
    requires
        a != 0,
        q >= 2,
    ensures
        r == pow(a as int, (q - 2) as nat) % (q as int),
        is_prime(q as int) && a % q != 0 ==> (a * r) % (q as int) == 1,
{
    let r = mod_pow_32(a, q - 2, q);
    proof {
        if q == 2 {
            lemma_pow0(a as int);
            lemma_small_mod(1, 2);
        }
        if is_prime(q as int) && a % q != 0 {
            lemma_fermat(a as int, q as int);
            lemma_pow_adds(a as int, 1, (q - 2) as nat);
            lemma_pow1(a as int);
            lemma_mul_mod_noop_right(a as int, pow(a as int, (q - 2) as nat), q as int);
        }
    }
    r
}

} // verus!
