//! Powers of two and bit reversal on machine integers.

use vstd::prelude::*;
use vstd::arithmetic::div_mod::*;
use vstd::arithmetic::mul::*;
use vstd::arithmetic::power2::*;
use crate::algebra::twiddles::{bit_rev, lemma_bit_rev_unfold};

verus! {

/// Some power of two equals n.
pub open spec fn is_power_of_two(n: int) -> bool {
    exists|k: nat| #[trigger] pow2(k) == n
}

/// An odd multiple of 2^k that is itself a power of two is 2^k.
proof fn lemma_odd_multiple_of_pow2(m: int, k: nat, j: nat)
    requires
        m >= 1,
        m % 2 == 1,
        pow2(j) == m * pow2(k),
    ensures
        m == 1,
        j == k,
    decreases j,
{
    lemma_pow2_pos(k);
    lemma_pow2_pos(j);
    if j < k {
        lemma_pow2_strictly_increases(j, k);
        assert(m * pow2(k) >= pow2(k)) by (nonlinear_arith)
            requires
                m >= 1,
                pow2(k) > 0,
        ;
    } else if k == 0 {
        lemma2_to64();
        if j > 0 {
            lemma_pow2_unfold(j);
            lemma_mod_multiples_basic(pow2((j - 1) as nat) as int, 2);
            lemma_mul_is_commutative(2, pow2((j - 1) as nat) as int);
        }
    } else {
        lemma_pow2_unfold(j);
        lemma_pow2_unfold(k);
        assert(2 * pow2((j - 1) as nat) == 2 * (m * pow2((k - 1) as nat))) by {
            lemma_mul_is_associative(m, 2, pow2((k - 1) as nat) as int);
            lemma_mul_is_commutative(m, 2);
            lemma_mul_is_associative(2, m, pow2((k - 1) as nat) as int);
        }
        lemma_odd_multiple_of_pow2(m, (k - 1) as nat, (j - 1) as nat);
    }
}

/// The exponent k with n == 2^k, or `None` when n is not a power of two.
pub fn power_of_two_exponent(n: usize) -> (r: Option<u32>)
    ensures
        match r {
            Some(k) => k < 64 && n == pow2(k as nat),
            None => !is_power_of_two(n as int),
        },
{
    if n == 0 {
        proof {
            assert forall|k: nat| #[trigger] pow2(k) != 0 by {
                lemma_pow2_pos(k);
            }
        }
        return None;
    }
    let mut m: usize = n;
    let mut k: u32 = 0;
    proof {
        lemma2_to64();
    }
    while m % 2 == 0
        invariant
            m >= 1,
            k < 64,
            n == m * pow2(k as nat),
            m * pow2(k as nat) <= usize::MAX,
        decreases m,
    {
        proof {
            lemma_fundamental_div_mod(m as int, 2);
            lemma_pow2_unfold((k + 1) as nat);
            lemma_mul_is_associative((m / 2) as int, 2, pow2(k as nat) as int);
            lemma_pow2_pos(k as nat);
            if k >= 63 {
                lemma_pow2_strictly_increases(63, (k + 1) as nat);
                lemma2_to64_rest();
                assert((m / 2) * pow2((k + 1) as nat) >= pow2((k + 1) as nat)) by (nonlinear_arith)
                    requires
                        m / 2 >= 1,
                        pow2((k + 1) as nat) > 0,
                ;
            }
        }
        m = m / 2;
        k = k + 1;
    }
    if m == 1 {
        proof {
            lemma_mul_basics(pow2(k as nat) as int);
        }
        Some(k)
    } else {
        proof {
            assert forall|j: nat| #[trigger] pow2(j) != n by {
                if pow2(j) == n {
                    lemma_odd_multiple_of_pow2(m as int, k as nat, j);
                }
            }
        }
        None
    }
}

/// Reverses the `bits` least-significant bits of `x`.
///
/// Example: `bit_reverse(0b110, 3) = 0b011`
pub fn bit_reverse(x: u32, bits: u32) -> (r: u32)
    requires
        1 <= bits <= 32,
    ensures
        r == bit_rev(x as nat, bits as nat),
{
    let mut r: u32 = 0;
    let mut y: u32 = x;
    let mut i: u32 = 0;
    proof {
        lemma2_to64();
        lemma_mul_basics(pow2(bits as nat) as int);
    }
    while i < bits
        invariant
            i <= bits <= 32,
            r < pow2(i as nat),
            bit_rev(x as nat, bits as nat) == r * pow2((bits - i) as nat) + bit_rev(
                y as nat,
                (bits - i) as nat,
            ),
        decreases bits - i,
    {
        proof {
            lemma_bit_rev_unfold(y as nat, (bits - i) as nat);
            lemma_pow2_unfold((bits - i) as nat);
            lemma_pow2_unfold((i + 1) as nat);
            lemma_pow2_strictly_increases(i as nat, 32);
            lemma2_to64();
            lemma_mul_is_distributive_add_other_way(
                pow2((bits - i - 1) as nat) as int,
                2 * r as int,
                (y % 2) as int,
            );
            lemma_mul_is_associative(r as int, 2, pow2((bits - i - 1) as nat) as int);
        }
        r = 2 * r + y % 2;
        y = y / 2;
        i += 1;
    }
    proof {
        assert(bit_rev(y as nat, 0) == 0);
        lemma2_to64();
        lemma_mul_basics(r as int);
    }
    r
}

/// 256 = 2^8.
pub proof fn lemma_power_of_two_256()
    ensures
        is_power_of_two(256),
        pow2(8) == 256,
{
    lemma2_to64();
}

} // verus!
