//! Modular arithmetic for moduli below 2^62: Barrett and Montgomery reduction.

use vstd::prelude::*;
use vstd::arithmetic::div_mod::*;
use vstd::arithmetic::mul::*;
use vstd::arithmetic::power::*;
use vstd::arithmetic::power2::*;
use vstd::bits::*;
use crate::algebra::modpow::lemma_square_multiply_step;
use crate::algebra::primes::{fermat_inverse, is_prime, lemma_fermat_inverse};
use crate::algebra::congruence::{lemma_cong_add, lemma_cong_mod, lemma_cong_mul, lemma_cong_sub};

verus! {

/// 60-bit NTT-friendly prime: 1152921504606584833 = 17592186044317 · 2^16 + 1.
///
/// Satisfies q ≡ 1 (mod 2^16), supports N ≤ 32768.
pub const PRIME_60_1: u64 = 1_152_921_504_606_584_833;

/// Classic SEAL 61-bit prime: 0x1fffffffffe00001 = 2305843009211596801.
///
/// q = 2^61 − 2^21 + 1, satisfies q ≡ 1 (mod 2^21), supports N ≤ 1048576.
pub const PRIME_SEAL: u64 = 0x1FFF_FFFF_FFE0_0001;

/// 62-bit NTT-friendly prime: 4611686018326724609 = 70368744177283 · 2^16 + 1.
///
/// Satisfies q ≡ 1 (mod 2^16), supports N ≤ 32768.
pub const PRIME_62_1: u64 = 4_611_686_018_326_724_609;

/// 60-bit NTT-friendly prime: 576460752308273153 = 8796093022282 · 2^16 + 1.
///
/// Satisfies q ≡ 1 (mod 2^16), supports N ≤ 32768.
pub const PRIME_60_2: u64 = 576_460_752_308_273_153;

/// 60-bit NTT-friendly prime: 576460752312401921 = 8796093022345 · 2^16 + 1.
///
/// Satisfies q ≡ 1 (mod 2^16), supports N ≤ 32768.
pub const PRIME_60_3: u64 = 576_460_752_312_401_921;

/// 2^64, the Montgomery radix R.
pub open spec fn two64() -> int {
    0x1_0000_0000_0000_0000
}

/// 2^128.
pub open spec fn two128() -> int {
    two64() * two64()
}

/// 2^62, the bound on the modulus.
pub open spec fn two62() -> int {
    0x4000_0000_0000_0000
}

/// Precomputed modular arithmetic context for a given modulus.
///
/// Contains all constants needed for Barrett and Montgomery reductions.
/// The modulus must be odd and < 2^62.
#[derive(Debug, Clone, Copy)]
pub struct Ntt64Arith {
    /// The modulus q (must be < 2^62 and odd).
    pub modulus: u64,
    /// Barrett constant: μ = floor(2^128 / q).
    pub barrett_mu: u128,
    /// Montgomery constant R = 2^64 mod q.
    pub mont_r: u64,
    /// Montgomery constant R² = 2^128 mod q.
    pub mont_r2: u64,
    /// Montgomery constant −q⁻¹ mod 2^64.
    pub mont_neg_inv: u64,
}

impl Ntt64Arith {
    /// The modulus as an integer.
    pub open spec fn q(&self) -> int {
        self.modulus as int
    }

    /// Every constant is the one its field names, for an odd modulus in [2, 2^62).
    pub open spec fn wf(&self) -> bool {
        &&& 2 <= self.modulus < two62()
        &&& self.modulus % 2 == 1
        &&& self.barrett_mu == two128() / self.q()
        &&& self.mont_r == two64() % self.q()
        &&& self.mont_r2 == two128() % self.q()
        &&& (self.q() * self.mont_neg_inv + 1) % two64() == 0
    }
}

/// Branchless modular addition.
///
/// Returns `(a + b) mod m` with `a, b < m`, for every modulus: where `a + b` carries out of
/// 64 bits (only possible for m > 2^63) the true sum is at least m, and the wrapped difference
/// `s − m` is the result.
pub fn mod_add(a: u64, b: u64, m: u64) -> (r: u64)
    requires
        a < m,
        b < m,
    ensures
        r == (a + b) % (m as int),
{
    let s = a.wrapping_add(b);
    // carry out of 64 bits
    let carry = s < a;
    // s >= m (or a carry) → no borrow → s - m; s < m → borrow → s
    let borrow = !carry && s < m;
    let sub = s.wrapping_sub(m);
    proof {
        if a + b < two64() {
            assert(s == a + b);
            if s < m {
                lemma_small_mod(s as nat, m as nat);
            } else {
                lemma_fundamental_div_mod_converse((a + b) as int, m as int, 1, (a + b - m) as int);
            }
        } else {
            assert(s == a + b - two64());
            assert(carry);
            lemma_fundamental_div_mod_converse((a + b) as int, m as int, 1, (a + b - m) as int);
        }
    }
    if borrow {
        s
    } else {
        sub
    }
}

/// Branchless modular subtraction.
///
/// Returns `(a - b) mod m` with `a, b < m`.
pub fn mod_sub(a: u64, b: u64, m: u64) -> (r: u64)
    requires
        a < m,
        b < m,
    ensures
        r == (a - b) % (m as int),
{
    let borrow = a < b;
    let sub = a.wrapping_sub(b);
    proof {
        if a < b {
            lemma_fundamental_div_mod_converse(a - b, m as int, -1, a - b + m);
        } else {
            lemma_small_mod((a - b) as nat, m as nat);
        }
    }
    // a < b → borrow → a - b + m
    if borrow {
        sub.wrapping_add(m)
    } else {
        sub
    }
}

/// A 128-bit value is its high 64 bits times 2^64 plus its low 64 bits.
proof fn lemma_split_u128(p: u128)
    ensures
        (p >> 64u128) < two64(),
        p as int == (p >> 64u128) * two64() + (p as u64),
{
    lemma_u128_shr_is_div(p, 64);
    lemma2_to64();
    assert((p as u64) as int == (p as int) % two64()) by (bit_vector);
    lemma_fundamental_div_mod(p as int, two64());
    let d = (p as int) / two64();
    assert(d < two64()) by (nonlinear_arith)
        requires
            p as int == two64() * d + (p as int) % two64(),
            (p as int) % two64() >= 0,
            p < two64() * two64(),
            two64() > 0,
    ;
}

/// The schoolbook product of two numbers written in base a.
proof fn lemma_product_of_splits(x1: int, x0: int, y1: int, y0: int, a: int)
    ensures
        (x1 * a + x0) * (y1 * a + y0) == (x1 * y1) * (a * a) + (x0 * y1 + x1 * y0) * a + x0 * y0,
{
    let y = y1 * a + y0;
    lemma_mul_is_distributive_add_other_way(y, x1 * a, x0);
    lemma_mul_is_distributive_add(x1 * a, y1 * a, y0);
    lemma_mul_is_distributive_add(x0, y1 * a, y0);
    assert((x1 * a) * (y1 * a) == (x1 * y1) * (a * a)) by {
        lemma_mul_is_associative(x1, a, y1 * a);
        lemma_mul_is_associative(a, y1, a);
        lemma_mul_is_commutative(a, y1);
        lemma_mul_is_associative(y1, a, a);
        lemma_mul_is_associative(x1, y1, a * a);
    }
    assert((x1 * a) * y0 == (x1 * y0) * a) by {
        lemma_mul_is_associative(x1, a, y0);
        lemma_mul_is_commutative(a, y0);
        lemma_mul_is_associative(x1, y0, a);
    }
    assert(x0 * (y1 * a) == (x0 * y1) * a) by {
        lemma_mul_is_associative(x0, y1, a);
    }
    lemma_mul_is_distributive_add_other_way(a, x0 * y1, x1 * y0);
}

/// The top 128 bits of the 256-bit product p · μ, from four 64 × 64 partial products.
fn mul_high_128(p: u128, mu: u128) -> (h: u128)
    ensures
        h == (p * mu) / two128(),
{
    let p_lo = p as u64 as u128;
    let p_hi = (p >> 64) as u64 as u128;
    let mu_lo = mu as u64 as u128;
    let mu_hi = (mu >> 64) as u64 as u128;
    proof {
        lemma_split_u128(p);
        lemma_split_u128(mu);
        lemma_mul_upper_bound(p_lo as int, two64() - 1, mu_hi as int, two64() - 1);
        lemma_mul_upper_bound(p_hi as int, two64() - 1, mu_lo as int, two64() - 1);
        lemma_mul_upper_bound(p_hi as int, two64() - 1, mu_hi as int, two64() - 1);
        lemma_mul_upper_bound(p_lo as int, two64() - 1, mu_lo as int, two64() - 1);
        assert((two64() - 1) * (two64() - 1) < two128()) by (nonlinear_arith);
    }
    let mid1 = p_lo * mu_hi;
    let mid2 = p_hi * mu_lo;
    let high = p_hi * mu_hi;
    // Accumulate carries toward the upper 128 bits.
    let t_lo = p_lo * mu_lo;
    let carry_from_lo = t_lo >> 64;
    proof {
        lemma_split_u128(t_lo);
        lemma_split_u128(mid1);
        lemma_split_u128(mid2);
    }
    let mid_sum = mid1 as u64 as u128 + mid2 as u64 as u128 + carry_from_lo;
    let carry_from_mid = mid_sum >> 64;
    proof {
        lemma_split_u128(mid_sum);
        let a = two64();
        let c0 = carry_from_lo as int;
        let r0 = (t_lo as u64) as int;
        let m1h = (mid1 >> 64u128) as int;
        let m1l = (mid1 as u64) as int;
        let m2h = (mid2 >> 64u128) as int;
        let m2l = (mid2 as u64) as int;
        let c1 = carry_from_mid as int;
        let r1 = (mid_sum as u64) as int;
        let hq = high + m1h + m2h + c1;
        let ph = p_hi as int;
        let pl = p_lo as int;
        let mh = mu_hi as int;
        let ml = mu_lo as int;
        lemma_product_of_splits(ph, pl, mh, ml, a);
        assert((m1h * a + m1l + m2h * a + m2l) * a == (m1h + m2h) * (a * a) + (m1l + m2l) * a)
            by (nonlinear_arith);
        assert((c1 * a + r1) * a == c1 * (a * a) + r1 * a) by (nonlinear_arith);
        assert((m1l + m2l) * a + c0 * a == (m1l + m2l + c0) * a) by (nonlinear_arith);
        assert(hq * (a * a) == high * (a * a) + (m1h + m2h) * (a * a) + c1 * (a * a))
            by (nonlinear_arith)
            requires
                hq == high + m1h + m2h + c1,
        ;
        assert(p * mu == hq * (a * a) + (r1 * a + r0));
        assert(0 <= r1 * a + r0 < a * a) by (nonlinear_arith)
            requires
                0 <= r1 < a,
                0 <= r0 < a,
        ;
        lemma_fundamental_div_mod_converse(p * mu, a * a, hq, r1 * a + r0);
        assert(hq < two128()) by {
            lemma_mul_upper_bound(p as int, two128() - 1, mu as int, two128() - 1);
            lemma_div_is_ordered(p * mu, two128() * two128(), two128());
            lemma_div_by_multiple(two128(), two128());
        }
    }
    high + (mid1 >> 64) + (mid2 >> 64) + carry_from_mid
}

/// Barrett's quotient is the true quotient or one less, so the remainder lies in [0, 2q).
proof fn lemma_barrett_bound(p: int, q: int, mu: int, qhat: int)
    requires
        2 <= q < two64(),
        0 <= p < q * q,
        mu == two128() / q,
        qhat == (p * mu) / two128(),
    ensures
        0 <= p - qhat * q < 2 * q,
{
    let a2 = two128();
    lemma_fundamental_div_mod(a2, q);
    let s = a2 % q;
    assert(mu * q == a2 - s) by {
        lemma_mul_is_commutative(mu, q);
    }
    lemma_mod_bound(a2, q);
    assert(p * mu >= 0) by (nonlinear_arith)
        requires
            p >= 0,
            mu >= 0,
    ;
    lemma_fundamental_div_mod(p * mu, a2);
    let t = (p * mu) % a2;
    lemma_mod_bound(p * mu, a2);
    assert(p * mu == a2 * qhat + t);
    // qhat · q ≤ p
    assert((p * mu) * q == p * (mu * q)) by (nonlinear_arith);
    assert((a2 * qhat + t) * q == a2 * (qhat * q) + t * q) by (nonlinear_arith);
    assert(p * (a2 - s) == p * a2 - p * s) by (nonlinear_arith);
    assert(t * q >= 0 && p * s >= 0) by (nonlinear_arith)
        requires
            t >= 0,
            q >= 0,
            p >= 0,
            s >= 0,
    ;
    assert(qhat * q <= p) by {
        if qhat * q > p {
            lemma_mul_strict_inequality(p, qhat * q, a2);
            lemma_mul_is_commutative(p, a2);
        }
    }
    // p < (qhat + 2) · q
    assert(q * q <= a2) by (nonlinear_arith)
        requires
            2 <= q < two64(),
            a2 == two64() * two64(),
    ;
    assert(p * s < a2 * q) by (nonlinear_arith)
        requires
            0 <= p < q * q,
            0 <= s < q,
            q * q <= a2,
            q > 0,
    ;
    // p · a2 = (a2 · qhat + t) · q + p · s < (qhat + 2) · q · a2
    assert(t * q < a2 * q) by {
        lemma_mul_strict_inequality(t, a2, q);
    }
    assert(p * a2 < a2 * ((qhat + 2) * q)) by (nonlinear_arith)
        requires
            p * a2 - p * s == a2 * (qhat * q) + t * q,
            t * q < a2 * q,
            p * s < a2 * q,
    ;
    assert(p < (qhat + 2) * q) by {
        if p >= (qhat + 2) * q {
            lemma_mul_inequality((qhat + 2) * q, p, a2);
            lemma_mul_is_commutative(p, a2);
            lemma_mul_is_commutative((qhat + 2) * q, a2);
        }
    }
}

/// Modular multiplication via Barrett reduction.
///
/// Returns `(a * b) mod q` with `a, b < q` and `q < 2^62`.
///
/// # Algorithm
/// 1. `p = a * b` (u128, at most ~2^124)
/// 2. `qhat = (p * μ) >> 128` (quotient approximation)
/// 3. `r = p - qhat * q` (approximate remainder)
/// 4. Single conditional subtraction to correct
pub fn mod_mul_barrett(a: u64, b: u64, ctx: &Ntt64Arith) -> (r: u64)
    requires
        ctx.wf(),
        a < ctx.modulus,
        b < ctx.modulus,
    ensures
        r == (a * b) % ctx.q(),
{
    let q64 = ctx.modulus;
    proof {
        assert(a * b < q64 * q64) by (nonlinear_arith)
            requires
                a < q64,
                b < q64,
        ;
        lemma_mul_upper_bound(q64 as int, two62(), q64 as int, two62());
        assert(two62() * two62() < two128()) by (nonlinear_arith);
    }
    let p = a as u128 * b as u128;
    // Quotient approximation: qhat = floor(p * μ / 2^128)
    let qhat = mul_high_128(p, ctx.barrett_mu);
    // Approximate remainder: r = p - qhat * q, in [0, 2q)
    let q = ctx.modulus as u128;
    proof {
        lemma_barrett_bound(p as int, q as int, ctx.barrett_mu as int, qhat as int);
    }
    let r = (p - qhat * q) as u64;
    // Correction: r may be in [0, 2q), so at most one subtraction
    let borrow = r < q64;
    let corrected = r.wrapping_sub(q64);
    proof {
        let rr = p - qhat * q;
        lemma_mul_is_commutative(qhat as int, q as int);
        lemma_mul_is_distributive_add(q as int, qhat as int, 1);
        if rr < q {
            lemma_fundamental_div_mod_converse(p as int, q as int, qhat as int, rr);
        } else {
            lemma_fundamental_div_mod_converse(p as int, q as int, qhat + 1, rr - q);
        }
    }
    if borrow {
        r
    } else {
        corrected
    }
}

/// R⁻¹ mod q for an odd modulus q, with R = 2^64: the 64th power of the inverse of 2,
/// which is (q + 1) / 2.
pub open spec fn radix_inverse(q: int) -> int {
    pow((q + 1) / 2, 64) % q
}

/// R · R⁻¹ ≡ 1 (mod q) for an odd modulus q ≥ 3.
pub proof fn lemma_radix_inverse(q: int)
    requires
        q >= 3,
        q % 2 == 1,
    ensures
        (two64() * radix_inverse(q)) % q == 1,
        0 <= radix_inverse(q) < q,
{
    let h = (q + 1) / 2;
    assert(2 * h == q + 1);
    lemma_pow_distributes(2, h, 64);
    lemma_pow_mod_noop(2 * h, 64, q);
    assert((2 * h) % q == 1) by {
        lemma_fundamental_div_mod_converse(2 * h, q, 1, 1);
    }
    lemma1_pow(64);
    lemma_small_mod(1, q as nat);
    lemma_pow2(64);
    lemma2_to64();
    assert(pow(2, 64) == two64());
    lemma_mul_mod_noop_right(two64(), pow(h, 64), q);
    lemma_mod_bound(pow(h, 64), q);
}

/// The REDC sum t + m·q is a multiple of R.
proof fn lemma_redc_exact(t: int, q: int, ni: int, m: int)
    requires
        t >= 0,
        q > 0,
        ni >= 0,
        (q * ni + 1) % two64() == 0,
        m == ((t % two64()) * ni) % two64(),
    ensures
        (t + m * q) % two64() == 0,
{
    let r = two64();
    let tl = t % r;
    lemma_mod_bound(t, r);
    // m·q ≡ tl·ni·q (mod R)
    lemma_mul_mod_noop_left(tl * ni, q, r);
    assert((tl * ni) * q == tl * (q * ni)) by {
        lemma_mul_is_associative(tl, ni, q);
        lemma_mul_is_commutative(ni, q);
        lemma_mul_is_associative(tl, q, ni);
    }
    // t + m·q ≡ tl + tl·q·ni = tl·(q·ni + 1) ≡ 0 (mod R)
    lemma_cong_mod(t, r);
    lemma_cong_add(t, tl, m * q, tl * (q * ni), r);
    lemma_mul_is_distributive_add(tl, q * ni, 1);
    lemma_mul_mod_noop_right(tl, q * ni + 1, r);
    lemma_mul_basics(tl);
    lemma_small_mod(0, r as nat);
}

/// Montgomery multiplication (REDC).
///
/// Returns `a_mont * b_mont * R⁻¹ mod q`. If `a_mont = a·R mod q` and `b_mont = b·R mod q`,
/// the result is `(a·b)·R mod q`.
///
/// # Algorithm (REDC)
/// 1. `t = a * b` (u128)
/// 2. `m = (t mod R) * (−q⁻¹ mod R) mod R`
/// 3. `u = (t + m·q) / R` (exact division since t + m·q ≡ 0 mod R)
/// 4. Conditional subtraction if u ≥ q
pub fn mod_mul_mont(a_mont: u64, b_mont: u64, ctx: &Ntt64Arith) -> (r: u64)
    requires
        ctx.wf(),
        a_mont * b_mont < ctx.q() * two64(),
    ensures
        r == (a_mont * b_mont * radix_inverse(ctx.q())) % ctx.q(),
{
    let q = ctx.modulus;
    let t = a_mont as u128 * b_mont as u128;
    // m = (t mod 2^64) * neg_inv mod 2^64
    let t_lo = t as u64;
    let m = t_lo.wrapping_mul(ctx.mont_neg_inv);
    proof {
        assert((t as u64) as int == (t as int) % two64()) by (bit_vector);
        assert(m * q < two64() * q) by (nonlinear_arith)
            requires
                m < two64(),
                q > 0,
        ;
        lemma_mul_upper_bound(q as int, two62(), two64(), two64());
        assert(two62() * two64() * 2 < two128()) by (nonlinear_arith);
        lemma_mul_is_commutative(two64(), q as int);
    }
    // u = (t + m * q) >> 64, an exact division
    let mq = m as u128 * q as u128;
    let sum = t + mq;
    let u = (sum >> 64) as u64;
    proof {
        let qi = q as int;
        lemma_redc_exact(t as int, qi, ctx.mont_neg_inv as int, m as int);
        lemma_u128_shr_is_div(sum, 64);
        lemma2_to64();
        lemma_fundamental_div_mod(sum as int, two64());
        let uu = (sum as int) / two64();
        assert(sum == two64() * uu);
        // u < 2q
        assert(uu < 2 * qi) by (nonlinear_arith)
            requires
                sum == two64() * uu,
                sum < two64() * qi + two64() * qi,
                two64() > 0,
        ;
        // r ≡ u, and u·R = t + m·q ≡ t (mod q)
        lemma_mod_multiples_basic(m as int, qi);
        lemma_mul_is_commutative(m as int, qi);
        lemma_mod_multiples_vanish(m as int, t as int, qi);
        lemma_mul_is_commutative(two64(), uu);
        assert((uu * two64()) % qi == (t as int) % qi);
        lemma_radix_inverse(qi);
        let ri = radix_inverse(qi);
        lemma_cong_mul(uu * two64(), t as int, ri, ri, qi);
        lemma_mul_is_associative(uu, two64(), ri);
        lemma_mul_mod_noop_right(uu, two64() * ri, qi);
        lemma_mul_basics(uu);
        assert(uu % qi == ((t as int) * ri) % qi);
        if uu < qi {
            lemma_small_mod(uu as nat, qi as nat);
        } else {
            lemma_fundamental_div_mod_converse(uu, qi, 1, uu - qi);
            lemma_small_mod((uu - qi) as nat, qi as nat);
        }
    }
    // Final correction: u may be in [0, 2q)
    let borrow = u < q;
    let corrected = u.wrapping_sub(q);
    if borrow {
        u
    } else {
        corrected
    }
}

/// Converts a value into Montgomery domain.
///
/// `to_montgomery(a) = a · R mod q`, computed as `REDC(a, R²)`.
pub fn to_montgomery(a: u64, ctx: &Ntt64Arith) -> (r: u64)
    requires
        ctx.wf(),
    ensures
        r == (a * two64()) % ctx.q(),
{
    let ghost q = ctx.q();
    proof {
        lemma_mod_bound(two128(), q);
        assert(a * ctx.mont_r2 < q * two64()) by (nonlinear_arith)
            requires
                a < two64(),
                ctx.mont_r2 < q,
                ctx.mont_r2 >= 0,
                a >= 0,
        ;
    }
    let r = mod_mul_mont(a, ctx.mont_r2, ctx);
    proof {
        let ri = radix_inverse(q);
        let r2 = ctx.mont_r2 as int;
        lemma_radix_inverse(q);
        // r ≡ a · R² · R⁻¹ ≡ a · R (mod q)
        lemma_cong_mod(two128(), q);
        lemma_cong_mul(a as int, a as int, r2, two128(), q);
        lemma_cong_mul(a * r2, a * two128(), ri, ri, q);
        assert((a * two128()) * ri == (a * two64()) * (two64() * ri)) by {
            lemma_mul_is_associative(a as int, two64(), two64());
            lemma_mul_is_associative(a * two64(), two64(), ri);
        }
        lemma_mul_mod_noop_right(a * two64(), two64() * ri, q);
        lemma_mul_basics(a * two64());
        lemma_mod_twice(a * two64(), q);
        lemma_mod_bound((a * r2) * ri, q);
    }
    r
}

/// Converts a value out of Montgomery domain.
///
/// `from_montgomery(a_mont) = a_mont · R⁻¹ mod q = REDC(a_mont, 1)`
pub fn from_montgomery(a_mont: u64, ctx: &Ntt64Arith) -> (r: u64)
    requires
        ctx.wf(),
    ensures
        r == (a_mont * radix_inverse(ctx.q())) % ctx.q(),
{
    proof {
        assert(a_mont * 1 < ctx.q() * two64()) by (nonlinear_arith)
            requires
                a_mont < two64(),
                ctx.q() >= 2,
        ;
    }
    mod_mul_mont(a_mont, 1, ctx)
}

/// Congruence modulo a number passes to each of its divisors.
proof fn lemma_cong_divisor(x: int, y: int, d: int, m: int)
    requires
        d > 0,
        m > 0,
        x % (d * m) == y % (d * m),
    ensures
        x % d == y % d,
{
    lemma_mod_mod(x, d, m);
    lemma_mod_mod(y, d, m);
}

/// One Newton-Hensel step doubles the number of correct low bits of q⁻¹:
/// from q·x ≡ 1 (mod 2^k) follows q·x' ≡ 1 (mod 2^2k) for x' = x·(2 − q·x) mod 2^64.
proof fn lemma_newton_step(q: u64, x: u64, k: nat)
    requires
        1 <= k <= 32,
        (q * x) % (pow2(k) as int) == 1,
    ensures
        (q * x.wrapping_mul(2u64.wrapping_sub(q.wrapping_mul(x)))) % (pow2(2 * k) as int) == 1,
{
    let r = two64();
    let kk = pow2(k) as int;
    let k2 = pow2(2 * k) as int;
    let y = q.wrapping_mul(x);
    let z = 2u64.wrapping_sub(y);
    let x2 = x.wrapping_mul(z);
    lemma_pow2_pos(k);
    lemma_pow2_pos(2 * k);
    lemma_pow2_adds(k, k);
    lemma_pow2_adds(2 * k, (64 - 2 * k) as nat);
    lemma_pow2_pos((64 - 2 * k) as nat);
    lemma2_to64();
    let rest = pow2((64 - 2 * k) as nat) as int;
    assert(k2 * rest == r);
    // t = q·x = 1 + c·K
    let t = q * x;
    lemma_fundamental_div_mod(t, kk);
    let c = t / kk;
    assert(t == kk * c + 1);
    // t · (2 − t) = 1 − c² · K²
    assert(t * (2 - t) == 1 - (c * c) * k2) by (nonlinear_arith)
        requires
            t == kk * c + 1,
            k2 == kk * kk,
    ;
    assert((1 - (c * c) * k2) % k2 == 1) by {
        lemma_pow2_strictly_increases(0, 2 * k);
        assert((-(c * c)) * k2 == -((c * c) * k2)) by (nonlinear_arith);
        lemma_fundamental_div_mod_converse(1 - (c * c) * k2, k2, -(c * c), 1);
    }
    // modulo R: y ≡ t, z ≡ 2 − t, x2 ≡ x·z, so q·x2 ≡ t·(2 − t)
    assert(y as int == t % r);
    assert(z as int % r == (2 - t) % r) by {
        lemma_mod_bound(t, r);
        if 2 - (y as int) < 0 {
            lemma_fundamental_div_mod_converse(2 - (y as int) + r, r, 0, 2 - (y as int) + r);
            lemma_fundamental_div_mod_converse(2 - (y as int), r, -1, 2 - (y as int) + r);
        } else {
            lemma_small_mod(z as nat, r as nat);
        }
        lemma_cong_mod(t, r);
        lemma_cong_sub(2, 2, y as int, t, r);
    }
    assert(x2 as int == (x * z) % r);
    lemma_cong_mod(x * z, r);
    lemma_cong_mul(q as int, q as int, x2 as int, x * z, r);
    lemma_cong_mul(t, t, z as int, 2 - t, r);
    assert(q * (x * z) == t * z) by {
        lemma_mul_is_associative(q as int, x as int, z as int);
    }
    assert((q * x2) % r == (t * (2 - t)) % r);
    lemma_cong_divisor(q * x2, t * (2 - t), k2, rest);
}

/// −q⁻¹ mod 2^64 for an odd q, by Newton-Hensel lifting from x₀ = 1 (q·1 ≡ 1 mod 2):
/// six steps take the precision from 1 bit to 64.
fn neg_inverse_mod_r(modulus: u64) -> (r: u64)
    requires
        modulus % 2 == 1,
    ensures
        (modulus * r + 1) % two64() == 0,
{
    let mut inv: u64 = 1;
    proof {
        lemma2_to64();
        lemma_fundamental_div_mod(modulus as int, 2);
        lemma_mul_basics(modulus as int);
    }
    let mut i: u32 = 0;
    while i < 6
        invariant
            i <= 6,
            modulus % 2 == 1,
            (modulus * inv) % (pow2(pow2(i as nat)) as int) == 1,
        decreases 6 - i,
    {
        proof {
            lemma2_to64();
            lemma_newton_step(modulus, inv, pow2(i as nat));
            lemma_pow2_unfold((i + 1) as nat);
        }
        inv = inv.wrapping_mul(2u64.wrapping_sub(modulus.wrapping_mul(inv)));
        i += 1;
    }
    let neg = 0u64.wrapping_sub(inv);
    proof {
        lemma2_to64();
        let r = two64();
        assert((modulus * inv) % r == 1);
        if inv == 0 {
            lemma_mul_basics(modulus as int);
            lemma_small_mod(0, r as nat);
        }
        assert(neg == r - inv);
        assert(modulus * neg + 1 == r * modulus - (modulus * inv - 1)) by (nonlinear_arith)
            requires
                neg == r - inv,
        ;
        lemma_fundamental_div_mod(modulus * inv, r);
        let c = (modulus * inv) / r;
        assert(modulus * neg + 1 == r * (modulus - c)) by (nonlinear_arith)
            requires
                modulus * neg + 1 == r * modulus - (modulus * inv - 1),
                modulus * inv == r * c + 1,
        ;
        lemma_mod_multiples_basic(modulus - c, r);
        lemma_mul_is_commutative(modulus - c, r);
    }
    neg
}

impl Ntt64Arith {
    /// Creates a new modular arithmetic context for the given modulus.
    ///
    /// The modulus must be odd (required for Montgomery) and in [2, 2^62).
    pub fn new(modulus: u64) -> (ctx: Self)
        requires
            2 <= modulus < two62(),
            modulus % 2 == 1,
        ensures
            ctx.wf(),
            ctx.modulus == modulus,
    {
        // --- Barrett constant: μ = floor(2^128 / q) ---
        // 2^128 does not fit in u128:
        //   floor(2^128 / q) = floor(u128::MAX / q) + (1 if u128::MAX % q + 1 == q)
        let q = modulus as u128;
        let div = u128::MAX / q;
        let rem = u128::MAX % q;
        proof {
            lemma_fundamental_div_mod(u128::MAX as int, q as int);
            lemma_mod_bound(u128::MAX as int, q as int);
            assert(u128::MAX + 1 == two128());
            lemma_mul_is_commutative(div as int, q as int);
            lemma_mul_is_distributive_add_other_way(q as int, div as int, 1);
            if rem + 1 == q {
                lemma_fundamental_div_mod_converse(two128(), q as int, div + 1, 0);
                assert(div + 1 <= u128::MAX) by {
                    lemma_div_is_ordered_by_denominator(two128(), 2, q as int);
                    lemma_div_by_multiple(two64() * 0x8000_0000_0000_0000, 2);
                }
            } else {
                lemma_fundamental_div_mod_converse(two128(), q as int, div as int, rem + 1);
            }
        }
        let barrett_mu = if rem + 1 == q {
            div + 1
        } else {
            div
        };
        // --- Montgomery constants ---
        // R = 2^64 mod q = (u64::MAX % q + 1) % q
        let r0 = (u64::MAX % modulus).wrapping_add(1);
        proof {
            lemma_fundamental_div_mod(u64::MAX as int, modulus as int);
            lemma_mod_bound(u64::MAX as int, modulus as int);
            let d = (u64::MAX as int) / (modulus as int);
            lemma_mul_is_commutative(d, modulus as int);
            lemma_mul_is_distributive_add_other_way(modulus as int, d, 1);
            if r0 == modulus {
                lemma_fundamental_div_mod_converse(two64(), modulus as int, d + 1, 0);
            } else {
                lemma_fundamental_div_mod_converse(two64(), modulus as int, d, r0 as int);
            }
        }
        let mont_r = if r0 == modulus {
            0
        } else {
            r0
        };
        // R² = 2^128 mod q = (R · R) mod q via u128
        proof {
            assert(mont_r * mont_r < two128()) by (nonlinear_arith)
                requires
                    mont_r < two64(),
                    mont_r >= 0,
            ;
        }
        let mont_r2 = ((mont_r as u128 * mont_r as u128) % modulus as u128) as u64;
        proof {
            lemma_mod_bound(mont_r * mont_r, modulus as int);
            lemma_cong_mod(two64(), modulus as int);
            lemma_cong_mul(mont_r as int, two64(), mont_r as int, two64(), modulus as int);
        }
        // −q⁻¹ mod 2^64
        let mont_neg_inv = neg_inverse_mod_r(modulus);
        Ntt64Arith { modulus, barrett_mu, mont_r, mont_r2, mont_neg_inv }
    }
}

/// Fast modular exponentiation (square-and-multiply).
///
/// Returns `base^exp mod q` using Barrett multiplication.
pub fn mod_pow(base: u64, exp: u64, ctx: &Ntt64Arith) -> (r: u64)
    requires
        ctx.wf(),
    ensures
        r == pow(base as int, exp as nat) % ctx.q(),
{
    let ghost q = ctx.q();
    if exp == 0 {
        proof {
            lemma_pow0(base as int);
            lemma_small_mod(1, q as nat);
        }
        return 1;
    }
    if base == 0 {
        proof {
            lemma0_pow(exp as nat);
            lemma_small_mod(0, q as nat);
        }
        return 0;
    }
    let mut result = 1u64;
    let mut b = base % ctx.modulus;
    let mut e = exp;
    proof {
        lemma_pow_mod_noop(base as int, exp as nat, q);
        lemma_mul_basics(pow((base % ctx.modulus) as int, exp as nat));
    }
    while e > 0
        invariant
            ctx.wf(),
            q == ctx.q(),
            b < q,
            result < q,
            (result * pow(b as int, e as nat)) % q == pow(base as int, exp as nat) % q,
        decreases e,
    {
        proof {
            lemma_square_multiply_step(result as int, b as int, e as nat, q);
            assert(e & 1 == e % 2) by (bit_vector);
            assert(e >> 1 == e / 2) by (bit_vector);
        }
        let ghost old_b = b;
        let ghost old_e = e;
        if e & 1 == 1 {
            result = mod_mul_barrett(result, b, ctx);
        }
        e >>= 1;
        if e > 0 {
            b = mod_mul_barrett(b, b, ctx);
        } else {
            proof {
                lemma_pow0(b as int);
                lemma_pow0(((old_b * old_b) % q) as int);
            }
        }
    }
    proof {
        lemma_pow0(b as int);
        lemma_mul_basics(result as int);
        lemma_small_mod(result as nat, q as nat);
    }
    result
}

/// Modular inverse via Fermat's little theorem: `a^(q−2) mod q`, the inverse of a when q is
/// prime.
pub fn mod_inv(a: u64, ctx: &Ntt64Arith) -> (r: u64)
    requires
        ctx.wf(),
        a != 0,
        a < ctx.modulus,
    ensures
        r == fermat_inverse(a as int, ctx.q()),
        is_prime(ctx.q()) ==> (a * r) % ctx.q() == 1,
{
    let r = mod_pow(a, ctx.modulus - 2, ctx);
    proof {
        if is_prime(ctx.q()) {
            lemma_small_mod(a as nat, ctx.q() as nat);
            lemma_fermat_inverse(a as int, ctx.q());
        }
    }
    r
}

/// Leaving the Montgomery domain undoes entering it: `from_montgomery(to_montgomery(a)) = a mod q`.
pub proof fn lemma_montgomery_roundtrip(ctx: &Ntt64Arith, a: u64)
    requires
        ctx.wf(),
    ensures
        (((a * two64()) % ctx.q()) * radix_inverse(ctx.q())) % ctx.q() == (a as int) % ctx.q(),
{
    let q = ctx.q();
    let ri = radix_inverse(q);
    lemma_radix_inverse(q);
    lemma_mul_mod_noop_left(a * two64(), ri, q);
    lemma_mul_is_associative(a as int, two64(), ri);
    lemma_mul_mod_noop_right(a as int, two64() * ri, q);
    lemma_mul_basics(a as int);
}

/// The Montgomery product of the Montgomery forms of a and b is the Montgomery form of a · b,
/// so `from_montgomery(mod_mul_mont(to_montgomery(a), to_montgomery(b))) = a · b mod q`.
pub proof fn lemma_montgomery_product(ctx: &Ntt64Arith, a: u64, b: u64)
    requires
        ctx.wf(),
    ensures
        (((a * two64()) % ctx.q()) * ((b * two64()) % ctx.q()) * radix_inverse(ctx.q())) % ctx.q()
            == ((a * b) * two64()) % ctx.q(),
        (((((a * b) * two64()) % ctx.q()) * radix_inverse(ctx.q())) % ctx.q()) == (a * b) % ctx.q(),
{
    let q = ctx.q();
    let r = two64();
    let ri = radix_inverse(q);
    lemma_radix_inverse(q);
    lemma_cong_mod(a * r, q);
    lemma_cong_mod(b * r, q);
    lemma_cong_mul((a * r) % q, a * r, (b * r) % q, b * r, q);
    lemma_cong_mul(((a * r) % q) * ((b * r) % q), (a * r) * (b * r), ri, ri, q);
    assert(((a * r) * (b * r)) * ri == ((a * b) * r) * (r * ri)) by (nonlinear_arith);
    lemma_mul_mod_noop_right((a * b) * r, r * ri, q);
    lemma_mul_basics((a * b) * r);
    lemma_mod_bound(a * b * r, q);
    lemma_mul_mod_noop_left((a * b) * r, ri, q);
    lemma_mul_is_associative(a * b, r, ri);
    lemma_mul_mod_noop_right(a * b, r * ri, q);
    lemma_mul_basics(a * b);
}

} // verus!
