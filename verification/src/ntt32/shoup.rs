//! Shoup multiplication: a product by a fixed residue with a precomputed quotient.

use vstd::prelude::*;
use vstd::arithmetic::div_mod::*;
use vstd::arithmetic::mul::*;

verus! {

/// 2^32 as an integer.
pub open spec fn two_32() -> int {
    0x1_0000_0000
}

/// The Shoup quotient of `w` for modulus `q`: `floor(w · 2^32 / q)`.
pub open spec fn shoup_quotient(w: int, q: int) -> int {
    (w * two_32()) / q
}

/// The quotient estimate of Shoup's method is off by at most one:
/// `v·w - floor(v·w'/2^32)·q` lies in `[0, 2q)`.
pub proof fn lemma_shoup_remainder(v: int, w: int, ws: int, q: int)
    requires
        0 <= v < two_32(),
        0 <= w < q,
        q > 0,
        ws == shoup_quotient(w, q),
    ensures
        0 <= v * w - ((v * ws) / two_32()) * q < 2 * q,
        (v * ws) / two_32() >= 0,
{
    let b = two_32();
    let e = (w * b) % q;
    lemma_fundamental_div_mod(w * b, q);
    lemma_mod_bound(w * b, q);
    assert(w * b == q * ws + e);
    let qh = (v * ws) / b;
    let f = (v * ws) % b;
    lemma_fundamental_div_mod(v * ws, b);
    lemma_mod_bound(v * ws, b);
    assert(ws >= 0) by {
        lemma_div_pos_is_pos(w * b, q);
    }
    assert(v * ws >= 0) by {
        lemma_mul_nonnegative(v, ws);
    }
    assert(qh >= 0) by {
        lemma_div_pos_is_pos(v * ws, b);
    }
    assert(v * ws == b * qh + f);
    // (v w - qh q) b = q f + v e
    assert((v * w - qh * q) * b == q * f + v * e) by (nonlinear_arith)
        requires
            w * b == q * ws + e,
            v * ws == b * qh + f,
    ;
    assert(0 <= q * f + v * e < 2 * q * b) by (nonlinear_arith)
        requires
            0 <= f < b,
            0 <= v < b,
            0 <= e < q,
            q > 0,
    ;
    assert(0 <= v * w - qh * q < 2 * q) by (nonlinear_arith)
        requires
            (v * w - qh * q) * b == q * f + v * e,
            0 <= q * f + v * e < 2 * q * b,
            b > 0,
    ;
}

/// Shoup's estimate in any base b: with w' = floor(w·b/q) and v < b,
/// `v·w - floor(v·w'/b)·q` lies in `[0, 2q)`.
pub proof fn lemma_shoup_remainder_base(v: int, w: int, ws: int, q: int, b: int)
    requires
        b > 0,
        0 <= v < b,
        0 <= w < q,
        q > 0,
        ws == (w * b) / q,
    ensures
        0 <= v * w - ((v * ws) / b) * q < 2 * q,
        (v * ws) / b >= 0,
{
    let e = (w * b) % q;
    lemma_fundamental_div_mod(w * b, q);
    lemma_mod_bound(w * b, q);
    assert(w * b == q * ws + e);
    let qh = (v * ws) / b;
    let f = (v * ws) % b;
    lemma_fundamental_div_mod(v * ws, b);
    lemma_mod_bound(v * ws, b);
    assert(ws >= 0) by {
        lemma_div_pos_is_pos(w * b, q);
    }
    assert(v * ws >= 0) by {
        lemma_mul_nonnegative(v, ws);
    }
    assert(qh >= 0) by {
        lemma_div_pos_is_pos(v * ws, b);
    }
    assert(v * ws == b * qh + f);
    // (v w - qh q) b = q f + v e
    assert((v * w - qh * q) * b == q * f + v * e) by (nonlinear_arith)
        requires
            w * b == q * ws + e,
            v * ws == b * qh + f,
    ;
    assert(0 <= q * f + v * e < 2 * q * b) by (nonlinear_arith)
        requires
            0 <= f < b,
            0 <= v < b,
            0 <= e < q,
            q > 0,
    ;
    assert(0 <= v * w - qh * q < 2 * q) by (nonlinear_arith)
        requires
            (v * w - qh * q) * b == q * f + v * e,
            0 <= q * f + v * e < 2 * q * b,
            b > 0,
    ;
}

/// Precomputes the Shoup quotient `floor(w · 2^32 / q)` for a twiddle `w < q < 2^28`.
pub fn compute_shoup(w: u32, q: u32) -> (r: u32)
    requires
        w < q,
        q < 0x1000_0000,
    ensures
        r == shoup_quotient(w as int, q as int),
{
    proof {
        assert((w as u64) << 32u64 == (w as u64) * 0x1_0000_0000u64) by (bit_vector)
            requires
                w < 0x1000_0000u32,
        ;
        assert(w * two_32() < q * two_32()) by (nonlinear_arith)
            requires
                w < q,
        ;
        lemma_div_by_multiple_is_strongly_ordered(w * two_32(), q * two_32(), two_32(), q as int);
        lemma_div_by_multiple(two_32(), q as int);
        lemma_mul_is_commutative(two_32(), q as int);
    }
    (((w as u64) << 32) / q as u64) as u32
}

/// Mask-based Shoup multiplication: `v · w mod q`, using `w_shoup = floor(w · 2^32 / q)`
/// to estimate the quotient, then at most one correcting subtraction.
pub fn shoup_mul(v: u32, w: u32, w_shoup: u32, q: u32) -> (r: u32)
    requires
        v < q,
        w < q,
        w_shoup == shoup_quotient(w as int, q as int),
        q < 0x1000_0000,
    ensures
        r == (v * w) % (q as int),
        r < q,
{
    proof {
        lemma_shoup_remainder(v as int, w as int, w_shoup as int, q as int);
        assert(v * w < 0x1000_0000 * 0x1000_0000) by (nonlinear_arith)
            requires
                v < q,
                w < q,
                q < 0x1000_0000,
        ;
        lemma_mul_upper_bound(v as int, 0xffff_ffff, w_shoup as int, 0xffff_ffff);
    }
    let t = v as u64 * w as u64;
    let q_hat = ((v as u64 * w_shoup as u64) >> 32) as u32;
    let r = (t as u32).wrapping_sub(q_hat.wrapping_mul(q));
    proof {
        let b = two_32();
        let prod: u64 = (v as u64 * w_shoup as u64) as u64;
        assert(prod >> 32u64 == prod / 0x1_0000_0000u64) by (bit_vector);
        assert(q_hat == (v * w_shoup) / b);
        let d = t - q_hat * q;
        assert(0 <= d < 2 * q);
        assert((t as u32) == t % 0x1_0000_0000u64) by (bit_vector);
        let tl = (t as int) % b;
        let pl = (q_hat * q) % b;
        assert(q_hat.wrapping_mul(q) == pl);
        lemma_mod_bound(t as int, b);
        lemma_mod_bound(q_hat * q, b);
        // r ≡ tl - pl ≡ t - q_hat q (mod 2^32)
        assert(r as int == tl - pl || r as int == tl - pl + b);
        lemma_sub_mod_noop(t as int, q_hat * q, b);
        lemma_mod_add_multiples_vanish(tl - pl, b);
        lemma_mod_bound(tl - pl, b);
        lemma_small_mod(r as nat, b as nat);
        lemma_small_mod(d as nat, b as nat);
        if r as int == tl - pl {
            assert(r as int % b == (tl - pl) % b);
        } else {
            assert(r as int % b == (tl - pl) % b);
        }
        assert(r as int == d);
        // final correction
        lemma_fundamental_div_mod(t as int, q as int);
        if d >= q {
            lemma_mod_sub_multiples_vanish(d, q as int);
            lemma_small_mod((d - q) as nat, q as nat);
        } else {
            lemma_small_mod(d as nat, q as nat);
        }
        assert(d == t + (-q_hat) * q) by (nonlinear_arith)
            requires
                d == t - q_hat * q,
        ;
        lemma_mod_multiples_vanish(-q_hat, t as int, q as int);
        assert(q & 0xffff_ffffu32 == q) by (bit_vector);
        assert(q & 0u32 == 0) by (bit_vector);
    }
    let mask = 0u32.wrapping_sub((r >= q) as u32);
    r.wrapping_sub(q & mask)
}

/// The signed doubling-multiply-high quotient of a twiddle: `floor(w · 2^31 / q)`.
pub open spec fn qmulh_quotient(w: int, q: int) -> int {
    (w * 0x8000_0000) / q
}

/// Precomputes the doubling-multiply-high quotient `floor(w · 2^31 / q)` for a twiddle `w < q`,
/// as a signed lane value (it lies in [0, 2^31)).
pub fn compute_qmulh(w: u32, q: u32) -> (r: i32)
    requires
        w < q,
    ensures
        r >= 0,
        r as int == qmulh_quotient(w as int, q as int),
{
    proof {
        assert(w * 0x8000_0000int < q * 0x8000_0000int) by (nonlinear_arith)
            requires
                w < q,
        ;
        assert(w * 0x8000_0000int < 0x8000_0000_0000_0000int) by (nonlinear_arith)
            requires
                w < 0x1_0000_0000,
        ;
        let x = w * 0x8000_0000int;
        lemma_fundamental_div_mod(x, q as int);
        lemma_mod_bound(x, q as int);
        let d = x / (q as int);
        assert(d < 0x8000_0000) by (nonlinear_arith)
            requires
                x == q * d + x % (q as int),
                x % (q as int) >= 0,
                x < q * 0x8000_0000int,
                q > 0,
        ;
        lemma_div_pos_is_pos(x, q as int);
        assert(1u64 << 31u64 == 0x8000_0000u64) by (bit_vector);
    }
    ((w as u64 * (1u64 << 31)) / q as u64) as i32
}

/// Every entry of `wq` is the doubling-multiply-high quotient of the twiddle at the same index.
pub open spec fn qmulh_table(w: Seq<u32>, wq: Seq<i32>, q: int) -> bool {
    &&& wq.len() == w.len()
    &&& forall|i: int| 0 <= i < w.len() ==> #[trigger] wq[i] as int == qmulh_quotient(w[i] as int, q)
}

} // verus!
