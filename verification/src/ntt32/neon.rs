//! The vectorised pipeline, lane by lane in safe code.
//!
//! Every lane computes what one SIMD lane computes: the doubling-multiply-high quotient estimate
//! `q̂ = (2·v·w') >> 32` with `w' = floor(w·2^31/q)`, products and differences modulo 2^32, and
//! Barrett reduction with `floor(2^32/q)`. The forward transform defers reduction (entries grow by
//! 2q per stage, kept below 2^31 by the adaptive Barrett interval); the inverse keeps entries
//! reduced and folds N⁻¹ into its last layer. Both give exactly the transforms that the scalar
//! network gives.

use vstd::prelude::*;
use vstd::arithmetic::div_mod::*;
use vstd::arithmetic::mul::*;
use vstd::arithmetic::power2::*;
use vstd::bits::*;
use crate::algebra::transform::{
    congruent,
    ct_layer,
    ct_stages,
    forward_spec,
    gap,
    gs_layer,
    gs_stages,
    inverse_lazy_spec,
    inverse_spec,
    is_lower,
    lemma_ct_layer_congruent,
    lemma_ct_stages_reduced,
    lemma_layer_index,
    lemma_stages_len,
    scale,
    twiddle_index,
};
use crate::algebra::congruence::{lemma_cong_add, lemma_cong_mod, lemma_cong_mul, lemma_cong_sub};
use crate::ntt32::arith::{mod_add_28, mod_sub_28};
use crate::ntt32::context::{all_below32, ints32, Ntt32Context};
use crate::ntt32::shoup::{
    compute_qmulh,
    lemma_shoup_remainder,
    lemma_shoup_remainder_base,
    qmulh_quotient,
    shoup_quotient,
    two_32,
};
use crate::ntt32::scalar::{
    lemma_block_position,
    lemma_next_layer_sizes,
    ntt_forward_scalar,
    ntt_inverse_scalar,
    ntt_inverse_scalar_lazy,
};

verus! {

/// Subtracting two values reduced modulo 2^32 with wrap-around gives their difference, when that
/// difference lies in [0, 2^32).
proof fn lemma_wrapping_difference(a: int, b: int)
    requires
        0 <= a,
        0 <= b,
        0 <= a - b < two_32(),
    ensures
        ((a % two_32()) as u32).wrapping_sub((b % two_32()) as u32) == a - b,
{
    let m = two_32();
    let x = a % m;
    let y = b % m;
    lemma_mod_bound(a, m);
    lemma_mod_bound(b, m);
    lemma_sub_mod_noop(a, b, m);
    lemma_small_mod((a - b) as nat, m as nat);
    if x - y >= 0 {
        lemma_small_mod((x - y) as nat, m as nat);
    } else {
        lemma_fundamental_div_mod_converse(x - y, m, -1, x - y + m);
    }
}

/// One lane of `w·v` with the doubling-multiply-high quotient estimate: `v·w − q̂·q` with
/// `q̂ = (2·v·w') >> 32`, which lies in [0, 2q).
fn qmulh_mul_lane(v: u32, w: u32, wq: u32, q: u32) -> (r: u32)
    requires
        v < 0x8000_0000,
        2 <= q < 0x1000_0000,
        w < q,
        wq == qmulh_quotient(w as int, q as int),
    ensures
        r < 2 * q,
        (r as int) % (q as int) == (v * w) % (q as int),
{
    let ghost b = 0x8000_0000int;
    proof {
        assert(wq < b) by {
            lemma_div_is_ordered(w * b, q * b, q as int);
            lemma_mul_strict_inequality(w as int, q as int, b);
            lemma_mul_is_commutative(q as int, b);
            lemma_div_by_multiple(b, q as int);
            lemma_div_is_ordered(w * b, q * b - 1, q as int);
            lemma_fundamental_div_mod(w * b, q as int);
            lemma_mod_bound(w * b, q as int);
        }
        lemma_div_pos_is_pos(w * b, q as int);
        assert(2 * v * wq < 0x8000_0000_0000_0000) by (nonlinear_arith)
            requires
                v < 0x8000_0000,
                wq < 0x8000_0000,
                wq >= 0,
        ;
    }
    // q_hat = (2·v·w') >> 32, the doubling multiply-high of a lane below 2^31
    let prod = 2 * (v as u64) * (wq as u64);
    let qh = (prod >> 32) as u32;
    proof {
        lemma_u64_shr_is_div(prod, 32);
        lemma2_to64();
        let x = v * wq;
        lemma_fundamental_div_mod(x, b);
        lemma_mod_bound(x, b);
        assert(2 * x == (x / b) * (2 * b) + 2 * (x % b)) by (nonlinear_arith)
            requires
                x == b * (x / b) + x % b,
        ;
        assert(prod as int == 2 * x) by (nonlinear_arith)
            requires
                prod == 2 * v * wq,
                x == v * wq,
        ;
        lemma_fundamental_div_mod_converse(2 * x, 2 * b, x / b, 2 * (x % b));
        assert(x / b < b) by {
            lemma_mul_inequality(v as int, b, wq as int);
            lemma_mul_is_commutative(b, wq as int);
            lemma_div_is_ordered(x, wq * b, b);
            lemma_div_multiples_vanish(wq as int, b);
            lemma_mul_is_commutative(wq as int, b);
        }
        assert(qh as int == x / b);
        lemma_shoup_remainder_base(v as int, w as int, wq as int, q as int, b);
    }
    let vw = v.wrapping_mul(w);
    let wv = vw.wrapping_sub(qh.wrapping_mul(q));
    proof {
        lemma_wrapping_difference(v * w, qh * q);
        assert(wv == v * w - qh * q);
        assert(wv == q * (-(qh as int)) + v * w) by (nonlinear_arith)
            requires
                wv == v * w - qh * q,
        ;
        lemma_mod_multiples_vanish(-(qh as int), v * w, q as int);
    }
    wv
}

/// One lane of the deferred-reduction Cooley-Tukey butterfly: `w·v` by the doubling-multiply-high
/// quotient estimate, kept in [0, 2q), then `(u + w·v, u + 2q − w·v)` with no reduction.
fn qmulh_butterfly_ct(u: u32, v: u32, w: u32, wq: u32, q: u32, two_q: u32) -> (r: (u32, u32))
    requires
        v < 0x8000_0000,
        u + two_q <= u32::MAX,
        two_q == 2 * q,
        2 <= q < 0x1000_0000,
        w < q,
        wq == qmulh_quotient(w as int, q as int),
    ensures
        r.0 < u + two_q,
        r.1 <= u + two_q,
        (r.0 as int) % (q as int) == (u + w * v) % (q as int),
        (r.1 as int) % (q as int) == (u - w * v) % (q as int),
{
    let wv = qmulh_mul_lane(v, w, wq, q);
    proof {
        let qi = q as int;
        // (u + wv) ≡ u + w·v and (u + 2q − wv) ≡ u − w·v
        lemma_mul_is_commutative(v as int, w as int);
        lemma_cong_add(u as int, u as int, wv as int, w * v, qi);
        lemma_mod_multiples_vanish(2, u as int, qi);
        assert(u + two_q == qi * 2 + u);
        lemma_cong_sub(u + two_q, u as int, wv as int, w * v, qi);
    }
    (u + wv, (u + two_q) - wv)
}

/// One lane of Shoup multiplication with the doubling-multiply-high quotient: `v·w mod q` for a
/// reduced `v`.
fn shoup_mul_fast_lane(v: u32, w: u32, wq: u32, q: u32) -> (r: u32)
    requires
        v < q,
        2 <= q < 0x1000_0000,
        w < q,
        wq == qmulh_quotient(w as int, q as int),
    ensures
        r == (v * w) % (q as int),
{
    let x = qmulh_mul_lane(v, w, wq, q);
    let mask = 0u32.wrapping_sub((x >= q) as u32);
    proof {
        assert(q & 0xffff_ffffu32 == q) by (bit_vector);
        assert(q & 0u32 == 0) by (bit_vector);
        let qi = q as int;
        if x >= q {
            lemma_mod_sub_multiples_vanish(x as int, qi);
            lemma_small_mod((x - q) as nat, q as nat);
        } else {
            lemma_small_mod(x as nat, q as nat);
        }
    }
    x.wrapping_sub(q & mask)
}



/// One lane of Barrett reduction with `bc = floor(2^32 / q)`: the estimate leaves [0, 2q), and
/// one masked subtraction gives `v mod q`.
fn barrett_lane(v: u32, q: u32, bc: u32) -> (r: u32)
    requires
        2 <= q < 0x1000_0000,
        bc == shoup_quotient(1, q as int),
    ensures
        r == (v as int) % (q as int),
{
    proof {
        lemma_shoup_remainder(v as int, 1, bc as int, q as int);
        lemma_div_pos_is_pos(v * bc, two_32());
        assert(bc <= two_32()) by {
            lemma_div_is_ordered_by_denominator(two_32(), 1, q as int);
        }
        assert((v * bc) / two_32() <= v as int) by {
            lemma_mul_inequality(bc as int, two_32(), v as int);
            lemma_mul_is_commutative(bc as int, v as int);
            lemma_div_is_ordered(v * bc, v * two_32(), two_32());
            lemma_div_multiples_vanish(v as int, two_32());
            lemma_mul_is_commutative(v as int, two_32());
        }
        assert(v * bc < 0x1_0000_0000_0000_0000) by (nonlinear_arith)
            requires
                v < 0x1_0000_0000,
                bc <= 0x1_0000_0000,
        ;
    }
    let prod = (v as u64) * (bc as u64);
    let qh = (prod >> 32) as u32;
    proof {
        lemma_u64_shr_is_div(prod, 32);
        lemma2_to64();
        lemma_small_mod(v as nat, two_32() as nat);
        lemma_wrapping_difference(v as int, qh * q);
    }
    let r = v.wrapping_sub(qh.wrapping_mul(q));
    // single correction: if r >= q then r -= q
    let mask = 0u32.wrapping_sub((r >= q) as u32);
    proof {
        assert(q & 0xffff_ffffu32 == q) by (bit_vector);
        assert(q & 0u32 == 0) by (bit_vector);
        let qi = q as int;
        assert(r == v - qh * q);
        lemma_mul_is_distributive_add_other_way(qi, qh as int, 1);
        if r >= q {
            lemma_fundamental_div_mod_converse(v as int, qi, qh + 1, r - qi);
        } else {
            lemma_fundamental_div_mod_converse(v as int, qi, qh as int, r as int);
        }
    }
    r.wrapping_sub(q & mask)
}

/// Deferred-reduction Cooley-Tukey butterflies on one block `[k, k + 2t)`: entries below
/// `bound` come out below `bound + 2q`, congruent to the layer's outputs.
fn deferred_ct_block(
    data: &mut [u32],
    k: usize,
    t: usize,
    w: u32,
    wq: u32,
    q: u32,
    two_q: u32,
    Ghost(bound): Ghost<int>,
    Ghost(target): Ghost<Seq<int>>,
)
    requires
        k + 2 * t <= old(data)@.len() <= usize::MAX,
        2 <= q < 0x1000_0000,
        two_q == 2 * q,
        w < q,
        wq == qmulh_quotient(w as int, q as int),
        bound <= 0x8000_0000,
        forall|p: int| k <= p < k + 2 * t ==> #[trigger] old(data)@[p] < bound,
        forall|d: int|
            0 <= d < t ==> #[trigger] target[k + d] == (old(data)@[k + d] + w * old(data)@[k + d
                + t]) % (q as int),
        forall|d: int|
            0 <= d < t ==> #[trigger] target[k + t + d] == (old(data)@[k + d] - w * old(data)@[k
                + d + t]) % (q as int),
    ensures
        final(data)@.len() == old(data)@.len(),
        forall|p: int|
            k <= p < k + 2 * t ==> (#[trigger] final(data)@[p] as int % q as int) == target[p] % (
            q as int) && final(data)@[p] < bound + 2 * q,
        forall|p: int|
            0 <= p < old(data)@.len() && !(k <= p < k + 2 * t) ==> #[trigger] final(data)@[p]
                == old(data)@[p],
{
    for j in k..(k + t)
        invariant
            k + 2 * t <= old(data)@.len(),
            data@.len() == old(data)@.len(),
            2 <= q < 0x1000_0000,
            two_q == 2 * q,
            w < q,
            wq == qmulh_quotient(w as int, q as int),
            bound <= 0x8000_0000,
            forall|p: int| k <= p < k + 2 * t ==> #[trigger] old(data)@[p] < bound,
            forall|d: int|
                0 <= d < t ==> #[trigger] target[k + d] == (old(data)@[k + d] + w * old(data)@[k
                    + d + t]) % (q as int),
            forall|d: int|
                0 <= d < t ==> #[trigger] target[k + t + d] == (old(data)@[k + d] - w * old(
                    data,
                )@[k + d + t]) % (q as int),
            forall|p: int|
                (k <= p < j || k + t <= p < j + t) ==> (#[trigger] data@[p] as int % q as int)
                    == target[p] % (q as int) && data@[p] < bound + 2 * q,
            forall|p: int|
                0 <= p < old(data)@.len() && !(k <= p < j || k + t <= p < j + t) ==> #[trigger] data@[p]
                    == old(data)@[p],
    {
        let ghost d = j - k;
        proof {
            assert(data@[j as int] == old(data)@[j as int]);
            assert(data@[j + t] == old(data)@[j + t]);
        }
        let (u_new, v_new) = qmulh_butterfly_ct(data[j], data[j + t], w, wq, q, two_q);
        data[j] = u_new;
        data[j + t] = v_new;
        proof {
            let x = old(data)@[k + d] + w * old(data)@[k + d + t];
            let y = old(data)@[k + d] - w * old(data)@[k + d + t];
            assert(target[k + d] == x % (q as int));
            assert(target[k + t + d] == y % (q as int));
            lemma_mod_twice(x, q as int);
            lemma_mod_twice(y, q as int);
            assert(data@[j as int] == u_new && data@[j + t] == v_new);
        }
    }
}

/// One Cooley-Tukey layer with deferred reduction: entries below `bound` come out below
/// `bound + 2q`, congruent modulo q to the layer applied to the input.
fn deferred_layer(
    data: &mut [u32],
    ctx: &Ntt32Context,
    s: u32,
    m: usize,
    t: usize,
    Ghost(bound): Ghost<int>,
)
    requires
        ctx.wf(),
        old(data)@.len() == ctx.n,
        all_below32(old(data)@, bound),
        bound <= 0x8000_0000,
        s < ctx.log_n,
        m == pow2(s as nat),
        t == gap(ctx.log_n as nat, s as nat),
    ensures
        final(data)@.len() == ctx.n,
        all_below32(final(data)@, bound + 2 * ctx.q),
        congruent(
            ints32(final(data)@),
            ct_layer(ints32(old(data)@), ctx.tw(), ctx.q as int, ctx.log_n as nat, s as nat),
            ctx.q as int,
        ),
{
    let q = ctx.q;
    let two_q = ctx.two_q;
    let ghost lg = ctx.log_n as nat;
    let ghost a = ints32(data@);
    let ghost target = ct_layer(a, ctx.tw(), q as int, lg, s as nat);
    let ghost n = ctx.n as int;
    proof {
        lemma_pow2_pos(lg);
        lemma_layer_index(lg, s as nat, 0);
        lemma_mul_basics(2 * t as int);
    }
    let mut k: usize = 0;
    for i in 0..m
        invariant
            ctx.wf(),
            q == ctx.q,
            lg == ctx.log_n,
            n == ctx.n,
            s < lg,
            m == pow2(s as nat),
            t == gap(lg, s as nat),
            a == ints32(old(data)@),
            target == ct_layer(a, ctx.tw(), q as int, lg, s as nat),
            a.len() == n,
            data@.len() == n,
            all_below32(old(data)@, bound),
            bound <= 0x8000_0000,
            two_q == 2 * q,
            t >= 1,
            m * (2 * t) == n,
            k == i * (2 * t),
            forall|p: int|
                0 <= p < k ==> (#[trigger] data@[p] as int % q as int) == target[p] % (q as int)
                    && data@[p] < bound + 2 * q,
            forall|p: int| k <= p < n ==> #[trigger] data@[p] == old(data)@[p],
    {
        proof {
            lemma_block_position(lg, s as nat, i as int, k as int, 0, n);
        }
        let w = ctx.root_powers[m + i];
        let wq = ctx.root_powers_qmulh[m + i] as u32;
        proof {
            assert forall|d: int| 0 <= d < 2 * t implies #[trigger] twiddle_index(lg, s as nat, k + d)
                == m + i && (is_lower(lg, s as nat, k + d) <==> d < t) by {
                lemma_block_position(lg, s as nat, i as int, k as int, d, n);
            }
            assert forall|p: int| k <= p < k + 2 * t implies #[trigger] data@[p] < bound by {
                assert(data@[p] == old(data)@[p]);
            }
            assert(ctx.tw()[m + i] == w as int);
            assert forall|d: int| 0 <= d < t implies #[trigger] target[k + d] == (data@[k + d]
                + w * data@[k + d + t]) % (q as int) by {
                assert(twiddle_index(lg, s as nat, k + d) == m + i);
                assert(is_lower(lg, s as nat, k + d));
                assert(data@[k + d] == old(data)@[k + d]);
                assert(data@[k + d + t] == old(data)@[k + d + t]);
            }
            assert forall|d: int| 0 <= d < t implies #[trigger] target[k + t + d] == (data@[k
                + d] - w * data@[k + d + t]) % (q as int) by {
                assert(twiddle_index(lg, s as nat, k + (t + d)) == m + i);
                assert(!is_lower(lg, s as nat, k + (t + d)));
                assert(data@[k + d] == old(data)@[k + d]);
                assert(data@[k + d + t] == old(data)@[k + d + t]);
            }
        }
        deferred_ct_block(data, k, t, w, wq, q, two_q, Ghost(bound), Ghost(target));
        proof {
            lemma_mul_is_distributive_add_other_way(2 * t as int, i as int, 1);
        }
        k += 2 * t;
    }
    proof {
        lemma_mul_is_commutative(m as int, 2 * t as int);
        assert forall|p: int| 0 <= p < data@.len() implies #[trigger] data@[p] < bound + 2 * q
            && ints32(data@)[p] % (q as int) == target[p] % (q as int) by {
            assert((data@[p] as int % q as int) == target[p] % (q as int) && data@[p] < bound + 2 * q);
        }
    }
}

/// Barrett reduction of every entry to `[0, q)`.
fn barrett_pass(data: &mut [u32], q: u32, bc: u32)
    requires
        2 <= q < 0x1000_0000,
        bc == shoup_quotient(1, q as int),
    ensures
        final(data)@.len() == old(data)@.len(),
        forall|p: int|
            0 <= p < old(data)@.len() ==> #[trigger] final(data)@[p] as int == (old(data)@[p] as int)
                % (q as int),
{
    let len = data.len();
    for j in 0..len
        invariant
            len == data@.len(),
            len == old(data)@.len(),
            2 <= q < 0x1000_0000,
            bc == shoup_quotient(1, q as int),
            forall|p: int| 0 <= p < j ==> #[trigger] data@[p] as int == (old(data)@[p] as int) % (
            q as int),
            forall|p: int| j <= p < len ==> #[trigger] data@[p] == old(data)@[p],
    {
        let r = barrett_lane(data[j], q, bc);
        data[j] = r;
    }
}

/// Gentleman-Sande butterflies on one block `[k, k + 2t)` of reduced entries:
/// `(u + v, (u − v)·w)` modulo q, with the multiply-high Shoup product. When `scaled`, both
/// outputs are also multiplied by `ni` (the N⁻¹ pass fused into the layer): the sum by `ni`
/// and the difference by `wc = w·ni mod q`.
fn gs_lane_block(
    data: &mut [u32],
    k: usize,
    t: usize,
    w: u32,
    wq: u32,
    q: u32,
    scaled: bool,
    ni: u32,
    Ghost(target): Ghost<Seq<int>>,
)
    requires
        k + 2 * t <= old(data)@.len() <= usize::MAX,
        2 <= q < 0x1000_0000,
        w < q,
        wq == qmulh_quotient(w as int, q as int),
        ni < q,
        forall|p: int| k <= p < k + 2 * t ==> #[trigger] old(data)@[p] < q,
        forall|d: int|
            0 <= d < t ==> #[trigger] target[k + d] == (if scaled {
                (((old(data)@[k + d] + old(data)@[k + d + t]) % (q as int)) * ni) % (q as int)
            } else {
                (old(data)@[k + d] + old(data)@[k + d + t]) % (q as int)
            }),
        forall|d: int|
            0 <= d < t ==> #[trigger] target[k + t + d] == (if scaled {
                ((((old(data)@[k + d] - old(data)@[k + d + t]) * w) % (q as int)) * ni) % (q as int)
            } else {
                ((old(data)@[k + d] - old(data)@[k + d + t]) * w) % (q as int)
            }),
    ensures
        final(data)@.len() == old(data)@.len(),
        forall|p: int|
            k <= p < k + 2 * t ==> #[trigger] final(data)@[p] as int == target[p] && final(data)@[p]
                < q,
        forall|p: int|
            0 <= p < old(data)@.len() && !(k <= p < k + 2 * t) ==> #[trigger] final(data)@[p]
                == old(data)@[p],
{
    let niq = compute_qmulh(ni, q) as u32;
    proof {
        assert(w * ni < 0x1_0000_0000_0000_0000) by (nonlinear_arith)
            requires
                w < 0x1000_0000,
                ni < 0x1000_0000,
        ;
        lemma_mod_bound(w * ni, q as int);
    }
    // N⁻¹ folded into the twiddle of the difference
    let wc = ((w as u64 * ni as u64) % q as u64) as u32;
    let wcq = compute_qmulh(wc, q) as u32;
    for j in k..(k + t)
        invariant
            k + 2 * t <= old(data)@.len(),
            data@.len() == old(data)@.len(),
            2 <= q < 0x1000_0000,
            w < q,
            ni < q,
            wq == qmulh_quotient(w as int, q as int),
            niq == qmulh_quotient(ni as int, q as int),
            wc == (w * ni) % (q as int),
            wcq == qmulh_quotient(wc as int, q as int),
            forall|p: int| k <= p < k + 2 * t ==> #[trigger] old(data)@[p] < q,
            forall|d: int|
                0 <= d < t ==> #[trigger] target[k + d] == (if scaled {
                    (((old(data)@[k + d] + old(data)@[k + d + t]) % (q as int)) * ni) % (q as int)
                } else {
                    (old(data)@[k + d] + old(data)@[k + d + t]) % (q as int)
                }),
            forall|d: int|
                0 <= d < t ==> #[trigger] target[k + t + d] == (if scaled {
                    ((((old(data)@[k + d] - old(data)@[k + d + t]) * w) % (q as int)) * ni) % (
                    q as int)
                } else {
                    ((old(data)@[k + d] - old(data)@[k + d + t]) * w) % (q as int)
                }),
            forall|p: int|
                (k <= p < j || k + t <= p < j + t) ==> #[trigger] data@[p] as int == target[p]
                    && data@[p] < q,
            forall|p: int|
                0 <= p < old(data)@.len() && !(k <= p < j || k + t <= p < j + t) ==> #[trigger] data@[p]
                    == old(data)@[p],
    {
        let ghost d = j - k;
        let u = data[j];
        let v = data[j + t];
        proof {
            assert(data@[j as int] == old(data)@[j as int]);
            assert(data@[j + t] == old(data)@[j + t]);
        }
        let sum = mod_add_28(u, v, q);
        let dif = mod_sub_28(u, v, q);
        if scaled {
            data[j] = shoup_mul_fast_lane(sum, ni, niq, q);
            data[j + t] = shoup_mul_fast_lane(dif, wc, wcq, q);
            proof {
                let qi = q as int;
                // ((u − v) mod q)·(w·ni mod q) ≡ ((u − v)·w mod q)·ni
                lemma_cong_mod(u - v, qi);
                lemma_cong_mod(w * ni, qi);
                lemma_cong_mul(dif as int, u - v, wc as int, w * ni, qi);
                lemma_cong_mod((u - v) * w, qi);
                lemma_cong_mul(((u - v) * w) % qi, (u - v) * w, ni as int, ni as int, qi);
                assert((u - v) * (w * ni) == ((u - v) * w) * ni) by (nonlinear_arith);
                lemma_mod_bound(dif * wc, qi);
                lemma_mod_bound(sum * ni, qi);
                assert(target[k + d] == (sum * ni) % qi);
                assert(target[k + t + d] == (dif * wc) % qi);
            }
        } else {
            data[j] = sum;
            data[j + t] = shoup_mul_fast_lane(dif, w, wq, q);
            proof {
                let qi = q as int;
                lemma_mul_mod_noop_left(u - v, w as int, qi);
                lemma_mod_bound(dif * w, qi);
                assert(target[k + d] == sum);
                assert(target[k + t + d] == (dif * w) % qi);
            }
        }
    }
}

/// One Gentleman-Sande layer on reduced entries; with `scaled`, the N⁻¹ pass fused in.
fn gs_lane_layer(data: &mut [u32], ctx: &Ntt32Context, s: u32, m: usize, t: usize, scaled: bool)
    requires
        ctx.wf(),
        old(data)@.len() == ctx.n,
        all_below32(old(data)@, ctx.q as int),
        s < ctx.log_n,
        m == pow2(s as nat),
        t == gap(ctx.log_n as nat, s as nat),
    ensures
        final(data)@.len() == ctx.n,
        all_below32(final(data)@, ctx.q as int),
        ints32(final(data)@) == (if scaled {
            scale(
                gs_layer(ints32(old(data)@), ctx.tw_inv(), ctx.q as int, ctx.log_n as nat, s as nat),
                ctx.n_inv as int,
                ctx.q as int,
            )
        } else {
            gs_layer(ints32(old(data)@), ctx.tw_inv(), ctx.q as int, ctx.log_n as nat, s as nat)
        }),
{
    let q = ctx.q;
    let ni = ctx.n_inv;
    let ghost lg = ctx.log_n as nat;
    let ghost a = ints32(data@);
    let ghost g = gs_layer(a, ctx.tw_inv(), q as int, lg, s as nat);
    let ghost target = if scaled {
        scale(g, ni as int, q as int)
    } else {
        g
    };
    let ghost n = ctx.n as int;
    proof {
        lemma_pow2_pos(lg);
        lemma_layer_index(lg, s as nat, 0);
        lemma_mul_basics(2 * t as int);
    }
    let mut k: usize = 0;
    for i in 0..m
        invariant
            ctx.wf(),
            q == ctx.q,
            ni == ctx.n_inv,
            lg == ctx.log_n,
            n == ctx.n,
            s < lg,
            m == pow2(s as nat),
            t == gap(lg, s as nat),
            a == ints32(old(data)@),
            g == gs_layer(a, ctx.tw_inv(), q as int, lg, s as nat),
            target == (if scaled {
                scale(g, ni as int, q as int)
            } else {
                g
            }),
            a.len() == n,
            g.len() == n,
            data@.len() == n,
            all_below32(old(data)@, q as int),
            t >= 1,
            m * (2 * t) == n,
            k == i * (2 * t),
            forall|p: int| 0 <= p < k ==> #[trigger] data@[p] as int == target[p] && data@[p] < q,
            forall|p: int| k <= p < n ==> #[trigger] data@[p] == old(data)@[p],
    {
        proof {
            lemma_block_position(lg, s as nat, i as int, k as int, 0, n);
        }
        let w = ctx.inv_root_powers[m + i];
        let wq = ctx.inv_root_powers_qmulh[m + i] as u32;
        proof {
            assert forall|d: int| 0 <= d < 2 * t implies #[trigger] twiddle_index(lg, s as nat, k + d)
                == m + i && (is_lower(lg, s as nat, k + d) <==> d < t) by {
                lemma_block_position(lg, s as nat, i as int, k as int, d, n);
            }
            assert forall|p: int| k <= p < k + 2 * t implies #[trigger] data@[p] < q by {
                assert(data@[p] == old(data)@[p]);
            }
            assert(ctx.tw_inv()[m + i] == w as int);
            assert forall|d: int| 0 <= d < t implies #[trigger] target[k + d] == (if scaled {
                (((data@[k + d] + data@[k + d + t]) % (q as int)) * ni) % (q as int)
            } else {
                (data@[k + d] + data@[k + d + t]) % (q as int)
            }) by {
                assert(twiddle_index(lg, s as nat, k + d) == m + i);
                assert(is_lower(lg, s as nat, k + d));
                assert(data@[k + d] == old(data)@[k + d]);
                assert(data@[k + d + t] == old(data)@[k + d + t]);
            }
            assert forall|d: int| 0 <= d < t implies #[trigger] target[k + t + d] == (if scaled {
                ((((data@[k + d] - data@[k + d + t]) * w) % (q as int)) * ni) % (q as int)
            } else {
                ((data@[k + d] - data@[k + d + t]) * w) % (q as int)
            }) by {
                assert(twiddle_index(lg, s as nat, k + (t + d)) == m + i);
                assert(!is_lower(lg, s as nat, k + (t + d)));
                assert(data@[k + d] == old(data)@[k + d]);
                assert(data@[k + d + t] == old(data)@[k + d + t]);
            }
        }
        gs_lane_block(data, k, t, w, wq, q, scaled, ni, Ghost(target));
        proof {
            lemma_mul_is_distributive_add_other_way(2 * t as int, i as int, 1);
        }
        k += 2 * t;
    }
    proof {
        lemma_mul_is_commutative(m as int, 2 * t as int);
        assert(ints32(data@) =~= target);
        assert forall|p: int| 0 <= p < data@.len() implies #[trigger] data@[p] < q by {
            assert(data@[p] as int == target[p] && data@[p] < q);
        }
    }
}

/// Forward NTT (Cooley-Tukey DIT) with deferred reduction, output fully reduced to `[0, q)`.
///
/// Each butterfly computes `w·v` with the doubling-multiply-high estimate (in [0, 2q)) and stores
/// `u + w·v` and `u + 2q − w·v` unreduced, so entries grow by 2q per stage: after k stages they
/// are below (2k+1)q. The adaptive Barrett interval is the largest k with (2k+1)q ≤ 2^31, the
/// range in which the multiply-high lanes are exact; a Barrett pass with `floor(2^32/q)` runs
/// before any stage once that many stages have passed, and once at the end.
pub fn ntt_fwd_neon(data: &mut [u32], ctx: &Ntt32Context)
    requires
        ctx.wf(),
        old(data)@.len() == ctx.n,
        all_below32(old(data)@, ctx.q as int),
    ensures
        final(data)@.len() == ctx.n,
        all_below32(final(data)@, ctx.q as int),
        ints32(final(data)@) == forward_spec(
            ints32(old(data)@),
            ctx.tw(),
            ctx.q as int,
            ctx.log_n as nat,
        ),
{
    let n = ctx.n;
    // Small NTTs (N < 8): the scalar network
    if n < 8 {
        ntt_forward_scalar(data, ctx);
        return;
    }
    let q = ctx.q;
    let ghost lg = ctx.log_n as nat;
    let ghost a0 = ints32(data@);
    let ghost qi = q as int;
    proof {
        assert(1u64 << 32u64 == 0x1_0000_0000u64) by (bit_vector);
        assert(1u64 << 31u64 == 0x8000_0000u64) by (bit_vector);
        lemma_div_is_ordered_by_denominator(0x1_0000_0000int, 2, qi);
    }
    let bc = ((1u64 << 32) / q as u64) as u32;
    // Adaptive Barrett interval: the largest k with (2k+1)q ≤ 2^31
    let max_b = ((1u64 << 31) / q as u64) as u32;
    let k0 = max_b.saturating_sub(1) / 2;
    let barrett_interval = if k0 == 0 {
        1
    } else {
        k0
    };
    proof {
        lemma_fundamental_div_mod(0x8000_0000int, qi);
        lemma_mod_bound(0x8000_0000int, qi);
        assert(max_b * qi <= 0x8000_0000) by {
            lemma_mul_is_commutative(max_b as int, qi);
        }
        assert((2 * barrett_interval + 1) * qi <= 0x8000_0000) by (nonlinear_arith)
            requires
                barrett_interval == (if k0 == 0 { 1 } else { k0 }),
                k0 == (if max_b >= 1 { max_b - 1 } else { 0 }) / 2,
                max_b * qi <= 0x8000_0000,
                2 <= qi < 0x1000_0000,
        ;
        assert(bc == shoup_quotient(1, qi));
    }
    let mut t = n;
    let mut m: usize = 1;
    let mut since: u32 = 0;
    proof {
        lemma2_to64();
        assert(since == 0);
        assert((2 * since + 1) * qi == qi) by (nonlinear_arith)
            requires
                since == 0,
        ;
        assert forall|p: int| 0 <= p < data@.len() implies #[trigger] data@[p] < (2 * since + 1) * qi by {
            assert(old(data)@[p] < q);
        }
    }
    for s in 0..ctx.log_n
        invariant
            ctx.wf(),
            q == ctx.q,
            qi == q,
            lg == ctx.log_n,
            a0 == ints32(old(data)@),
            a0.len() == ctx.n,
            data@.len() == ctx.n,
            bc == shoup_quotient(1, qi),
            1 <= barrett_interval,
            (2 * barrett_interval + 1) * qi <= 0x8000_0000,
            since <= barrett_interval,
            s == 0 ==> since == 0,
            all_below32(data@, (2 * since + 1) * qi),
            t == pow2((lg - s) as nat),
            m == pow2(s as nat),
            s == 0 ==> ints32(data@) == a0,
            s > 0 ==> congruent(ints32(data@), ct_stages(a0, ctx.tw(), qi, lg, s as nat), qi),
    {
        // Barrett reduction once the interval has passed
        if since >= barrett_interval {
            let ghost before = ints32(data@);
            barrett_pass(data, q, bc);
            proof {
                assert forall|p: int| 0 <= p < data@.len() implies #[trigger] data@[p] < qi by {
                    assert(data@[p] as int == before[p] % qi);
                    lemma_mod_bound(before[p], qi);
                }
                assert forall|p: int| 0 <= p < data@.len() implies (#[trigger] ints32(data@)[p] % qi)
                    == before[p] % qi by {
                    assert(data@[p] as int == before[p] % qi);
                    lemma_mod_twice(before[p], qi);
                }
                if s > 0 {
                    let c = ct_stages(a0, ctx.tw(), qi, lg, s as nat);
                    assert forall|p: int| 0 <= p < data@.len() implies (#[trigger] ints32(data@)[p]
                        % qi) == c[p] % qi by {
                        assert(ints32(data@)[p] % qi == before[p] % qi);
                    }
                }
            }
            since = 0;
            proof {
                assert(all_below32(data@, (2 * since + 1) * qi));
            }
        }
        proof {
            lemma_next_layer_sizes(lg, s as nat, t, m);
            assert((2 * since + 1) * qi <= 0x8000_0000) by (nonlinear_arith)
                requires
                    since < barrett_interval,
                    (2 * barrett_interval + 1) * qi <= 0x8000_0000,
                    qi >= 0,
            ;
        }
        t >>= 1;
        let ghost before = ints32(data@);
        deferred_layer(data, ctx, s, m, t, Ghost((2 * since + 1) * qi));
        proof {
            lemma_stages_len(a0, ctx.tw(), qi, lg, s as nat);
            let c = ct_stages(a0, ctx.tw(), qi, lg, s as nat);
            if s > 0 {
                lemma_ct_layer_congruent(before, c, ctx.tw(), qi, lg, s as nat);
            } else {
                assert(before == a0);
                assert(c == a0);
            }
            assert(ct_layer(before, ctx.tw(), qi, lg, s as nat) == ct_stages(a0, ctx.tw(), qi, lg, (s + 1) as nat));
            assert((2 * since + 1) * qi + 2 * qi == (2 * (since + 1) + 1) * qi) by (nonlinear_arith);
        }
        m <<= 1;
        since += 1;
    }
    // Final Barrett pass to [0, q)
    let ghost lazy = ints32(data@);
    barrett_pass(data, q, bc);
    proof {
        let target = forward_spec(a0, ctx.tw(), qi, lg);
        lemma_stages_len(a0, ctx.tw(), qi, lg, lg);
        assert forall|i: int| 0 <= i < target.len() implies ints32(data@)[i] == target[i] by {
            lemma_ct_stages_reduced(a0, ctx.tw(), qi, lg, lg, i);
            lemma_small_mod(target[i] as nat, qi as nat);
            assert(lazy[i] % qi == target[i] % qi);
        }
        assert(ints32(data@) =~= target);
        assert forall|p: int| 0 <= p < data@.len() implies #[trigger] data@[p] < qi by {
            lemma_mod_bound(lazy[p], qi);
        }
    }
}

/// Inverse NTT (Gentleman-Sande DIF) with the final N⁻¹ normalization.
pub fn ntt_inv_neon(data: &mut [u32], ctx: &Ntt32Context)
    requires
        ctx.wf(),
        old(data)@.len() == ctx.n,
        all_below32(old(data)@, ctx.q as int),
    ensures
        final(data)@.len() == ctx.n,
        all_below32(final(data)@, ctx.q as int),
        ints32(final(data)@) == inverse_spec(
            ints32(old(data)@),
            ctx.tw_inv(),
            ctx.n_inv as int,
            ctx.q as int,
            ctx.log_n as nat,
        ),
{
    ntt_inv_neon_inner(data, ctx, true);
}

/// Inverse NTT without the N⁻¹ factor.
pub fn ntt_inv_neon_lazy(data: &mut [u32], ctx: &Ntt32Context)
    requires
        ctx.wf(),
        old(data)@.len() == ctx.n,
        all_below32(old(data)@, ctx.q as int),
    ensures
        final(data)@.len() == ctx.n,
        all_below32(final(data)@, ctx.q as int),
        ints32(final(data)@) == inverse_lazy_spec(
            ints32(old(data)@),
            ctx.tw_inv(),
            ctx.q as int,
            ctx.log_n as nat,
        ),
{
    ntt_inv_neon_inner(data, ctx, false);
}

/// The inverse network on reduced entries (modular add and subtract, multiply-high Shoup products),
/// with the N⁻¹ pass fused into the last layer where `normalize` asks for it.
fn ntt_inv_neon_inner(data: &mut [u32], ctx: &Ntt32Context, normalize: bool)
    requires
        ctx.wf(),
        old(data)@.len() == ctx.n,
        all_below32(old(data)@, ctx.q as int),
    ensures
        final(data)@.len() == ctx.n,
        all_below32(final(data)@, ctx.q as int),
        normalize ==> ints32(final(data)@) == inverse_spec(
            ints32(old(data)@),
            ctx.tw_inv(),
            ctx.n_inv as int,
            ctx.q as int,
            ctx.log_n as nat,
        ),
        !normalize ==> ints32(final(data)@) == inverse_lazy_spec(
            ints32(old(data)@),
            ctx.tw_inv(),
            ctx.q as int,
            ctx.log_n as nat,
        ),
{
    let n = ctx.n;
    // Small NTTs (N < 8): the scalar network
    if n < 8 {
        if normalize {
            ntt_inverse_scalar(data, ctx);
        } else {
            ntt_inverse_scalar_lazy(data, ctx);
        }
        return;
    }
    let ghost lg = ctx.log_n as nat;
    let ghost a0 = ints32(data@);
    let ghost qi = ctx.q as int;
    let mut t: usize = 1;
    let mut m = n;
    proof {
        lemma2_to64();
    }
    for step in 0..ctx.log_n
        invariant
            ctx.wf(),
            lg == ctx.log_n,
            qi == ctx.q,
            a0 == ints32(old(data)@),
            a0.len() == ctx.n,
            data@.len() == ctx.n,
            all_below32(data@, qi),
            t == pow2(step as nat),
            m == pow2((lg - step) as nat),
            ints32(data@) == (if normalize && step == lg {
                scale(gs_stages(a0, ctx.tw_inv(), qi, lg, lg), ctx.n_inv as int, qi)
            } else {
                gs_stages(a0, ctx.tw_inv(), qi, lg, step as nat)
            }),
    {
        let s = ctx.log_n - step - 1;
        proof {
            lemma_next_layer_sizes(lg, step as nat, m, t);
        }
        m >>= 1;
        // the last layer carries the N⁻¹ factor
        let is_last = normalize && step == ctx.log_n - 1;
        gs_lane_layer(data, ctx, s, m, t, is_last);
        t <<= 1;
    }
}

} // verus!
