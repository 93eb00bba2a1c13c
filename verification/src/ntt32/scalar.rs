//! Scalar NTT for primes below 2^28: Shoup multiplication and Harvey lazy butterflies.

use vstd::prelude::*;
use vstd::arithmetic::div_mod::*;
use vstd::arithmetic::mul::*;
use vstd::arithmetic::power2::*;
use crate::algebra::congruence::{lemma_cong_add, lemma_cong_mod, lemma_cong_mul, lemma_cong_sub};
use crate::algebra::transform::{
    ct_layer,
    ct_stages,
    forward_spec,
    gap,
    gs_layer,
    gs_stages,
    inverse_lazy_spec,
    inverse_spec,
    is_lower,
    lemma_layer_index,
    congruent,
    lemma_ct_layer_congruent,
    lemma_gs_layer_congruent,
    lemma_stages_len,
    lemma_gs_stages_len,
    lemma_ct_stages_reduced,
    scale,
    twiddle_index,
};
use crate::ntt32::arith::{mod_add_28, mod_sub_28};
use crate::ntt32::context::{all_below32, ints32, Ntt32Context};
pub use crate::ntt32::shoup::{compute_shoup, shoup_mul};
use crate::ntt32::shoup::shoup_quotient;

verus! {

/// Block arithmetic of a layer: position `k + d` with `k = i · 2t` and `0 <= d < 2t` is in
/// block i, at offset d.
pub(crate) proof fn lemma_block_position(lg: nat, s: nat, i: int, k: int, d: int, n: int)
    requires
        s < lg,
        n == pow2(lg),
        0 <= i < pow2(s),
        k == i * (2 * gap(lg, s)),
        0 <= d < 2 * gap(lg, s),
    ensures
        0 <= k + d < n,
        twiddle_index(lg, s, k + d) == pow2(s) + i,
        is_lower(lg, s, k + d) <==> d < gap(lg, s),
        k + 2 * gap(lg, s) <= n,
        pow2(s) + i < n,
{
    let b = 2 * gap(lg, s);
    lemma_pow2_pos(lg);
    lemma_layer_index(lg, s, 0);
    lemma_fundamental_div_mod_converse(k + d, b, i, d);
    lemma_mul_inequality(i + 1, pow2(s) as int, b);
    lemma_mul_is_distributive_add_other_way(b, i, 1);
    lemma_mul_is_commutative(i + 1, b);
    lemma_mul_is_commutative(i, b);
    lemma_mul_nonnegative(i, b);
    lemma_mul_is_commutative(pow2(s) as int, b);
    lemma_layer_index(lg, s, k + d);
}

/// Shift arithmetic between consecutive layers.
pub(crate) proof fn lemma_next_layer_sizes(lg: nat, s: nat, t: usize, m: usize)
    requires
        s < lg <= 27,
        t == pow2((lg - s) as nat),
        m == pow2(s),
    ensures
        t >> 1usize == gap(lg, s),
        (m << 1usize) == pow2(s + 1),
        pow2(s + 1) <= pow2(lg),
{
    lemma_pow2_unfold((lg - s) as nat);
    lemma_pow2_unfold(s + 1);
    assert(t >> 1usize == t / 2) by (bit_vector);
    if s + 1 < lg {
        lemma_pow2_strictly_increases(s + 1, lg);
    }
    lemma_pow2_strictly_increases(s, lg);
    assert(m < 0x800_0000usize) by {
        lemma2_to64();
        if lg < 27 {
            lemma_pow2_strictly_increases(lg, 27);
        }
    }
    assert(m << 1usize == m * 2) by (bit_vector)
        requires
            m < 0x800_0000usize,
    ;
}

/// Cooley-Tukey butterflies on one block `[k, k + 2t)`, exact reduction.
fn ct_block_shoup(
    data: &mut [u32],
    k: usize,
    t: usize,
    w: u32,
    ws: u32,
    q: u32,
    Ghost(target): Ghost<Seq<int>>,
)
    requires
        k + 2 * t <= old(data)@.len() <= usize::MAX,
        q < 0x1000_0000,
        w < q,
        ws == shoup_quotient(w as int, q as int),
        forall|p: int| k <= p < k + 2 * t ==> #[trigger] old(data)@[p] < q,
        forall|d: int|
            0 <= d < t ==> #[trigger] target[k + d] == (old(data)@[k + d] + w * old(data)@[k + d
                + t]) % (q as int),
        forall|d: int|
            0 <= d < t ==> #[trigger] target[k + t + d] == (old(data)@[k + d] - w * old(data)@[k
                + d + t]) % (q as int),
    ensures
        final(data)@.len() == old(data)@.len(),
        forall|p: int|
            k <= p < k + 2 * t ==> #[trigger] final(data)@[p] as int == target[p] && final(data)@[p]
                < q,
        forall|p: int|
            0 <= p < old(data)@.len() && !(k <= p < k + 2 * t) ==> #[trigger] final(data)@[p]
                == old(data)@[p],
{
    for j in k..(k + t)
        invariant
            k + 2 * t <= old(data)@.len(),
            data@.len() == old(data)@.len(),
            q < 0x1000_0000,
            w < q,
            ws == shoup_quotient(w as int, q as int),
            forall|p: int| k <= p < k + 2 * t ==> #[trigger] old(data)@[p] < q,
            forall|d: int|
                0 <= d < t ==> #[trigger] target[k + d] == (old(data)@[k + d] + w * old(data)@[k
                    + d + t]) % (q as int),
            forall|d: int|
                0 <= d < t ==> #[trigger] target[k + t + d] == (old(data)@[k + d] - w * old(
                    data,
                )@[k + d + t]) % (q as int),
            forall|p: int|
                (k <= p < j || k + t <= p < j + t) ==> #[trigger] data@[p] as int == target[p]
                    && data@[p] < q,
            forall|p: int|
                0 <= p < old(data)@.len() && !(k <= p < j || k + t <= p < j + t) ==> #[trigger] data@[p]
                    == old(data)@[p],
    {
        let ghost d = j - k;
        let u = data[j];
        let v = shoup_mul(data[j + t], w, ws, q);
        data[j] = mod_add_28(u, v, q);
        data[j + t] = mod_sub_28(u, v, q);
        proof {
            let x = old(data)@[k + d + t] as int;
            assert(target[k + d] == (u + w * x) % (q as int));
            assert(target[k + t + d] == (u - w * x) % (q as int));
            lemma_cong_mod(x * w, q as int);
            lemma_mul_is_commutative(x, w as int);
            lemma_cong_add(u as int, u as int, v as int, w * x, q as int);
            lemma_cong_sub(u as int, u as int, v as int, w * x, q as int);
        }
    }
}

/// Gentleman-Sande butterflies on one block `[k, k + 2t)`, exact reduction.
fn gs_block_shoup(
    data: &mut [u32],
    k: usize,
    t: usize,
    w: u32,
    ws: u32,
    q: u32,
    Ghost(target): Ghost<Seq<int>>,
)
    requires
        k + 2 * t <= old(data)@.len() <= usize::MAX,
        q < 0x1000_0000,
        w < q,
        ws == shoup_quotient(w as int, q as int),
        forall|p: int| k <= p < k + 2 * t ==> #[trigger] old(data)@[p] < q,
        forall|d: int|
            0 <= d < t ==> #[trigger] target[k + d] == (old(data)@[k + d] + old(data)@[k + d + t])
                % (q as int),
        forall|d: int|
            0 <= d < t ==> #[trigger] target[k + t + d] == ((old(data)@[k + d] - old(data)@[k + d
                + t]) * w) % (q as int),
    ensures
        final(data)@.len() == old(data)@.len(),
        forall|p: int|
            k <= p < k + 2 * t ==> #[trigger] final(data)@[p] as int == target[p] && final(data)@[p]
                < q,
        forall|p: int|
            0 <= p < old(data)@.len() && !(k <= p < k + 2 * t) ==> #[trigger] final(data)@[p]
                == old(data)@[p],
{
    for j in k..(k + t)
        invariant
            k + 2 * t <= old(data)@.len(),
            data@.len() == old(data)@.len(),
            q < 0x1000_0000,
            w < q,
            ws == shoup_quotient(w as int, q as int),
            forall|p: int| k <= p < k + 2 * t ==> #[trigger] old(data)@[p] < q,
            forall|d: int|
                0 <= d < t ==> #[trigger] target[k + d] == (old(data)@[k + d] + old(data)@[k + d
                    + t]) % (q as int),
            forall|d: int|
                0 <= d < t ==> #[trigger] target[k + t + d] == ((old(data)@[k + d] - old(data)@[k
                    + d + t]) * w) % (q as int),
            forall|p: int|
                (k <= p < j || k + t <= p < j + t) ==> #[trigger] data@[p] as int == target[p]
                    && data@[p] < q,
            forall|p: int|
                0 <= p < old(data)@.len() && !(k <= p < j || k + t <= p < j + t) ==> #[trigger] data@[p]
                    == old(data)@[p],
    {
        let ghost d = j - k;
        let u = data[j];
        let v = data[j + t];
        data[j] = mod_add_28(u, v, q);
        let diff = mod_sub_28(u, v, q);
        data[j + t] = shoup_mul(diff, w, ws, q);
        proof {
            assert(target[k + d] == (u + v) % (q as int));
            assert(target[k + t + d] == ((u - v) * w) % (q as int));
            lemma_mul_mod_noop_left(u - v, w as int, q as int);
        }
    }
}

/// One layer of the transform, block by block; `FORWARD` selects Cooley-Tukey with the forward
/// twiddles, otherwise Gentleman-Sande with the inverse twiddles.
fn layer_shoup(data: &mut [u32], ctx: &Ntt32Context, s: u32, m: usize, t: usize, forward: bool)
    requires
        ctx.wf(),
        old(data)@.len() == ctx.n,
        all_below32(old(data)@, ctx.q as int),
        s < ctx.log_n,
        m == pow2(s as nat),
        t == gap(ctx.log_n as nat, s as nat),
    ensures
        final(data)@.len() == ctx.n,
        all_below32(final(data)@, ctx.q as int),
        forward ==> ints32(final(data)@) == ct_layer(
            ints32(old(data)@),
            ctx.tw(),
            ctx.q as int,
            ctx.log_n as nat,
            s as nat,
        ),
        !forward ==> ints32(final(data)@) == gs_layer(
            ints32(old(data)@),
            ctx.tw_inv(),
            ctx.q as int,
            ctx.log_n as nat,
            s as nat,
        ),
{
    let q = ctx.q;
    let ghost lg = ctx.log_n as nat;
    let ghost a = ints32(data@);
    let ghost target = if forward {
        ct_layer(a, ctx.tw(), q as int, lg, s as nat)
    } else {
        gs_layer(a, ctx.tw_inv(), q as int, lg, s as nat)
    };
    let ghost n = ctx.n as int;
    proof {
        lemma_pow2_pos(lg);
        lemma_layer_index(lg, s as nat, 0);
        lemma_mul_basics(2 * t as int);
    }
    let mut k: usize = 0;
    for i in 0..m
        invariant
            ctx.wf(),
            q == ctx.q,
            lg == ctx.log_n,
            n == ctx.n,
            s < lg,
            m == pow2(s as nat),
            t == gap(lg, s as nat),
            a == ints32(old(data)@),
            target == (if forward {
                ct_layer(a, ctx.tw(), q as int, lg, s as nat)
            } else {
                gs_layer(a, ctx.tw_inv(), q as int, lg, s as nat)
            }),
            a.len() == n,
            data@.len() == n,
            all_below32(old(data)@, q as int),
            t >= 1,
            m * (2 * t) == n,
            k == i * (2 * t),
            forall|p: int| 0 <= p < k ==> #[trigger] data@[p] as int == target[p] && data@[p] < q,
            forall|p: int| k <= p < n ==> #[trigger] data@[p] == old(data)@[p],
    {
        proof {
            lemma_block_position(lg, s as nat, i as int, k as int, 0, n);
        }
        let w = if forward { ctx.root_powers[m + i] } else { ctx.inv_root_powers[m + i] };
        let ws = if forward { ctx.root_powers_shoup[m + i] } else { ctx.inv_root_powers_shoup[m + i] };
        proof {
            assert forall|d: int| 0 <= d < 2 * t implies #[trigger] twiddle_index(lg, s as nat, k + d)
                == m + i && (is_lower(lg, s as nat, k + d) <==> d < t) by {
                lemma_block_position(lg, s as nat, i as int, k as int, d, n);
            }
            assert forall|p: int| k <= p < k + 2 * t implies #[trigger] data@[p] < q by {
                assert(data@[p] == old(data)@[p]);
            }
            if forward {
                assert(ctx.tw()[m + i] == w as int);
                assert forall|d: int| 0 <= d < t implies #[trigger] target[k + d] == (data@[k + d]
                    + w * data@[k + d + t]) % (q as int) by {
                    assert(twiddle_index(lg, s as nat, k + d) == m + i);
                    assert(is_lower(lg, s as nat, k + d));
                    assert(data@[k + d] == old(data)@[k + d]);
                    assert(data@[k + d + t] == old(data)@[k + d + t]);
                }
                assert forall|d: int| 0 <= d < t implies #[trigger] target[k + t + d] == (data@[k
                    + d] - w * data@[k + d + t]) % (q as int) by {
                    assert(twiddle_index(lg, s as nat, k + (t + d)) == m + i);
                    assert(!is_lower(lg, s as nat, k + (t + d)));
                    assert(data@[k + d] == old(data)@[k + d]);
                    assert(data@[k + d + t] == old(data)@[k + d + t]);
                }
            } else {
                assert(ctx.tw_inv()[m + i] == w as int);
                assert forall|d: int| 0 <= d < t implies #[trigger] target[k + d] == (data@[k + d]
                    + data@[k + d + t]) % (q as int) by {
                    assert(twiddle_index(lg, s as nat, k + d) == m + i);
                    assert(is_lower(lg, s as nat, k + d));
                    assert(data@[k + d] == old(data)@[k + d]);
                    assert(data@[k + d + t] == old(data)@[k + d + t]);
                }
                assert forall|d: int| 0 <= d < t implies #[trigger] target[k + t + d] == ((data@[k
                    + d] - data@[k + d + t]) * w) % (q as int) by {
                    assert(twiddle_index(lg, s as nat, k + (t + d)) == m + i);
                    assert(!is_lower(lg, s as nat, k + (t + d)));
                    assert(data@[k + d] == old(data)@[k + d]);
                    assert(data@[k + d + t] == old(data)@[k + d + t]);
                }
            }
        }
        if forward {
            ct_block_shoup(data, k, t, w, ws, q, Ghost(target));
        } else {
            gs_block_shoup(data, k, t, w, ws, q, Ghost(target));
        }
        proof {
            lemma_mul_is_distributive_add_other_way(2 * t as int, i as int, 1);
        }
        k += 2 * t;
    }
    proof {
        lemma_mul_is_commutative(m as int, 2 * t as int);
        assert(ints32(data@) =~= target);
        assert forall|p: int| 0 <= p < data@.len() implies #[trigger] data@[p] < q by {
            assert(data@[p] as int == target[p] && data@[p] < q);
        }
    }
}


/// Harvey Cooley-Tukey butterfly: inputs below 2q, outputs below 2q,
/// `u' ≡ u + w v` and `v' ≡ u - w v (mod q)`.
fn harvey_butterfly_ct(u: u32, v: u32, w: u32, w_shoup: u32, q: u32, two_q: u32) -> (r: (u32, u32))
    requires
        u < two_q,
        v < two_q,
        two_q == 2 * q,
        w < q,
        w_shoup == shoup_quotient(w as int, q as int),
        q < 0x1000_0000,
    ensures
        r.0 < two_q,
        r.1 < two_q,
        r.0 as int % (q as int) == (u + w * v) % (q as int),
        r.1 as int % (q as int) == (u - w * v) % (q as int),
{
    proof {
        assert(q & 0xffff_ffffu32 == q) by (bit_vector);
        assert(q & 0u32 == 0) by (bit_vector);
        assert(two_q & 0xffff_ffffu32 == two_q) by (bit_vector);
        assert(two_q & 0u32 == 0) by (bit_vector);
    }
    // Reduce v from [0, 2q) to [0, q)
    let v_ge_q = 0u32.wrapping_sub((v >= q) as u32);
    let v_red = v.wrapping_sub(q & v_ge_q);
    let wv = shoup_mul(v_red, w, w_shoup, q);
    // u + wv in [0, 3q), back to [0, 2q)
    let u_new = u + wv;
    let u_ge_2q = 0u32.wrapping_sub((u_new >= two_q) as u32);
    let u_new = u_new.wrapping_sub(two_q & u_ge_2q);
    // u - wv + 2q in (0, 4q), back to [0, 2q)
    let v_new = u + two_q - wv;
    let v_ge_2q = 0u32.wrapping_sub((v_new >= two_q) as u32);
    let v_new = v_new.wrapping_sub(two_q & v_ge_2q);
    proof {
        let qi = q as int;
        assert(v_red as int % qi == v as int % qi) by {
            if v >= q {
                lemma_mod_sub_multiples_vanish(v as int, qi);
            }
        }
        lemma_cong_mul(v_red as int, v as int, w as int, w as int, qi);
        lemma_mul_is_commutative(v as int, w as int);
        lemma_cong_mod(v_red * w, qi);
        // u_new ≡ u + wv ≡ u + w v
        lemma_cong_add(u as int, u as int, wv as int, w * v, qi);
        lemma_cong_sub(u as int, u as int, wv as int, w * v, qi);
        if u + wv >= two_q {
            lemma_mod_sub_multiples_vanish(u + wv, qi);
            lemma_mod_sub_multiples_vanish(u + wv - qi, qi);
        }
        lemma_mod_add_multiples_vanish(u - wv, qi);
        lemma_mod_add_multiples_vanish(u - wv + qi, qi);
        if u + two_q - wv >= two_q {
            lemma_mod_sub_multiples_vanish(u + two_q - wv, qi);
            lemma_mod_sub_multiples_vanish(u + two_q - wv - qi, qi);
        }
    }
    (u_new, v_new)
}

/// Harvey Gentleman-Sande butterfly: inputs below 2q, outputs below 2q,
/// `u' ≡ u + v` and `v' ≡ (u - v) w (mod q)`.
fn harvey_butterfly_gs(u: u32, v: u32, w_inv: u32, w_inv_shoup: u32, q: u32, two_q: u32) -> (r: (
    u32,
    u32,
))
    requires
        u < two_q,
        v < two_q,
        two_q == 2 * q,
        w_inv < q,
        w_inv_shoup == shoup_quotient(w_inv as int, q as int),
        q < 0x1000_0000,
    ensures
        r.0 < two_q,
        r.1 < two_q,
        r.0 as int % (q as int) == (u + v) % (q as int),
        r.1 as int % (q as int) == ((u - v) * w_inv) % (q as int),
{
    proof {
        assert(q & 0xffff_ffffu32 == q) by (bit_vector);
        assert(q & 0u32 == 0) by (bit_vector);
        assert(two_q & 0xffff_ffffu32 == two_q) by (bit_vector);
        assert(two_q & 0u32 == 0) by (bit_vector);
    }
    // u + v in [0, 4q), back to [0, 2q)
    let u_new = u + v;
    let u_ge_2q = 0u32.wrapping_sub((u_new >= two_q) as u32);
    let u_new = u_new.wrapping_sub(two_q & u_ge_2q);
    // u - v + 2q in (0, 4q), back to [0, 2q)
    let diff = u + two_q - v;
    let d_ge_2q = 0u32.wrapping_sub((diff >= two_q) as u32);
    let diff = diff.wrapping_sub(two_q & d_ge_2q);
    // [0, 2q) to [0, q)
    let diff_ge_q = 0u32.wrapping_sub((diff >= q) as u32);
    let diff_red = diff.wrapping_sub(q & diff_ge_q);
    let v_new = shoup_mul(diff_red, w_inv, w_inv_shoup, q);
    proof {
        let qi = q as int;
        if u + v >= two_q {
            lemma_mod_sub_multiples_vanish(u + v, qi);
            lemma_mod_sub_multiples_vanish(u + v - qi, qi);
        }
        let d0 = u + two_q - v;
        lemma_mod_add_multiples_vanish(u - v, qi);
        lemma_mod_add_multiples_vanish(u - v + qi, qi);
        if d0 >= two_q {
            lemma_mod_sub_multiples_vanish(d0, qi);
            lemma_mod_sub_multiples_vanish(d0 - qi, qi);
        }
        assert(diff_red as int % qi == (u - v) % qi) by {
            if diff >= q {
                lemma_mod_sub_multiples_vanish(diff as int, qi);
            }
        }
        lemma_cong_mul(diff_red as int, u - v, w_inv as int, w_inv as int, qi);
        lemma_cong_mod(diff_red * w_inv, qi);
    }
    (u_new, v_new)
}

/// Harvey Cooley-Tukey butterflies on one block `[k, k + 2t)`; entries stay below 2q.
fn harvey_ct_block(
    data: &mut [u32],
    k: usize,
    t: usize,
    w: u32,
    ws: u32,
    q: u32,
    two_q: u32,
    Ghost(target): Ghost<Seq<int>>,
)
    requires
        k + 2 * t <= old(data)@.len() <= usize::MAX,
        q < 0x1000_0000,
        two_q == 2 * q,
        w < q,
        ws == shoup_quotient(w as int, q as int),
        forall|p: int| k <= p < k + 2 * t ==> #[trigger] old(data)@[p] < two_q,
        forall|d: int|
            0 <= d < t ==> #[trigger] target[k + d] == (old(data)@[k + d] + w * old(data)@[k + d
                + t]) % (q as int),
        forall|d: int|
            0 <= d < t ==> #[trigger] target[k + t + d] == (old(data)@[k + d] - w * old(data)@[k
                + d + t]) % (q as int),
    ensures
        final(data)@.len() == old(data)@.len(),
        forall|p: int|
            k <= p < k + 2 * t ==> (#[trigger] final(data)@[p] as int % q as int) == target[p] % (
            q as int) && final(data)@[p] < 2 * q,
        forall|p: int|
            0 <= p < old(data)@.len() && !(k <= p < k + 2 * t) ==> #[trigger] final(data)@[p]
                == old(data)@[p],
{
    for j in k..(k + t)
        invariant
            k + 2 * t <= old(data)@.len(),
            data@.len() == old(data)@.len(),
            q < 0x1000_0000,
            two_q == 2 * q,
            w < q,
            ws == shoup_quotient(w as int, q as int),
            forall|p: int| k <= p < k + 2 * t ==> #[trigger] old(data)@[p] < two_q,
            forall|d: int|
                0 <= d < t ==> #[trigger] target[k + d] == (old(data)@[k + d] + w * old(data)@[k
                    + d + t]) % (q as int),
            forall|d: int|
                0 <= d < t ==> #[trigger] target[k + t + d] == (old(data)@[k + d] - w * old(
                    data,
                )@[k + d + t]) % (q as int),
            forall|p: int|
                (k <= p < j || k + t <= p < j + t) ==> (#[trigger] data@[p] as int % q as int)
                    == target[p] % (q as int) && data@[p] < 2 * q,
            forall|p: int|
                0 <= p < old(data)@.len() && !(k <= p < j || k + t <= p < j + t) ==> #[trigger] data@[p]
                    == old(data)@[p],
    {
        let ghost d = j - k;
        let (u_new, v_new) = harvey_butterfly_ct(data[j], data[j + t], w, ws, q, two_q);
        data[j] = u_new;
        data[j + t] = v_new;
        proof {
            let x = old(data)@[k + d] + w * old(data)@[k + d + t];
            let y = old(data)@[k + d] - w * old(data)@[k + d + t];
            assert(target[k + d] == x % (q as int));
            assert(target[k + t + d] == y % (q as int));
            lemma_mod_twice(x, q as int);
            lemma_mod_twice(y, q as int);
        }
    }
}

/// Harvey Gentleman-Sande butterflies on one block `[k, k + 2t)`; entries stay below 2q.
fn harvey_gs_block(
    data: &mut [u32],
    k: usize,
    t: usize,
    w: u32,
    ws: u32,
    q: u32,
    two_q: u32,
    Ghost(target): Ghost<Seq<int>>,
)
    requires
        k + 2 * t <= old(data)@.len() <= usize::MAX,
        q < 0x1000_0000,
        two_q == 2 * q,
        w < q,
        ws == shoup_quotient(w as int, q as int),
        forall|p: int| k <= p < k + 2 * t ==> #[trigger] old(data)@[p] < two_q,
        forall|d: int|
            0 <= d < t ==> #[trigger] target[k + d] == (old(data)@[k + d] + old(data)@[k + d + t])
                % (q as int),
        forall|d: int|
            0 <= d < t ==> #[trigger] target[k + t + d] == ((old(data)@[k + d] - old(data)@[k + d
                + t]) * w) % (q as int),
    ensures
        final(data)@.len() == old(data)@.len(),
        forall|p: int|
            k <= p < k + 2 * t ==> (#[trigger] final(data)@[p] as int % q as int) == target[p] % (
            q as int) && final(data)@[p] < 2 * q,
        forall|p: int|
            0 <= p < old(data)@.len() && !(k <= p < k + 2 * t) ==> #[trigger] final(data)@[p]
                == old(data)@[p],
{
    for j in k..(k + t)
        invariant
            k + 2 * t <= old(data)@.len(),
            data@.len() == old(data)@.len(),
            q < 0x1000_0000,
            two_q == 2 * q,
            w < q,
            ws == shoup_quotient(w as int, q as int),
            forall|p: int| k <= p < k + 2 * t ==> #[trigger] old(data)@[p] < two_q,
            forall|d: int|
                0 <= d < t ==> #[trigger] target[k + d] == (old(data)@[k + d] + old(data)@[k + d
                    + t]) % (q as int),
            forall|d: int|
                0 <= d < t ==> #[trigger] target[k + t + d] == ((old(data)@[k + d] - old(data)@[k
                    + d + t]) * w) % (q as int),
            forall|p: int|
                (k <= p < j || k + t <= p < j + t) ==> (#[trigger] data@[p] as int % q as int)
                    == target[p] % (q as int) && data@[p] < 2 * q,
            forall|p: int|
                0 <= p < old(data)@.len() && !(k <= p < j || k + t <= p < j + t) ==> #[trigger] data@[p]
                    == old(data)@[p],
    {
        let ghost d = j - k;
        let ghost old_data = data@;
        let (u_new, v_new) = harvey_butterfly_gs(data[j], data[j + t], w, ws, q, two_q);
        data[j] = u_new;
        data[j + t] = v_new;
        proof {
            let x = old(data)@[k + d] + old(data)@[k + d + t];
            let y = (old(data)@[k + d] - old(data)@[k + d + t]) * w;
            assert(target[k + d] == x % (q as int));
            assert(target[k + t + d] == y % (q as int));
            lemma_mod_twice(x, q as int);
            lemma_mod_twice(y, q as int);
            assert(old(data)@[k + d] == old_data[j as int]);
            assert(old(data)@[k + d + t] == old_data[(j + t) as int]);
            assert(data@[(j + t) as int] as int % (q as int) == target[(j + t) as int] % (q as int));
            assert(data@[j as int] as int % (q as int) == target[j as int] % (q as int));
        }
    }
}

/// One layer with Harvey lazy butterflies: entries stay below 2q and agree with the layer
/// modulo q; `forward` selects Cooley-Tukey, otherwise Gentleman-Sande.
fn layer_harvey(data: &mut [u32], ctx: &Ntt32Context, s: u32, m: usize, t: usize, forward: bool)
    requires
        ctx.wf(),
        old(data)@.len() == ctx.n,
        all_below32(old(data)@, 2 * ctx.q as int),
        s < ctx.log_n,
        m == pow2(s as nat),
        t == gap(ctx.log_n as nat, s as nat),
    ensures
        final(data)@.len() == ctx.n,
        all_below32(final(data)@, 2 * ctx.q as int),
        forward ==> congruent(ints32(final(data)@), ct_layer(
            ints32(old(data)@),
            ctx.tw(),
            ctx.q as int,
            ctx.log_n as nat,
            s as nat,
        ), ctx.q as int),
        !forward ==> congruent(ints32(final(data)@), gs_layer(
            ints32(old(data)@),
            ctx.tw_inv(),
            ctx.q as int,
            ctx.log_n as nat,
            s as nat,
        ), ctx.q as int),
{
    let q = ctx.q;
    let two_q = ctx.two_q;
    let ghost lg = ctx.log_n as nat;
    let ghost a = ints32(data@);
    let ghost target = if forward {
        ct_layer(a, ctx.tw(), q as int, lg, s as nat)
    } else {
        gs_layer(a, ctx.tw_inv(), q as int, lg, s as nat)
    };
    let ghost n = ctx.n as int;
    proof {
        lemma_pow2_pos(lg);
        lemma_layer_index(lg, s as nat, 0);
        lemma_mul_basics(2 * t as int);
    }
    let mut k: usize = 0;
    for i in 0..m
        invariant
            ctx.wf(),
            q == ctx.q,
            lg == ctx.log_n,
            n == ctx.n,
            s < lg,
            m == pow2(s as nat),
            t == gap(lg, s as nat),
            a == ints32(old(data)@),
            target == (if forward {
                ct_layer(a, ctx.tw(), q as int, lg, s as nat)
            } else {
                gs_layer(a, ctx.tw_inv(), q as int, lg, s as nat)
            }),
            a.len() == n,
            data@.len() == n,
            all_below32(old(data)@, 2 * q as int),
            two_q == 2 * q,
            t >= 1,
            m * (2 * t) == n,
            k == i * (2 * t),
            forall|p: int|
                0 <= p < k ==> (#[trigger] data@[p] as int % q as int) == target[p] % (q as int)
                    && data@[p] < 2 * q,
            forall|p: int| k <= p < n ==> #[trigger] data@[p] == old(data)@[p],
    {
        proof {
            lemma_block_position(lg, s as nat, i as int, k as int, 0, n);
        }
        let w = if forward { ctx.root_powers[m + i] } else { ctx.inv_root_powers[m + i] };
        let ws = if forward { ctx.root_powers_shoup[m + i] } else { ctx.inv_root_powers_shoup[m + i] };
        proof {
            assert forall|d: int| 0 <= d < 2 * t implies #[trigger] twiddle_index(lg, s as nat, k + d)
                == m + i && (is_lower(lg, s as nat, k + d) <==> d < t) by {
                lemma_block_position(lg, s as nat, i as int, k as int, d, n);
            }
            assert forall|p: int| k <= p < k + 2 * t implies #[trigger] data@[p] < 2 * q by {
                assert(data@[p] == old(data)@[p]);
            }
            if forward {
                assert(ctx.tw()[m + i] == w as int);
                assert forall|d: int| 0 <= d < t implies #[trigger] target[k + d] == (data@[k + d]
                    + w * data@[k + d + t]) % (q as int) by {
                    assert(twiddle_index(lg, s as nat, k + d) == m + i);
                    assert(is_lower(lg, s as nat, k + d));
                    assert(data@[k + d] == old(data)@[k + d]);
                    assert(data@[k + d + t] == old(data)@[k + d + t]);
                }
                assert forall|d: int| 0 <= d < t implies #[trigger] target[k + t + d] == (data@[k
                    + d] - w * data@[k + d + t]) % (q as int) by {
                    assert(twiddle_index(lg, s as nat, k + (t + d)) == m + i);
                    assert(!is_lower(lg, s as nat, k + (t + d)));
                    assert(data@[k + d] == old(data)@[k + d]);
                    assert(data@[k + d + t] == old(data)@[k + d + t]);
                }
            } else {
                assert(ctx.tw_inv()[m + i] == w as int);
                assert forall|d: int| 0 <= d < t implies #[trigger] target[k + d] == (data@[k + d]
                    + data@[k + d + t]) % (q as int) by {
                    assert(twiddle_index(lg, s as nat, k + d) == m + i);
                    assert(is_lower(lg, s as nat, k + d));
                    assert(data@[k + d] == old(data)@[k + d]);
                    assert(data@[k + d + t] == old(data)@[k + d + t]);
                }
                assert forall|d: int| 0 <= d < t implies #[trigger] target[k + t + d] == ((data@[k
                    + d] - data@[k + d + t]) * w) % (q as int) by {
                    assert(twiddle_index(lg, s as nat, k + (t + d)) == m + i);
                    assert(!is_lower(lg, s as nat, k + (t + d)));
                    assert(data@[k + d] == old(data)@[k + d]);
                    assert(data@[k + d + t] == old(data)@[k + d + t]);
                }
            }
        }
        if forward {
            harvey_ct_block(data, k, t, w, ws, q, two_q, Ghost(target));
        } else {
            harvey_gs_block(data, k, t, w, ws, q, two_q, Ghost(target));
        }
        proof {
            lemma_mul_is_distributive_add_other_way(2 * t as int, i as int, 1);
        }
        k += 2 * t;
    }
    proof {
        lemma_mul_is_commutative(m as int, 2 * t as int);
        assert forall|p: int| 0 <= p < data@.len() implies #[trigger] data@[p] < 2 * q
            && ints32(data@)[p] % (q as int) == target[p] % (q as int) by {
            assert((data@[p] as int % q as int) == target[p] % (q as int) && data@[p] < 2 * q);
        }
    }
}

/// Scalar NTT forward in-place with Shoup (Cooley-Tukey DIT).
///
/// Uses `shoup_mul` instead of `mod_mul_28` to avoid hardware division.
/// All conditional reductions are branchless.
pub fn ntt_forward_scalar(data: &mut [u32], ctx: &Ntt32Context)
    requires
        ctx.wf(),
        old(data)@.len() == ctx.n,
        all_below32(old(data)@, ctx.q as int),
    ensures
        final(data)@.len() == ctx.n,
        all_below32(final(data)@, ctx.q as int),
        ints32(final(data)@) == forward_spec(
            ints32(old(data)@),
            ctx.tw(),
            ctx.q as int,
            ctx.log_n as nat,
        ),
{
    let n = ctx.n;
    let ghost lg = ctx.log_n as nat;
    let ghost a0 = ints32(data@);
    let mut t = n;
    let mut m: usize = 1;
    proof {
        lemma2_to64();
    }
    for s in 0..ctx.log_n
        invariant
            ctx.wf(),
            lg == ctx.log_n,
            a0 == ints32(old(data)@),
            data@.len() == ctx.n,
            all_below32(data@, ctx.q as int),
            t == pow2((lg - s) as nat),
            m == pow2(s as nat),
            ints32(data@) == ct_stages(a0, ctx.tw(), ctx.q as int, lg, s as nat),
    {
        proof {
            lemma_next_layer_sizes(lg, s as nat, t, m);
        }
        t >>= 1;
        layer_shoup(data, ctx, s, m, t, true);
        m <<= 1;
    }
}

/// One inverse pass: all Gentleman-Sande layers, finest first, without normalization.
fn inverse_layers_shoup(data: &mut [u32], ctx: &Ntt32Context)
    requires
        ctx.wf(),
        old(data)@.len() == ctx.n,
        all_below32(old(data)@, ctx.q as int),
    ensures
        final(data)@.len() == ctx.n,
        all_below32(final(data)@, ctx.q as int),
        ints32(final(data)@) == inverse_lazy_spec(
            ints32(old(data)@),
            ctx.tw_inv(),
            ctx.q as int,
            ctx.log_n as nat,
        ),
{
    let n = ctx.n;
    let ghost lg = ctx.log_n as nat;
    let ghost a0 = ints32(data@);
    let mut t: usize = 1;
    let mut m = n;
    proof {
        lemma2_to64();
    }
    for step in 0..ctx.log_n
        invariant
            ctx.wf(),
            lg == ctx.log_n,
            a0 == ints32(old(data)@),
            data@.len() == ctx.n,
            all_below32(data@, ctx.q as int),
            t == pow2(step as nat),
            m == pow2((lg - step) as nat),
            ints32(data@) == gs_stages(a0, ctx.tw_inv(), ctx.q as int, lg, step as nat),
    {
        let s = ctx.log_n - step - 1;
        proof {
            lemma_next_layer_sizes(lg, step as nat, m, t);
        }
        m >>= 1;
        layer_shoup(data, ctx, s, m, t, false);
        t <<= 1;
    }
}

} // verus!

verus! {

/// Scalar NTT inverse in-place with Shoup (Gentleman-Sande DIF).
///
/// Includes final normalization by N^{-1} mod q. All conditional reductions are branchless.
pub fn ntt_inverse_scalar(data: &mut [u32], ctx: &Ntt32Context)
    requires
        ctx.wf(),
        old(data)@.len() == ctx.n,
        all_below32(old(data)@, ctx.q as int),
    ensures
        final(data)@.len() == ctx.n,
        all_below32(final(data)@, ctx.q as int),
        ints32(final(data)@) == inverse_spec(
            ints32(old(data)@),
            ctx.tw_inv(),
            ctx.n_inv as int,
            ctx.q as int,
            ctx.log_n as nat,
        ),
{
    inverse_layers_shoup(data, ctx);
    let ghost lazy = ints32(data@);
    // Normalization by N^{-1} via Shoup
    let n_inv = ctx.n_inv;
    let n_inv_shoup = ctx.n_inv_shoup;
    let q = ctx.q;
    let len = data.len();
    for p in 0..len
        invariant
            ctx.wf(),
            q == ctx.q,
            n_inv == ctx.n_inv,
            n_inv_shoup == ctx.n_inv_shoup,
            len == data@.len(),
            len == ctx.n,
            lazy.len() == len,
            forall|i: int| 0 <= i < p ==> #[trigger] data@[i] as int == (lazy[i] * n_inv) % (
            q as int) && data@[i] < q,
            forall|i: int| p <= i < len ==> #[trigger] data@[i] as int == lazy[i] && data@[i] < q,
    {
        data[p] = shoup_mul(data[p], n_inv, n_inv_shoup, q);
    }
    proof {
        assert(ints32(data@) =~= scale(lazy, n_inv as int, q as int));
    }
}

/// NTT inverse (Gentleman-Sande DIF) WITHOUT N^{-1} normalization.
///
/// Identical to [`ntt_inverse_scalar`] but skips the final N^{-1} pass.
/// Output values are scaled by N relative to the true INTT.
pub fn ntt_inverse_scalar_lazy(data: &mut [u32], ctx: &Ntt32Context)
    requires
        ctx.wf(),
        old(data)@.len() == ctx.n,
        all_below32(old(data)@, ctx.q as int),
    ensures
        final(data)@.len() == ctx.n,
        all_below32(final(data)@, ctx.q as int),
        ints32(final(data)@) == inverse_lazy_spec(
            ints32(old(data)@),
            ctx.tw_inv(),
            ctx.q as int,
            ctx.log_n as nat,
        ),
{
    inverse_layers_shoup(data, ctx);
}

/// NTT forward with Shoup + Harvey lazy butterfly (scalar).
///
/// Intermediate values are kept in [0, 2q) instead of [0, q); a final reduction brings each
/// coefficient back to [0, q). Inputs may lie anywhere in [0, 2q).
pub fn forward_harvey(data: &mut [u32], ctx: &Ntt32Context)
    requires
        ctx.wf(),
        old(data)@.len() == ctx.n,
        all_below32(old(data)@, 2 * ctx.q as int),
    ensures
        final(data)@.len() == ctx.n,
        all_below32(final(data)@, ctx.q as int),
        ints32(final(data)@) == forward_spec(
            ints32(old(data)@),
            ctx.tw(),
            ctx.q as int,
            ctx.log_n as nat,
        ),
{
    let n = ctx.n;
    let q = ctx.q;
    let ghost lg = ctx.log_n as nat;
    let ghost a0 = ints32(data@);
    let mut t = n;
    let mut m: usize = 1;
    proof {
        lemma2_to64();
        assert forall|p: int| 0 <= p < a0.len() implies (#[trigger] a0[p] % (q as int)) == a0[p]
            % (q as int) by {}
    }
    for s in 0..ctx.log_n
        invariant
            ctx.wf(),
            q == ctx.q,
            lg == ctx.log_n,
            a0 == ints32(old(data)@),
            a0.len() == ctx.n,
            data@.len() == ctx.n,
            all_below32(data@, 2 * ctx.q as int),
            t == pow2((lg - s) as nat),
            m == pow2(s as nat),
            s == 0 ==> ints32(data@) == a0,
            s > 0 ==> congruent(ints32(data@), ct_stages(a0, ctx.tw(), q as int, lg, s as nat), q as int),
    {
        proof {
            lemma_next_layer_sizes(lg, s as nat, t, m);
        }
        t >>= 1;
        let ghost before = ints32(data@);
        layer_harvey(data, ctx, s, m, t, true);
        proof {
            lemma_stages_len(a0, ctx.tw(), q as int, lg, s as nat);
            if s > 0 {
                lemma_ct_layer_congruent(before, ct_stages(a0, ctx.tw(), q as int, lg, s as nat),
                    ctx.tw(), q as int, lg, s as nat);
            }
        }
        m <<= 1;
    }
    // Final reduction from [0, 2q) to [0, q)
    let ghost lazy = ints32(data@);
    let ghost target = forward_spec(a0, ctx.tw(), q as int, lg);
    proof {
        lemma_stages_len(a0, ctx.tw(), q as int, lg, lg);
        assert forall|i: int| 0 <= i < target.len() implies 0 <= #[trigger] target[i] < q by {
            lemma_ct_stages_reduced(a0, ctx.tw(), q as int, lg, lg, i);
        }
    }
    proof {
        assert(q & 0xffff_ffffu32 == q) by (bit_vector);
        assert(q & 0u32 == 0) by (bit_vector);
    }
    for p in 0..n
        invariant
            q == ctx.q,
            q > 0,
            n == ctx.n,
            n == data@.len(),
            lazy.len() == n,
            target.len() == n,
            congruent(lazy, target, q as int),
            forall|i: int| 0 <= i < n ==> 0 <= #[trigger] target[i] < q,
            forall|i: int| 0 <= i < p ==> #[trigger] data@[i] as int == target[i],
            forall|i: int| p <= i < n ==> #[trigger] data@[i] as int == lazy[i] && data@[i] < 2 * q,
            q & 0xffff_ffffu32 == q,
            q & 0u32 == 0,
    {
        let x = data[p];
        let mask = 0u32.wrapping_sub((x >= q) as u32);
        data[p] = x.wrapping_sub(q & mask);
        proof {
            if x >= q {
                lemma_mod_sub_multiples_vanish(x as int, q as int);
                lemma_small_mod((x - q) as nat, q as nat);
            } else {
                lemma_small_mod(x as nat, q as nat);
            }
            lemma_small_mod(target[p as int] as nat, q as nat);
        }
    }
    proof {
        assert(ints32(data@) =~= target);
    }
}

/// NTT inverse with Shoup + Harvey lazy butterfly (scalar).
///
/// Intermediate values are kept in [0, 2q); the final normalization by N^{-1} and reduction
/// are fused. Inputs may lie anywhere in [0, 2q).
pub fn inverse_harvey(data: &mut [u32], ctx: &Ntt32Context)
    requires
        ctx.wf(),
        old(data)@.len() == ctx.n,
        all_below32(old(data)@, 2 * ctx.q as int),
    ensures
        final(data)@.len() == ctx.n,
        all_below32(final(data)@, ctx.q as int),
        ints32(final(data)@) == inverse_spec(
            ints32(old(data)@),
            ctx.tw_inv(),
            ctx.n_inv as int,
            ctx.q as int,
            ctx.log_n as nat,
        ),
{
    let n = ctx.n;
    let q = ctx.q;
    let ghost lg = ctx.log_n as nat;
    let ghost a0 = ints32(data@);
    let mut t: usize = 1;
    let mut m = n;
    proof {
        lemma2_to64();
    }
    for step in 0..ctx.log_n
        invariant
            ctx.wf(),
            q == ctx.q,
            lg == ctx.log_n,
            a0 == ints32(old(data)@),
            a0.len() == ctx.n,
            data@.len() == ctx.n,
            all_below32(data@, 2 * ctx.q as int),
            t == pow2(step as nat),
            m == pow2((lg - step) as nat),
            step == 0 ==> ints32(data@) == a0,
            step > 0 ==> congruent(
                ints32(data@),
                gs_stages(a0, ctx.tw_inv(), q as int, lg, step as nat),
                q as int,
            ),
    {
        let s = ctx.log_n - step - 1;
        proof {
            lemma_next_layer_sizes(lg, step as nat, m, t);
        }
        m >>= 1;
        let ghost before = ints32(data@);
        layer_harvey(data, ctx, s, m, t, false);
        proof {
            lemma_gs_stages_len(a0, ctx.tw_inv(), q as int, lg, step as nat);
            if step > 0 {
                lemma_gs_layer_congruent(before, gs_stages(a0, ctx.tw_inv(), q as int, lg, step as nat),
                    ctx.tw_inv(), q as int, lg, s as nat);
            }
        }
        t <<= 1;
    }
    // Reduce from [0, 2q) to [0, q) and normalize by N^{-1}
    let ghost lazy = ints32(data@);
    let ghost unscaled = inverse_lazy_spec(a0, ctx.tw_inv(), q as int, lg);
    let n_inv = ctx.n_inv;
    let n_inv_shoup = ctx.n_inv_shoup;
    proof {
        lemma_gs_stages_len(a0, ctx.tw_inv(), q as int, lg, lg);
        assert(q & 0xffff_ffffu32 == q) by (bit_vector);
        assert(q & 0u32 == 0) by (bit_vector);
    }
    for p in 0..n
        invariant
            ctx.wf(),
            q == ctx.q,
            n_inv == ctx.n_inv,
            n_inv_shoup == ctx.n_inv_shoup,
            n == ctx.n,
            n == data@.len(),
            lazy.len() == n,
            unscaled.len() == n,
            congruent(lazy, unscaled, q as int),
            forall|i: int| 0 <= i < p ==> #[trigger] data@[i] as int == (unscaled[i] * n_inv) % (
            q as int) && data@[i] < q,
            forall|i: int| p <= i < n ==> #[trigger] data@[i] as int == lazy[i] && data@[i] < 2 * q,
            q & 0xffff_ffffu32 == q,
            q & 0u32 == 0,
    {
        let x = data[p];
        let mask = 0u32.wrapping_sub((x >= q) as u32);
        let x = x.wrapping_sub(q & mask);
        proof {
            if data@[p as int] >= q {
                lemma_mod_sub_multiples_vanish(data@[p as int] as int, q as int);
            }
            assert(x as int % (q as int) == unscaled[p as int] % (q as int));
        }
        data[p] = shoup_mul(x, n_inv, n_inv_shoup, q);
        proof {
            lemma_cong_mul(x as int, unscaled[p as int], n_inv as int, n_inv as int, q as int);
        }
    }
    proof {
        assert(ints32(data@) =~= scale(unscaled, n_inv as int, q as int));
    }
}

/// Pointwise multiplication of two vectors in the NTT domain: `result[i] = a[i] · b[i] mod q`.
///
/// Since `b` changes every call, Shoup precomputation is not beneficial here;
/// we use direct u64 modular reduction instead.
pub fn ntt_pointwise_mul_scalar(a: &[u32], b: &[u32], result: &mut [u32], q: u32, n: usize)
    requires
        a@.len() == n,
        b@.len() == n,
        old(result)@.len() == n,
        n == 0 || q > 0,
    ensures
        final(result)@.len() == n,
        forall|i: int| 0 <= i < n ==> #[trigger] final(result)@[i] as int == (a@[i] * b@[i]) % (
        q as int),
{
    for i in 0..n
        invariant
            a@.len() == n,
            b@.len() == n,
            result@.len() == n,
            n > 0 ==> q > 0,
            forall|j: int| 0 <= j < i ==> #[trigger] result@[j] as int == (a@[j] * b@[j]) % (
            q as int),
    {
        proof {
            lemma_mul_upper_bound(a@[i as int] as int, 0xffff_ffff, b@[i as int] as int, 0xffff_ffff);
            lemma_mod_bound(a@[i as int] * b@[i as int], q as int);
        }
        result[i] = ((a[i] as u64 * b[i] as u64) % q as u64) as u32;
    }
}

} // verus!
