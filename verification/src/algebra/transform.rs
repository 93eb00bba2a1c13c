//! The negacyclic NTT as a network of butterfly layers, and the law that the
//! Gentleman-Sande network undoes the Cooley-Tukey network.
//!
//! A transform of size n = 2^lg has lg layers. Layer s (0 <= s < lg) splits the vector into
//! 2^s blocks of width 2t, t = 2^(lg-s-1), and block i uses the twiddle `w[2^s + i]`
//! (Longa-Naehrig order). All values are integers, every output is reduced modulo q.

use vstd::prelude::*;
use vstd::arithmetic::div_mod::*;
use vstd::arithmetic::mul::*;
use vstd::arithmetic::power2::*;
use crate::algebra::congruence::{lemma_cong_add, lemma_cong_mod, lemma_cong_mul, lemma_cong_sub};

verus! {

/// Half width `t = 2^(lg-s-1)` of the blocks of layer s.
pub open spec fn gap(lg: nat, s: nat) -> int {
    pow2((lg - s - 1) as nat) as int
}

/// Index of the twiddle used at position p by layer s.
pub open spec fn twiddle_index(lg: nat, s: nat, p: int) -> int {
    pow2(s) + p / (2 * gap(lg, s))
}

/// Whether position p is in the lower half of its block in layer s.
pub open spec fn is_lower(lg: nat, s: nat, p: int) -> bool {
    p % (2 * gap(lg, s)) < gap(lg, s)
}

/// One Cooley-Tukey layer: `(u, v) -> (u + w v, u - w v)` on each pair `(p, p + t)`.
pub open spec fn ct_layer(a: Seq<int>, w: Seq<int>, q: int, lg: nat, s: nat) -> Seq<int> {
    Seq::new(
        a.len(),
        |p: int|
            {
                let t = gap(lg, s);
                let wi = w[twiddle_index(lg, s, p)];
                if is_lower(lg, s, p) {
                    (a[p] + wi * a[p + t]) % q
                } else {
                    (a[p - t] - wi * a[p]) % q
                }
            },
    )
}

/// One Gentleman-Sande layer: `(u, v) -> (u + v, (u - v) w)` on each pair `(p, p + t)`.
pub open spec fn gs_layer(a: Seq<int>, w: Seq<int>, q: int, lg: nat, s: nat) -> Seq<int> {
    Seq::new(
        a.len(),
        |p: int|
            {
                let t = gap(lg, s);
                let wi = w[twiddle_index(lg, s, p)];
                if is_lower(lg, s, p) {
                    (a[p] + a[p + t]) % q
                } else {
                    ((a[p - t] - a[p]) * wi) % q
                }
            },
    )
}

/// The first k Cooley-Tukey layers, coarsest first.
pub open spec fn ct_stages(a: Seq<int>, w: Seq<int>, q: int, lg: nat, k: nat) -> Seq<int>
    decreases k,
{
    if k == 0 {
        a
    } else {
        ct_layer(ct_stages(a, w, q, lg, (k - 1) as nat), w, q, lg, (k - 1) as nat)
    }
}

/// The first k Gentleman-Sande layers, finest first.
pub open spec fn gs_stages(a: Seq<int>, w: Seq<int>, q: int, lg: nat, k: nat) -> Seq<int>
    decreases k,
{
    if k == 0 {
        a
    } else {
        gs_layer(gs_stages(a, w, q, lg, (k - 1) as nat), w, q, lg, (lg - k) as nat)
    }
}

/// Every entry multiplied by c and reduced modulo q.
pub open spec fn scale(a: Seq<int>, c: int, q: int) -> Seq<int> {
    Seq::new(a.len(), |p: int| (a[p] * c) % q)
}

/// Every entry lies in [0, q).
pub open spec fn is_reduced(a: Seq<int>, q: int) -> bool {
    forall|p: int| 0 <= p < a.len() ==> 0 <= #[trigger] a[p] < q
}

/// The forward negacyclic NTT (output in bit-reversed order).
pub open spec fn forward_spec(a: Seq<int>, w: Seq<int>, q: int, lg: nat) -> Seq<int> {
    ct_stages(a, w, q, lg, lg)
}

/// The inverse network without the final multiplication by N^-1.
pub open spec fn inverse_lazy_spec(a: Seq<int>, winv: Seq<int>, q: int, lg: nat) -> Seq<int> {
    gs_stages(a, winv, q, lg, lg)
}

/// The inverse negacyclic NTT: the inverse network followed by multiplication by N^-1.
pub open spec fn inverse_spec(a: Seq<int>, winv: Seq<int>, n_inv: int, q: int, lg: nat) -> Seq<
    int,
> {
    scale(inverse_lazy_spec(a, winv, q, lg), n_inv, q)
}

/// Forward and inverse twiddles of the same index are inverse to each other modulo q.
pub open spec fn twiddles_inverse(w: Seq<int>, winv: Seq<int>, q: int, n: int) -> bool {
    forall|k: int| 1 <= k < n ==> (#[trigger] w[k] * winv[k]) % q == 1
}

/// Two vectors of the same length agree entrywise modulo q.
pub open spec fn congruent(x: Seq<int>, y: Seq<int>, q: int) -> bool {
    &&& x.len() == y.len()
    &&& forall|p: int| 0 <= p < x.len() ==> #[trigger] (x[p] % q) == y[p] % q
}

/// A Cooley-Tukey layer only depends on the residues of its input.
pub proof fn lemma_ct_layer_congruent(x: Seq<int>, y: Seq<int>, w: Seq<int>, q: int, lg: nat, s: nat)
    requires
        q > 0,
        s < lg,
        x.len() == pow2(lg),
        congruent(x, y, q),
    ensures
        ct_layer(x, w, q, lg, s) == ct_layer(y, w, q, lg, s),
{
    let l = ct_layer(x, w, q, lg, s);
    let r = ct_layer(y, w, q, lg, s);
    assert forall|p: int| 0 <= p < l.len() implies l[p] == r[p] by {
        lemma_layer_index(lg, s, p);
        let t = gap(lg, s);
        let wi = w[twiddle_index(lg, s, p)];
        let (i1, i2) = if is_lower(lg, s, p) { (p, p + t) } else { (p - t, p) };
        lemma_cong_mul(wi, wi, x[i2], y[i2], q);
        lemma_cong_add(x[i1], y[i1], wi * x[i2], wi * y[i2], q);
        lemma_cong_sub(x[i1], y[i1], wi * x[i2], wi * y[i2], q);
    }
    assert(l =~= r);
}

/// A Gentleman-Sande layer only depends on the residues of its input.
pub proof fn lemma_gs_layer_congruent(x: Seq<int>, y: Seq<int>, w: Seq<int>, q: int, lg: nat, s: nat)
    requires
        q > 0,
        s < lg,
        x.len() == pow2(lg),
        congruent(x, y, q),
    ensures
        gs_layer(x, w, q, lg, s) == gs_layer(y, w, q, lg, s),
{
    let l = gs_layer(x, w, q, lg, s);
    let r = gs_layer(y, w, q, lg, s);
    assert forall|p: int| 0 <= p < l.len() implies l[p] == r[p] by {
        lemma_layer_index(lg, s, p);
        let t = gap(lg, s);
        let wi = w[twiddle_index(lg, s, p)];
        let (i1, i2) = if is_lower(lg, s, p) { (p, p + t) } else { (p - t, p) };
        lemma_cong_add(x[i1], y[i1], x[i2], y[i2], q);
        lemma_cong_sub(x[i1], y[i1], x[i2], y[i2], q);
        lemma_cong_mul(x[i1] - x[i2], y[i1] - y[i2], wi, wi, q);
    }
    assert(l =~= r);
}

/// Index arithmetic of one layer: the partner of a lower position is t further and in the
/// same block, the partner of an upper position is t before and in the same block.
pub proof fn lemma_layer_index(lg: nat, s: nat, p: int)
    requires
        s < lg,
        0 <= p < pow2(lg),
    ensures
        gap(lg, s) >= 1,
        2 * gap(lg, s) == pow2((lg - s) as nat),
        pow2(s) * (2 * gap(lg, s)) == pow2(lg),
        0 <= p / (2 * gap(lg, s)) < pow2(s),
        pow2(s) <= twiddle_index(lg, s, p) < pow2(s + 1),
        pow2(s + 1) <= pow2(lg),
        is_lower(lg, s, p) ==> p + gap(lg, s) < pow2(lg) && twiddle_index(lg, s, p + gap(lg, s))
            == twiddle_index(lg, s, p) && !is_lower(lg, s, p + gap(lg, s)),
        !is_lower(lg, s, p) ==> p - gap(lg, s) >= 0 && twiddle_index(lg, s, p - gap(lg, s))
            == twiddle_index(lg, s, p) && is_lower(lg, s, p - gap(lg, s)),
{
    let t = gap(lg, s);
    let b = 2 * t;
    lemma_pow2_pos((lg - s - 1) as nat);
    lemma_pow2_unfold((lg - s) as nat);
    lemma_pow2_adds(s, (lg - s) as nat);
    lemma_pow2_unfold(s + 1);
    lemma_pow2_pos(s);
    if s + 1 < lg {
        lemma_pow2_strictly_increases(s + 1, lg);
    }
    let i = p / b;
    let r = p % b;
    lemma_fundamental_div_mod(p, b);
    lemma_mod_bound(p, b);
    lemma_div_pos_is_pos(p, b);
    assert(i < pow2(s)) by {
        if i >= pow2(s) {
            lemma_mul_inequality(pow2(s) as int, i, b);
            lemma_mul_is_commutative(i, b);
        }
    }
    if r < t {
        assert(p + t == b * i + (r + t));
        lemma_fundamental_div_mod_converse(p + t, b, i, r + t);
        assert(p + t < pow2(lg)) by {
            lemma_mul_inequality(i + 1, pow2(s) as int, b);
            lemma_mul_is_distributive_add_other_way(b, i, 1);
            lemma_mul_is_commutative(i + 1, b);
        }
    } else {
        assert(p - t == b * i + (r - t));
        lemma_fundamental_div_mod_converse(p - t, b, i, r - t);
    }
}

/// Reduction modulo q commutes with multiplication by a constant.
proof fn lemma_mul_mod_left(x: int, c: int, q: int)
    requires
        q > 0,
    ensures
        ((x % q) * c) % q == (x * c) % q,
{
    lemma_mul_mod_noop_left(x, c, q);
}

/// A Gentleman-Sande layer commutes with scaling.
pub proof fn lemma_gs_layer_scale(x: Seq<int>, w: Seq<int>, c: int, q: int, lg: nat, s: nat)
    requires
        q > 0,
        s < lg,
        x.len() == pow2(lg),
    ensures
        gs_layer(scale(x, c, q), w, q, lg, s) == scale(gs_layer(x, w, q, lg, s), c, q),
{
    let l = gs_layer(scale(x, c, q), w, q, lg, s);
    let r = scale(gs_layer(x, w, q, lg, s), c, q);
    assert forall|p: int| 0 <= p < l.len() implies l[p] == r[p] by {
        lemma_layer_index(lg, s, p);
        let t = gap(lg, s);
        let wi = w[twiddle_index(lg, s, p)];
        if is_lower(lg, s, p) {
            let u = x[p];
            let v = x[p + t];
            lemma_add_mod_noop(u * c, v * c, q);
            lemma_mul_mod_left(u + v, c, q);
            assert(u * c + v * c == (u + v) * c) by (nonlinear_arith);
        } else {
            let u = x[p - t];
            let v = x[p];
            // ((uc%q - vc%q) wi) % q == ((u-v) wi % q) c % q
            lemma_sub_mod_noop(u * c, v * c, q);
            lemma_mul_mod_left(u * c - v * c, wi, q);
            lemma_mul_mod_left((u * c) % q - (v * c) % q, wi, q);
            lemma_mul_mod_left((u - v) * wi, c, q);
            assert((u * c - v * c) * wi == ((u - v) * wi) * c) by (nonlinear_arith);
        }
    }
    assert(l =~= r);
}

/// Scaling twice multiplies the factors.
pub proof fn lemma_scale_scale(x: Seq<int>, a: int, b: int, q: int)
    requires
        q > 0,
    ensures
        scale(scale(x, a, q), b, q) == scale(x, a * b, q),
{
    let l = scale(scale(x, a, q), b, q);
    let r = scale(x, a * b, q);
    assert forall|p: int| 0 <= p < l.len() implies l[p] == r[p] by {
        lemma_mul_mod_left(x[p] * a, b, q);
        lemma_mul_is_associative(x[p], a, b);
    }
    assert(l =~= r);
}

/// Scaling a reduced vector by a factor congruent to one leaves it unchanged.
pub proof fn lemma_scale_one(x: Seq<int>, c: int, q: int)
    requires
        q > 0,
        c % q == 1,
        is_reduced(x, q),
    ensures
        scale(x, c, q) == x,
{
    let l = scale(x, c, q);
    assert forall|p: int| 0 <= p < l.len() implies l[p] == x[p] by {
        lemma_mul_mod_noop_right(x[p], c, q);
        lemma_mul_basics(x[p]);
        lemma_small_mod(x[p] as nat, q as nat);
    }
    assert(l =~= x);
}

/// A Gentleman-Sande layer with inverse twiddles undoes a Cooley-Tukey layer, up to a factor 2.
pub proof fn lemma_gs_undoes_ct(
    y: Seq<int>,
    w: Seq<int>,
    winv: Seq<int>,
    q: int,
    lg: nat,
    s: nat,
)
    requires
        q > 0,
        s < lg,
        y.len() == pow2(lg),
        twiddles_inverse(w, winv, q, pow2(lg) as int),
    ensures
        gs_layer(ct_layer(y, w, q, lg, s), winv, q, lg, s) == scale(y, 2, q),
{
    let c = ct_layer(y, w, q, lg, s);
    let l = gs_layer(c, winv, q, lg, s);
    let r = scale(y, 2, q);
    assert forall|p: int| 0 <= p < l.len() implies l[p] == r[p] by {
        lemma_layer_index(lg, s, p);
        let t = gap(lg, s);
        let k = twiddle_index(lg, s, p);
        let wi = w[k];
        let vi = winv[k];
        lemma_pow2_pos(s);
        if is_lower(lg, s, p) {
            let u = y[p];
            let v = y[p + t];
            assert(c[p] == (u + wi * v) % q);
            assert(c[p + t] == (u - wi * v) % q);
            lemma_add_mod_noop(u + wi * v, u - wi * v, q);
            assert((u + wi * v) + (u - wi * v) == u * 2);
        } else {
            let u = y[p - t];
            let v = y[p];
            assert(c[p - t] == (u + wi * v) % q);
            assert(c[p] == (u - wi * v) % q);
            assert((wi * vi) % q == 1);
            lemma_cong_mod(u + wi * v, q);
            lemma_cong_mod(u - wi * v, q);
            lemma_cong_sub(c[p - t], u + wi * v, c[p], u - wi * v, q);
            lemma_cong_mul(c[p - t] - c[p], (u + wi * v) - (u - wi * v), vi, vi, q);
            assert(((u + wi * v) - (u - wi * v)) * vi == (v * 2) * (wi * vi)) by (nonlinear_arith);
            lemma_small_mod(1, q as nat);
            lemma_cong_mul(v * 2, v * 2, wi * vi, 1, q);
            lemma_mul_basics(v * 2);
        }
    }
    assert(l =~= r);
}

/// After k inverse layers, the forward transform is peeled back to its first lg-k layers,
/// scaled by 2^k.
proof fn lemma_roundtrip_partial(
    a: Seq<int>,
    w: Seq<int>,
    winv: Seq<int>,
    q: int,
    lg: nat,
    k: nat,
)
    requires
        q > 0,
        k <= lg,
        a.len() == pow2(lg),
        twiddles_inverse(w, winv, q, pow2(lg) as int),
    ensures
        gs_stages(ct_stages(a, w, q, lg, lg), winv, q, lg, k) == scale(
            ct_stages(a, w, q, lg, (lg - k) as nat),
            pow2(k) as int,
            q,
        ) || k == 0,
        ct_stages(a, w, q, lg, k).len() == a.len(),
    decreases k,
{
    if k == 0 {
    } else {
        lemma_roundtrip_partial(a, w, winv, q, lg, (k - 1) as nat);
        let s = (lg - k) as nat;
        let z = ct_stages(a, w, q, lg, s);
        lemma_stages_len(a, w, q, lg, s);
        let top = ct_stages(a, w, q, lg, lg);
        let prev = gs_stages(top, winv, q, lg, (k - 1) as nat);
        lemma_pow2_unfold(k);
        if k == 1 {
            // one inverse layer directly on the full forward transform
            assert(lg - (k - 1) == lg);
            assert(top == ct_layer(z, w, q, lg, s));
            lemma_gs_undoes_ct(z, w, winv, q, lg, s);
            lemma_pow2(1);
            assert(pow2(1) == 2) by {
                lemma2_to64();
            }
        } else {
            assert(prev == scale(ct_layer(z, w, q, lg, s), pow2((k - 1) as nat) as int, q));
            lemma_gs_layer_scale(ct_layer(z, w, q, lg, s), winv, pow2((k - 1) as nat) as int, q, lg, s);
            lemma_gs_undoes_ct(z, w, winv, q, lg, s);
            lemma_scale_scale(z, 2, pow2((k - 1) as nat) as int, q);
        }
    }
}

/// Every layer keeps the length.
pub proof fn lemma_stages_len(a: Seq<int>, w: Seq<int>, q: int, lg: nat, k: nat)
    ensures
        ct_stages(a, w, q, lg, k).len() == a.len(),
    decreases k,
{
    if k > 0 {
        lemma_stages_len(a, w, q, lg, (k - 1) as nat);
    }
}

/// Every Gentleman-Sande stage keeps the length.
pub proof fn lemma_gs_stages_len(a: Seq<int>, w: Seq<int>, q: int, lg: nat, k: nat)
    ensures
        gs_stages(a, w, q, lg, k).len() == a.len(),
    decreases k,
{
    if k > 0 {
        lemma_gs_stages_len(a, w, q, lg, (k - 1) as nat);
    }
}

/// After at least one layer, every entry is reduced modulo q.
pub proof fn lemma_ct_stages_reduced(a: Seq<int>, w: Seq<int>, q: int, lg: nat, k: nat, p: int)
    requires
        q > 0,
        k >= 1,
        0 <= p < a.len(),
    ensures
        0 <= ct_stages(a, w, q, lg, k)[p] < q,
{
    lemma_stages_len(a, w, q, lg, (k - 1) as nat);
    let prev = ct_stages(a, w, q, lg, (k - 1) as nat);
    let t = gap(lg, (k - 1) as nat);
    let wi = w[twiddle_index(lg, (k - 1) as nat, p)];
    if is_lower(lg, (k - 1) as nat, p) {
        lemma_mod_bound(prev[p] + wi * prev[p + t], q);
    } else {
        lemma_mod_bound(prev[p - t] - wi * prev[p], q);
    }
}

/// Law: the inverse NTT undoes the forward NTT.
///
/// For a reduced vector `a` of length 2^lg, forward twiddles `w` and inverse twiddles `winv`
/// that are pairwise inverse modulo q, and `n_inv` with `2^lg · n_inv ≡ 1 (mod q)`,
/// `inverse(forward(a)) == a`.
pub proof fn lemma_inverse_undoes_forward(
    a: Seq<int>,
    w: Seq<int>,
    winv: Seq<int>,
    n_inv: int,
    q: int,
    lg: nat,
)
    requires
        q > 1,
        lg >= 1,
        a.len() == pow2(lg),
        is_reduced(a, q),
        twiddles_inverse(w, winv, q, pow2(lg) as int),
        (pow2(lg) * n_inv) % q == 1,
    ensures
        inverse_spec(forward_spec(a, w, q, lg), winv, n_inv, q, lg) == a,
{
    lemma_roundtrip_partial(a, w, winv, q, lg, lg);
    assert(ct_stages(a, w, q, lg, 0) == a);
    lemma_scale_scale(a, pow2(lg) as int, n_inv, q);
    lemma_scale_one(a, pow2(lg) * n_inv, q);
}

/// A Cooley-Tukey layer commutes with scaling.
proof fn lemma_ct_layer_scale(x: Seq<int>, w: Seq<int>, c: int, q: int, lg: nat, s: nat)
    requires
        q > 0,
        s < lg,
        x.len() == pow2(lg),
    ensures
        ct_layer(scale(x, c, q), w, q, lg, s) == scale(ct_layer(x, w, q, lg, s), c, q),
{
    let l = ct_layer(scale(x, c, q), w, q, lg, s);
    let r = scale(ct_layer(x, w, q, lg, s), c, q);
    assert forall|p: int| 0 <= p < l.len() implies l[p] == r[p] by {
        lemma_layer_index(lg, s, p);
        let t = gap(lg, s);
        let wi = w[twiddle_index(lg, s, p)];
        let (u, v) = if is_lower(lg, s, p) {
            (x[p], x[p + t])
        } else {
            (x[p - t], x[p])
        };
        lemma_cong_mod(u * c, q);
        lemma_cong_mod(v * c, q);
        lemma_cong_mul(wi, wi, (v * c) % q, v * c, q);
        lemma_mul_mod_left(u + wi * v, c, q);
        lemma_mul_mod_left(u - wi * v, c, q);
        if is_lower(lg, s, p) {
            lemma_cong_add((u * c) % q, u * c, wi * ((v * c) % q), wi * (v * c), q);
            assert(u * c + wi * (v * c) == (u + wi * v) * c) by (nonlinear_arith);
        } else {
            lemma_cong_sub((u * c) % q, u * c, wi * ((v * c) % q), wi * (v * c), q);
            assert(u * c - wi * (v * c) == (u - wi * v) * c) by (nonlinear_arith);
        }
    }
    assert(l =~= r);
}

/// A Cooley-Tukey layer with forward twiddles undoes a Gentleman-Sande layer, up to a factor 2.
proof fn lemma_ct_undoes_gs(
    y: Seq<int>,
    w: Seq<int>,
    winv: Seq<int>,
    q: int,
    lg: nat,
    s: nat,
)
    requires
        q > 0,
        s < lg,
        y.len() == pow2(lg),
        twiddles_inverse(w, winv, q, pow2(lg) as int),
    ensures
        ct_layer(gs_layer(y, winv, q, lg, s), w, q, lg, s) == scale(y, 2, q),
{
    let g = gs_layer(y, winv, q, lg, s);
    let l = ct_layer(g, w, q, lg, s);
    let r = scale(y, 2, q);
    assert forall|p: int| 0 <= p < l.len() implies l[p] == r[p] by {
        lemma_layer_index(lg, s, p);
        let t = gap(lg, s);
        let k = twiddle_index(lg, s, p);
        let wi = w[k];
        let vi = winv[k];
        lemma_pow2_pos(s);
        assert((wi * vi) % q == 1);
        let (u, v) = if is_lower(lg, s, p) {
            (y[p], y[p + t])
        } else {
            (y[p - t], y[p])
        };
        let lo = if is_lower(lg, s, p) { p } else { p - t };
        assert(g[lo] == (u + v) % q);
        assert(g[lo + t] == ((u - v) * vi) % q);
        // wi · g[lo + t] ≡ wi · vi · (u − v) ≡ u − v
        lemma_cong_mod((u - v) * vi, q);
        lemma_cong_mul(wi, wi, g[lo + t], (u - v) * vi, q);
        assert(wi * ((u - v) * vi) == (u - v) * (wi * vi)) by (nonlinear_arith);
        lemma_small_mod(1, q as nat);
        lemma_cong_mul(u - v, u - v, wi * vi, 1, q);
        lemma_mul_basics(u - v);
        lemma_cong_mod(u + v, q);
        if is_lower(lg, s, p) {
            lemma_cong_add(g[lo], u + v, wi * g[lo + t], u - v, q);
            assert((u + v) + (u - v) == u * 2);
        } else {
            lemma_cong_sub(g[lo], u + v, wi * g[lo + t], u - v, q);
            assert((u + v) - (u - v) == v * 2);
        }
    }
    assert(l =~= r);
}

/// After k forward layers on an inverse network's output, the inverse is peeled back to its
/// first lg − k layers, scaled by 2^k.
proof fn lemma_inverse_roundtrip_partial(
    x: Seq<int>,
    w: Seq<int>,
    winv: Seq<int>,
    q: int,
    lg: nat,
    k: nat,
)
    requires
        q > 0,
        1 <= k <= lg,
        x.len() == pow2(lg),
        twiddles_inverse(w, winv, q, pow2(lg) as int),
    ensures
        ct_stages(gs_stages(x, winv, q, lg, lg), w, q, lg, k) == scale(
            gs_stages(x, winv, q, lg, (lg - k) as nat),
            pow2(k) as int,
            q,
        ),
    decreases k,
{
    let s = (k - 1) as nat;
    let z = gs_stages(x, winv, q, lg, (lg - k) as nat);
    lemma_gs_stages_len(x, winv, q, lg, (lg - k) as nat);
    assert(gs_stages(x, winv, q, lg, (lg - s) as nat) == gs_layer(z, winv, q, lg, s));
    lemma_ct_undoes_gs(z, w, winv, q, lg, s);
    lemma_pow2_unfold(k);
    if k == 1 {
        assert(ct_stages(gs_stages(x, winv, q, lg, lg), w, q, lg, 0) == gs_stages(x, winv, q, lg, lg));
        assert(pow2(1) == 2) by {
            lemma2_to64();
        }
    } else {
        lemma_inverse_roundtrip_partial(x, w, winv, q, lg, s);
        lemma_gs_stages_len(x, winv, q, lg, (lg - s) as nat);
        lemma_ct_layer_scale(gs_layer(z, winv, q, lg, s), w, pow2(s) as int, q, lg, s);
        lemma_scale_scale(z, 2, pow2(s) as int, q);
    }
}

/// Law: the forward NTT undoes the inverse NTT.
///
/// For a reduced vector `x` of length 2^lg, with twiddles and `n_inv` as in
/// `lemma_inverse_undoes_forward`, `forward(inverse(x)) == x`.
pub proof fn lemma_forward_undoes_inverse(
    x: Seq<int>,
    w: Seq<int>,
    winv: Seq<int>,
    n_inv: int,
    q: int,
    lg: nat,
)
    requires
        q > 1,
        lg >= 1,
        x.len() == pow2(lg),
        is_reduced(x, q),
        twiddles_inverse(w, winv, q, pow2(lg) as int),
        (pow2(lg) * n_inv) % q == 1,
    ensures
        forward_spec(inverse_spec(x, winv, n_inv, q, lg), w, q, lg) == x,
{
    let lazy = gs_stages(x, winv, q, lg, lg);
    lemma_gs_stages_len(x, winv, q, lg, lg);
    lemma_ct_stages_scale(lazy, w, n_inv, q, lg, lg);
    lemma_inverse_roundtrip_partial(x, w, winv, q, lg, lg);
    assert(gs_stages(x, winv, q, lg, 0) == x);
    lemma_scale_scale(x, pow2(lg) as int, n_inv, q);
    lemma_scale_one(x, pow2(lg) * n_inv, q);
}

/// Forward layers commute with scaling.
proof fn lemma_ct_stages_scale(a: Seq<int>, w: Seq<int>, c: int, q: int, lg: nat, k: nat)
    requires
        q > 0,
        k <= lg,
        a.len() == pow2(lg),
    ensures
        k >= 1 ==> ct_stages(scale(a, c, q), w, q, lg, k) == scale(ct_stages(a, w, q, lg, k), c, q),
    decreases k,
{
    if k >= 1 {
        let s = (k - 1) as nat;
        lemma_stages_len(a, w, q, lg, s);
        lemma_ct_layer_scale(ct_stages(a, w, q, lg, s), w, c, q, lg, s);
        if k >= 2 {
            lemma_ct_stages_scale(a, w, c, q, lg, s);
        } else {
            assert(ct_stages(scale(a, c, q), w, q, lg, 0) == scale(a, c, q));
        }
    }
}

} // verus!
