//! The forward NTT evaluates its input polynomial at the roots of X^N + 1 named by the
//! twiddle table.
//!
//! Layer s of the Cooley-Tukey network holds, in block i, a polynomial that agrees with the
//! input at every z with z^(2^(lg-s)) ≡ c(s, i), where c(0, 0) = -1 and the children of a
//! block with twiddle w carry the constants w and -w.

use vstd::prelude::*;
use vstd::arithmetic::div_mod::*;
use vstd::arithmetic::mul::*;
use vstd::arithmetic::power::*;
use vstd::arithmetic::power2::*;
use crate::algebra::congruence::{lemma_cong_add, lemma_cong_mod, lemma_cong_mul};
use crate::algebra::transform::{
    ct_layer,
    ct_stages,
    forward_spec,
    gap,
    is_lower,
    lemma_ct_stages_reduced,
    lemma_layer_index,
    lemma_stages_len,
    twiddle_index,
};

verus! {

/// Value of the polynomial with coefficients `a` (lowest degree first) at `z`.
pub open spec fn poly_eval(a: Seq<int>, z: int) -> int
    decreases a.len(),
{
    if a.len() == 0 {
        0
    } else {
        a[0] + z * poly_eval(a.drop_first(), z)
    }
}

/// The constant c(s, i) of block i after s layers: the block is the input reduced modulo
/// X^(2^(lg-s)) - c(s, i).
pub open spec fn split_root(w: Seq<int>, s: nat, i: int) -> int {
    if s == 0 {
        -1
    } else if i % 2 == 0 {
        w[pow2((s - 1) as nat) + i / 2]
    } else {
        -w[pow2((s - 1) as nat) + i / 2]
    }
}

/// The point at which output j of the forward transform evaluates the input.
pub open spec fn ntt_point(w: Seq<int>, lg: nat, j: int) -> int {
    split_root(w, lg, j)
}

/// The twiddle of each block squares to the block's constant modulo q.
pub open spec fn tree_consistent(w: Seq<int>, q: int, lg: nat) -> bool {
    forall|s: nat, i: int|
        s < lg && 0 <= i < pow2(s) ==> (#[trigger] (w[pow2(s) + i] * w[pow2(s) + i]) % q)
            == split_root(w, s, i) % q
}

/// Block i of width b.
pub open spec fn block(x: Seq<int>, b: int, i: int) -> Seq<int> {
    x.subrange(i * b, (i + 1) * b)
}

/// After s layers, each block agrees with the input at the roots of its modulus.
pub open spec fn blocks_evaluate(x: Seq<int>, a: Seq<int>, w: Seq<int>, q: int, lg: nat, s: nat) -> bool {
    forall|i: int, z: int|
        0 <= i < pow2(s) && #[trigger] (pow(z, pow2((lg - s) as nat)) % q) == split_root(w, s, i)
            % q ==> #[trigger] (poly_eval(block(x, pow2((lg - s) as nat) as int, i), z) % q)
            == poly_eval(a, z) % q
}

/// Evaluation of a concatenation.
pub proof fn lemma_eval_concat(a: Seq<int>, b: Seq<int>, z: int)
    ensures
        poly_eval(a + b, z) == poly_eval(a, z) + pow(z, a.len()) * poly_eval(b, z),
    decreases a.len(),
{
    if a.len() == 0 {
        assert(a + b =~= b);
        lemma_pow0(z);
    } else {
        lemma_eval_concat(a.drop_first(), b, z);
        assert((a + b).drop_first() =~= a.drop_first() + b);
        lemma_pow_adds(z, 1, (a.len() - 1) as nat);
        lemma_pow1(z);
        let e = poly_eval(a.drop_first(), z);
        let f = poly_eval(b, z);
        let p = pow(z, (a.len() - 1) as nat);
        assert(z * (e + p * f) == z * e + (z * p) * f) by (nonlinear_arith);
    }
}

/// Evaluation is linear, up to congruence: if y ≡ u + c·v entrywise then
/// y(z) ≡ u(z) + c·v(z).
pub proof fn lemma_eval_combine(y: Seq<int>, u: Seq<int>, v: Seq<int>, c: int, z: int, q: int)
    requires
        q > 0,
        y.len() == u.len(),
        y.len() == v.len(),
        forall|k: int| 0 <= k < y.len() ==> (#[trigger] y[k] % q) == (u[k] + c * v[k]) % q,
    ensures
        poly_eval(y, z) % q == (poly_eval(u, z) + c * poly_eval(v, z)) % q,
    decreases y.len(),
{
    if y.len() == 0 {
    } else {
        let y1 = y.drop_first();
        let u1 = u.drop_first();
        let v1 = v.drop_first();
        assert forall|k: int| 0 <= k < y1.len() implies (#[trigger] y1[k] % q) == (u1[k] + c
            * v1[k]) % q by {
            assert(y1[k] == y[k + 1]);
        }
        lemma_eval_combine(y1, u1, v1, c, z, q);
        let ey = poly_eval(y1, z);
        let eu = poly_eval(u1, z);
        let ev = poly_eval(v1, z);
        assert(y[0] % q == (u[0] + c * v[0]) % q);
        lemma_cong_mul(z, z, ey, eu + c * ev, q);
        lemma_cong_add(y[0], u[0] + c * v[0], z * ey, z * (eu + c * ev), q);
        assert((u[0] + c * v[0]) + z * (eu + c * ev) == (u[0] + z * eu) + c * (v[0] + z * ev))
            by (nonlinear_arith);
    }
}

/// Evaluation of a one-entry polynomial.
proof fn lemma_eval_single(x: Seq<int>, z: int)
    requires
        x.len() == 1,
    ensures
        poly_eval(x, z) == x[0],
{
    assert(x.drop_first().len() == 0);
    assert(poly_eval(x.drop_first(), z) == 0);
    lemma_mul_basics(z);
}

/// Splitting a block of width 2t into its halves.
proof fn lemma_block_halves(x: Seq<int>, b: int, i: int)
    requires
        b >= 2,
        b % 2 == 0,
        0 <= i,
        (i + 1) * b <= x.len(),
    ensures
        block(x, b, i) =~= block(x, b / 2, 2 * i) + block(x, b / 2, 2 * i + 1),
        (2 * i) * (b / 2) == i * b,
        (2 * i + 1) * (b / 2) == i * b + b / 2,
        (2 * i + 2) * (b / 2) == (i + 1) * b,
        (i + 1) * b == i * b + b,
        0 <= i * b,
{
    let t = b / 2;
    assert(b == 2 * t);
    assert((2 * i) * t == i * b) by (nonlinear_arith)
        requires
            b == 2 * t,
    ;
    assert((2 * i + 1) * t == i * b + t) by (nonlinear_arith)
        requires
            b == 2 * t,
    ;
    assert((2 * i + 2) * t == (i + 1) * b) by (nonlinear_arith)
        requires
            b == 2 * t,
    ;
    assert(0 <= i * b) by {
        lemma_mul_nonnegative(i, b);
    }
    assert((i + 1) * b == i * b + b) by (nonlinear_arith);
    assert(x.subrange(i * b, (i + 1) * b) =~= x.subrange(i * b, i * b + t) + x.subrange(
        i * b + t,
        (i + 1) * b,
    ));
}

/// One Cooley-Tukey layer refines the block invariant by one level.
proof fn lemma_layer_evaluates(x: Seq<int>, a: Seq<int>, w: Seq<int>, q: int, lg: nat, s: nat)
    requires
        q > 0,
        s < lg,
        x.len() == pow2(lg),
        tree_consistent(w, q, lg),
        blocks_evaluate(x, a, w, q, lg, s),
    ensures
        blocks_evaluate(ct_layer(x, w, q, lg, s), a, w, q, lg, s + 1),
{
    let y = ct_layer(x, w, q, lg, s);
    let b = pow2((lg - s) as nat) as int;
    let t = gap(lg, s);
    lemma_pow2_pos(lg);
    lemma_layer_index(lg, s, 0);
    assert((lg - (s + 1)) as nat == (lg - s - 1) as nat);
    assert forall|j: int, z: int|
        0 <= j < pow2(s + 1) && #[trigger] (pow(z, pow2((lg - (s + 1)) as nat)) % q) == split_root(
            w,
            s + 1,
            j,
        ) % q implies #[trigger] (poly_eval(block(y, pow2((lg - (s + 1)) as nat) as int, j), z)
        % q) == poly_eval(a, z) % q by {
        let i = j / 2;
        lemma_pow2_unfold(s + 1);
        assert(0 <= i < pow2(s));
        let wi = w[pow2(s) + i];
        let c = split_root(w, s + 1, j);
        assert(c == (if j % 2 == 0 { wi } else { -wi }));
        assert((i + 1) * b <= x.len()) by {
            lemma_mul_inequality(i + 1, pow2(s) as int, b);
            lemma_mul_is_commutative(pow2(s) as int, b);
        }
        lemma_block_halves(x, b, i);
        assert(b / 2 == t);
        assert(j * t == (if j % 2 == 0 { i * b } else { i * b + t }));
        assert((j + 1) * t == (if j % 2 == 0 { i * b + t } else { (i + 1) * b })) by (nonlinear_arith)
            requires
                j == 2 * i || j == 2 * i + 1,
                (j == 2 * i) <==> j % 2 == 0,
                b == 2 * t,
        ;
        lemma_mul_nonnegative(i, b);
        assert(0 <= j * t);
        assert(y.len() == x.len());
        assert((j + 1) * t <= y.len());
        let lo = block(x, t, 2 * i);
        let hi = block(x, t, 2 * i + 1);
        let child = block(y, t, j);
        // entries of the child block
        assert forall|k: int| 0 <= k < t implies (#[trigger] child[k] % q) == (lo[k] + c * hi[k])
            % q by {
            let p = j * t + k;
            lemma_mul_nonnegative(i, b);
            assert(j == 2 * i || j == 2 * i + 1);
            let base = i * b;
            lemma_fundamental_div_mod_converse(base + k, b, i, k);
            lemma_fundamental_div_mod_converse(base + t + k, b, i, t + k);
            assert(child[k] == y[p]);
            assert(lo[k] == x[base + k]);
            assert(hi[k] == x[base + t + k]);
            if j % 2 == 0 {
                assert(p == base + k);
                assert(twiddle_index(lg, s, p) == pow2(s) + i);
                assert(is_lower(lg, s, p));
                assert(y[p] == (x[p] + wi * x[p + t]) % q);
            } else {
                assert(p == base + t + k);
                assert(twiddle_index(lg, s, p) == pow2(s) + i);
                assert(!is_lower(lg, s, p));
                assert(y[p] == (x[p - t] - wi * x[p]) % q);
                assert(x[p - t] - wi * x[p] == x[p - t] + (-wi) * x[p]) by (nonlinear_arith);
            }
            lemma_cong_mod(lo[k] + c * hi[k], q);
        }
        lemma_eval_combine(child, lo, hi, c, z, q);
        // z^t ≡ c, so c·hi(z) ≡ z^t·hi(z)
        lemma_cong_mul(c, pow(z, t as nat), poly_eval(hi, z), poly_eval(hi, z), q);
        lemma_cong_add(poly_eval(lo, z), poly_eval(lo, z), c * poly_eval(hi, z), pow(z, t as nat)
            * poly_eval(hi, z), q);
        lemma_eval_concat(lo, hi, z);
        // z^(2t) ≡ c^2 ≡ wi^2 ≡ c(s, i)
        lemma_pow_adds(z, t as nat, t as nat);
        assert(pow2((lg - s) as nat) == 2 * t);
        lemma_cong_mul(pow(z, t as nat), c, pow(z, t as nat), c, q);
        assert(c * c == wi * wi) by (nonlinear_arith)
            requires
                c == wi || c == -wi,
        ;
        assert((wi * wi) % q == split_root(w, s, i) % q);
        assert((pow(z, (lg - s) as nat) % q) == 0 || true);
        assert(pow(z, pow2((lg - s) as nat)) % q == split_root(w, s, i) % q);
        assert(poly_eval(block(x, b, i), z) % q == poly_eval(a, z) % q);
    }
}

/// After k layers the block invariant holds at level k.
proof fn lemma_stages_evaluate(a: Seq<int>, w: Seq<int>, q: int, lg: nat, k: nat)
    requires
        q > 0,
        k <= lg,
        a.len() == pow2(lg),
        tree_consistent(w, q, lg),
    ensures
        blocks_evaluate(ct_stages(a, w, q, lg, k), a, w, q, lg, k),
    decreases k,
{
    if k == 0 {
        assert forall|i: int, z: int|
            0 <= i < pow2(0) && #[trigger] (pow(z, pow2((lg - 0) as nat)) % q) == split_root(w, 0, i)
                % q implies #[trigger] (poly_eval(block(a, pow2((lg - 0) as nat) as int, i), z) % q)
            == poly_eval(a, z) % q by {
            lemma2_to64();
            assert(i == 0);
            assert(block(a, pow2(lg) as int, 0) =~= a);
        }
    } else {
        lemma_stages_evaluate(a, w, q, lg, (k - 1) as nat);
        lemma_stages_len(a, w, q, lg, (k - 1) as nat);
        lemma_layer_evaluates(ct_stages(a, w, q, lg, (k - 1) as nat), a, w, q, lg, (k - 1) as nat);
    }
}

/// Law: output j of the forward NTT is the input polynomial evaluated at `ntt_point(w, lg, j)`,
/// reduced modulo q.
pub proof fn lemma_forward_evaluates(a: Seq<int>, w: Seq<int>, q: int, lg: nat, j: int)
    requires
        q > 0,
        lg >= 1,
        a.len() == pow2(lg),
        tree_consistent(w, q, lg),
        0 <= j < pow2(lg),
    ensures
        forward_spec(a, w, q, lg)[j] == poly_eval(a, ntt_point(w, lg, j)) % q,
{
    let x = ct_stages(a, w, q, lg, lg);
    lemma_stages_evaluate(a, w, q, lg, lg);
    lemma_stages_len(a, w, q, lg, lg);
    let z = ntt_point(w, lg, j);
    lemma2_to64();
    assert(pow2((lg - lg) as nat) == 1);
    lemma_pow1(z);
    assert(pow(z, pow2((lg - lg) as nat)) % q == split_root(w, lg, j) % q);
    let blk = block(x, 1, j);
    assert(blk.len() == 1);
    assert(blk[0] == x[j]);
    lemma_eval_single(blk, z);
    lemma_ct_stages_reduced(a, w, q, lg, lg, j);
    lemma_small_mod(x[j] as nat, q as nat);
}

/// Law: every evaluation point is a root of X^N + 1 modulo q, i.e. `z^N ≡ -1`.
pub proof fn lemma_points_are_roots(w: Seq<int>, q: int, lg: nat, j: int)
    requires
        q > 0,
        tree_consistent(w, q, lg),
        0 <= j < pow2(lg),
    ensures
        pow(ntt_point(w, lg, j), pow2(lg)) % q == (-1) % q,
{
    lemma_points_descend(w, q, lg, 0, j);
    assert((lg - 0) as nat == lg);
}

/// Going up the tree: z^(2^(lg-s)) ≡ c(s, j / 2^(lg-s)) for the point z of output j.
proof fn lemma_points_descend(w: Seq<int>, q: int, lg: nat, s: nat, j: int)
    requires
        q > 0,
        s <= lg,
        tree_consistent(w, q, lg),
        0 <= j < pow2(lg),
    ensures
        pow(ntt_point(w, lg, j), pow2((lg - s) as nat)) % q == split_root(
            w,
            s,
            j / (pow2((lg - s) as nat) as int),
        ) % q,
    decreases lg - s,
{
    let z = ntt_point(w, lg, j);
    let e = pow2((lg - s) as nat) as int;
    lemma_pow2_pos((lg - s) as nat);
    if s == lg {
        lemma2_to64();
        lemma_pow1(z);
    } else {
        // level s + 1 holds; square it
        lemma_points_descend(w, q, lg, s + 1, j);
        let e1 = pow2((lg - s - 1) as nat) as int;
        lemma_pow2_unfold((lg - s) as nat);
        assert(e == 2 * e1);
        let i1 = j / e1;
        let i = j / e;
        lemma_div_denominator(j, e1, 2);
        assert(i1 / 2 == i);
        lemma_pow2_adds(s, (lg - s) as nat);
        assert(0 <= i < pow2(s)) by {
            lemma_div_pos_is_pos(j, e);
            lemma_pow2_pos(s);
            if i >= pow2(s) {
                lemma_fundamental_div_mod(j, e);
                lemma_mod_bound(j, e);
                lemma_mul_inequality(pow2(s) as int, i, e);
                lemma_mul_is_commutative(pow2(s) as int, e);
            }
        }
        let c1 = split_root(w, s + 1, i1);
        let wi = w[pow2(s) + i];
        assert(c1 == wi || c1 == -wi);
        lemma_pow_adds(z, e1 as nat, e1 as nat);
        lemma_cong_mul(pow(z, e1 as nat), c1, pow(z, e1 as nat), c1, q);
        assert(c1 * c1 == wi * wi) by (nonlinear_arith)
            requires
                c1 == wi || c1 == -wi,
        ;
        assert((wi * wi) % q == split_root(w, s, i) % q);
    }
}

} // verus!
