//! Negacyclic convolution: multiplication in Z\[X\]/(X^N + 1), and the law that the NTT turns it
//! into pointwise multiplication.

use vstd::prelude::*;
use vstd::arithmetic::div_mod::*;
use vstd::arithmetic::mul::*;
use vstd::arithmetic::power::*;
use vstd::arithmetic::power2::*;
use crate::algebra::congruence::{lemma_cong_add, lemma_cong_mod, lemma_cong_mul};
use crate::algebra::evaluation::{
    lemma_eval_combine,
    lemma_eval_concat,
    lemma_forward_evaluates,
    lemma_points_are_roots,
    ntt_point,
    poly_eval,
    tree_consistent,
};
use crate::algebra::transform::{
    forward_spec,
    inverse_spec,
    is_reduced,
    lemma_ct_stages_reduced,
    lemma_inverse_undoes_forward,
    lemma_stages_len,
    twiddles_inverse,
};

verus! {

/// `X^i · b` reduced modulo `X^N + 1`, for `0 <= i <= N`: coefficients move up by i and the
/// ones that wrap around change sign.
pub open spec fn nega_rotate(b: Seq<int>, i: int) -> Seq<int> {
    Seq::new(b.len(), |k: int| if k >= i { b[k - i] } else { -b[b.len() + k - i] })
}

/// Coefficient k of `Σ_{i<m} a_i · X^i · b` modulo `X^N + 1`.
pub open spec fn nega_partial(a: Seq<int>, b: Seq<int>, k: int, m: nat) -> int
    decreases m,
{
    if m == 0 {
        0
    } else {
        nega_partial(a, b, k, (m - 1) as nat) + a[m - 1] * nega_rotate(b, m - 1)[k]
    }
}

/// The product `a · b` in Z\[X\]/(X^N + 1): coefficient k is
/// `Σ_{i<=k} a_i b_{k-i} - Σ_{i>k} a_i b_{N+k-i}`.
pub open spec fn negacyclic_product(a: Seq<int>, b: Seq<int>) -> Seq<int> {
    Seq::new(b.len(), |k: int| nega_partial(a, b, k, a.len()))
}

/// The product `a · b` in Z_q\[X\]/(X^N + 1), coefficients in [0, q).
pub open spec fn negacyclic_mod(a: Seq<int>, b: Seq<int>, q: int) -> Seq<int> {
    Seq::new(b.len(), |k: int| nega_partial(a, b, k, a.len()) % q)
}

/// Entrywise product modulo q.
pub open spec fn pointwise_mod(a: Seq<int>, b: Seq<int>, q: int) -> Seq<int> {
    Seq::new(a.len(), |k: int| (a[k] * b[k]) % q)
}

/// The zero polynomial evaluates to zero.
proof fn lemma_eval_zeros(x: Seq<int>, z: int)
    requires
        forall|k: int| 0 <= k < x.len() ==> #[trigger] x[k] == 0,
    ensures
        poly_eval(x, z) == 0,
    decreases x.len(),
{
    if x.len() > 0 {
        let x1 = x.drop_first();
        assert forall|k: int| 0 <= k < x1.len() implies #[trigger] x1[k] == 0 by {
            assert(x1[k] == x[k + 1]);
        }
        lemma_eval_zeros(x1, z);
        lemma_mul_basics(z);
    }
}

/// Multiplying by X once more rotates by one place, negating the wrapped coefficient.
proof fn lemma_rotate_step(b: Seq<int>, i: int, z: int, q: int)
    requires
        q > 0,
        b.len() >= 1,
        0 <= i < b.len(),
        pow(z, b.len()) % q == (-1) % q,
    ensures
        poly_eval(nega_rotate(b, i + 1), z) % q == (z * poly_eval(nega_rotate(b, i), z)) % q,
{
    let n = b.len() as int;
    let c = nega_rotate(b, i);
    let head = c.take(n - 1);
    let last = seq![c[n - 1]];
    let first = seq![-c[n - 1]];
    assert(c =~= head + last);
    assert(nega_rotate(b, i + 1) =~= first + head);
    lemma_eval_concat(head, last, z);
    lemma_eval_concat(first, head, z);
    assert(poly_eval(last, z) == c[n - 1]) by {
        assert(last.drop_first().len() == 0);
        assert(poly_eval(last.drop_first(), z) == 0);
        lemma_mul_basics(z);
    }
    assert(poly_eval(first, z) == -c[n - 1]) by {
        assert(first.drop_first().len() == 0);
        assert(poly_eval(first.drop_first(), z) == 0);
        lemma_mul_basics(z);
    }
    lemma_pow1(z);
    lemma_pow_adds(z, 1, (n - 1) as nat);
    let eh = poly_eval(head, z);
    let zn = pow(z, n as nat);
    // z · c(z) = z·head(z) + z^n · c[n-1] ≡ z·head(z) - c[n-1]
    assert(z * (eh + pow(z, (n - 1) as nat) * c[n - 1]) == z * eh + zn * c[n - 1]) by (nonlinear_arith)
        requires
            zn == z * pow(z, (n - 1) as nat),
    ;
    lemma_cong_mul(zn, -1, c[n - 1], c[n - 1], q);
    lemma_cong_add(z * eh, z * eh, zn * c[n - 1], -1 * c[n - 1], q);
    assert(-c[n - 1] + z * eh == z * eh + -1 * c[n - 1]);
}

/// `X^i · b` evaluates to `z^i · b(z)` at a root of X^N + 1.
proof fn lemma_rotate_eval(b: Seq<int>, i: int, z: int, q: int)
    requires
        q > 0,
        b.len() >= 1,
        0 <= i <= b.len(),
        pow(z, b.len()) % q == (-1) % q,
    ensures
        poly_eval(nega_rotate(b, i), z) % q == (pow(z, i as nat) * poly_eval(b, z)) % q,
    decreases i,
{
    if i == 0 {
        assert(nega_rotate(b, 0) =~= b);
        lemma_pow0(z);
        lemma_mul_basics(poly_eval(b, z));
    } else {
        lemma_rotate_eval(b, i - 1, z, q);
        lemma_rotate_step(b, i - 1, z, q);
        let e = poly_eval(nega_rotate(b, i - 1), z);
        lemma_cong_mul(z, z, e, pow(z, (i - 1) as nat) * poly_eval(b, z), q);
        lemma_pow_adds(z, 1, (i - 1) as nat);
        lemma_pow1(z);
        lemma_mul_is_associative(z, pow(z, (i - 1) as nat), poly_eval(b, z));
    }
}

/// The partial sums `Σ_{i<m} a_i X^i b` evaluate to `a_{<m}(z) · b(z)`.
proof fn lemma_partial_eval(a: Seq<int>, b: Seq<int>, m: nat, z: int, q: int)
    requires
        q > 0,
        b.len() >= 1,
        a.len() == b.len(),
        m <= a.len(),
        pow(z, b.len()) % q == (-1) % q,
    ensures
        poly_eval(Seq::new(b.len(), |k: int| nega_partial(a, b, k, m)), z) % q == (poly_eval(
            a.take(m as int),
            z,
        ) * poly_eval(b, z)) % q,
    decreases m,
{
    let s = Seq::new(b.len(), |k: int| nega_partial(a, b, k, m));
    if m == 0 {
        lemma_eval_zeros(s, z);
        assert(a.take(0).len() == 0);
        lemma_mul_basics(poly_eval(b, z));
    } else {
        let m1 = (m - 1) as nat;
        lemma_partial_eval(a, b, m1, z, q);
        let prev = Seq::new(b.len(), |k: int| nega_partial(a, b, k, m1));
        let rot = nega_rotate(b, m1 as int);
        let am = a[m1 as int];
        assert forall|k: int| 0 <= k < s.len() implies (#[trigger] s[k] % q) == (prev[k] + am
            * rot[k]) % q by {}
        lemma_eval_combine(s, prev, rot, am, z, q);
        lemma_rotate_eval(b, m1 as int, z, q);
        let eb = poly_eval(b, z);
        let ea = poly_eval(a.take(m1 as int), z);
        let zm = pow(z, m1);
        // s(z) ≡ ea·eb + am·zm·eb
        lemma_cong_mul(am, am, poly_eval(rot, z), zm * eb, q);
        lemma_cong_add(poly_eval(prev, z), ea * eb, am * poly_eval(rot, z), am * (zm * eb), q);
        // a_{<m}(z) = ea + zm·am
        assert(a.take(m as int) =~= a.take(m1 as int) + seq![am]);
        lemma_eval_concat(a.take(m1 as int), seq![am], z);
        assert(poly_eval(seq![am], z) == am) by {
            assert(seq![am].drop_first().len() == 0);
            assert(poly_eval(seq![am].drop_first(), z) == 0);
            lemma_mul_basics(z);
        }
        assert(ea * eb + am * (zm * eb) == (ea + zm * am) * eb) by (nonlinear_arith);
        lemma_cong_mod(poly_eval(s, z), q);
    }
}

/// Law: at a root z of X^N + 1, the negacyclic product evaluates to the product of the
/// evaluations.
pub proof fn lemma_negacyclic_eval(a: Seq<int>, b: Seq<int>, z: int, q: int)
    requires
        q > 0,
        b.len() >= 1,
        a.len() == b.len(),
        pow(z, b.len()) % q == (-1) % q,
    ensures
        poly_eval(negacyclic_product(a, b), z) % q == (poly_eval(a, z) * poly_eval(b, z)) % q,
{
    lemma_partial_eval(a, b, a.len(), z, q);
    assert(a.take(a.len() as int) =~= a);
    assert(negacyclic_product(a, b) =~= Seq::new(b.len(), |k: int| nega_partial(a, b, k, a.len())));
}

/// Congruent coefficient vectors evaluate to congruent values.
proof fn lemma_eval_congruent(x: Seq<int>, y: Seq<int>, z: int, q: int)
    requires
        q > 0,
        x.len() == y.len(),
        forall|k: int| 0 <= k < x.len() ==> (#[trigger] x[k] % q) == y[k] % q,
    ensures
        poly_eval(x, z) % q == poly_eval(y, z) % q,
{
    assert forall|k: int| 0 <= k < x.len() implies (#[trigger] x[k] % q) == (y[k] + 0 * y[k])
        % q by {}
    lemma_eval_combine(x, y, y, 0, z, q);
    lemma_mul_basics(poly_eval(y, z));
}

/// Law (convolution theorem): the forward NTT of the negacyclic product is the entrywise
/// product of the forward NTTs.
pub proof fn lemma_forward_of_product(a: Seq<int>, b: Seq<int>, w: Seq<int>, q: int, lg: nat)
    requires
        q > 0,
        lg >= 1,
        a.len() == pow2(lg),
        b.len() == pow2(lg),
        tree_consistent(w, q, lg),
    ensures
        forward_spec(negacyclic_mod(a, b, q), w, q, lg) == pointwise_mod(
            forward_spec(a, w, q, lg),
            forward_spec(b, w, q, lg),
            q,
        ),
{
    let c = negacyclic_mod(a, b, q);
    let fc = forward_spec(c, w, q, lg);
    let fa = forward_spec(a, w, q, lg);
    let fb = forward_spec(b, w, q, lg);
    let r = pointwise_mod(fa, fb, q);
    lemma_stages_len(c, w, q, lg, lg);
    lemma_stages_len(a, w, q, lg, lg);
    lemma_stages_len(b, w, q, lg, lg);
    lemma_pow2_pos(lg);
    assert forall|j: int| 0 <= j < fc.len() implies fc[j] == r[j] by {
        let z = ntt_point(w, lg, j);
        lemma_forward_evaluates(c, w, q, lg, j);
        lemma_forward_evaluates(a, w, q, lg, j);
        lemma_forward_evaluates(b, w, q, lg, j);
        lemma_points_are_roots(w, q, lg, j);
        lemma_negacyclic_eval(a, b, z, q);
        let p = negacyclic_product(a, b);
        assert forall|k: int| 0 <= k < c.len() implies (#[trigger] c[k] % q) == p[k] % q by {
            lemma_cong_mod(p[k], q);
        }
        lemma_eval_congruent(c, p, z, q);
        lemma_cong_mod(poly_eval(a, z), q);
        lemma_cong_mod(poly_eval(b, z), q);
        lemma_cong_mul(poly_eval(a, z), poly_eval(a, z) % q, poly_eval(b, z), poly_eval(b, z) % q, q);
    }
    assert(fc =~= r);
}

/// Law: multiplying in the NTT domain computes the negacyclic product. For reduced inputs `a`
/// and `b` of length N = 2^lg and a twiddle table that is tree consistent, with pairwise
/// inverse twiddles and `N · n_inv ≡ 1`, `inverse(forward(a) ⊙ forward(b)) == a · b mod (X^N + 1, q)`.
pub proof fn lemma_ntt_multiplies(
    a: Seq<int>,
    b: Seq<int>,
    w: Seq<int>,
    winv: Seq<int>,
    n_inv: int,
    q: int,
    lg: nat,
)
    requires
        q > 1,
        lg >= 1,
        a.len() == pow2(lg),
        b.len() == pow2(lg),
        tree_consistent(w, q, lg),
        twiddles_inverse(w, winv, q, pow2(lg) as int),
        (pow2(lg) * n_inv) % q == 1,
    ensures
        inverse_spec(
            pointwise_mod(forward_spec(a, w, q, lg), forward_spec(b, w, q, lg), q),
            winv,
            n_inv,
            q,
            lg,
        ) == negacyclic_mod(a, b, q),
{
    let c = negacyclic_mod(a, b, q);
    lemma_forward_of_product(a, b, w, q, lg);
    assert forall|k: int| 0 <= k < c.len() implies 0 <= #[trigger] c[k] < q by {
        lemma_mod_bound(nega_partial(a, b, k, a.len()), q);
    }
    lemma_inverse_undoes_forward(c, w, winv, n_inv, q, lg);
}

/// The hypotheses under which the NTT multiplies: tables for size 2^lg modulo q > 1 whose forward
/// twiddles form a tree of square roots of -1, whose twiddles are pairwise inverse, and N^-1.
pub open spec fn ntt_tables(w: Seq<int>, winv: Seq<int>, n_inv: int, q: int, lg: nat) -> bool {
    &&& q > 1
    &&& lg >= 1
    &&& tree_consistent(w, q, lg)
    &&& twiddles_inverse(w, winv, q, pow2(lg) as int)
    &&& (pow2(lg) * n_inv) % q == 1
}

/// Entrywise sum modulo q.
pub open spec fn add_mod(a: Seq<int>, b: Seq<int>, q: int) -> Seq<int> {
    Seq::new(a.len(), |k: int| (a[k] + b[k]) % q)
}

/// The polynomial 1 with N coefficients.
pub open spec fn unit_poly(n: nat) -> Seq<int> {
    Seq::new(n, |k: int| if k == 0 { 1int } else { 0int })
}

/// Law: the negacyclic product modulo q is commutative.
pub proof fn lemma_negacyclic_commutative(
    a: Seq<int>,
    b: Seq<int>,
    w: Seq<int>,
    winv: Seq<int>,
    n_inv: int,
    q: int,
    lg: nat,
)
    requires
        ntt_tables(w, winv, n_inv, q, lg),
        a.len() == pow2(lg),
        b.len() == pow2(lg),
    ensures
        negacyclic_mod(a, b, q) == negacyclic_mod(b, a, q),
{
    lemma_ntt_multiplies(a, b, w, winv, n_inv, q, lg);
    lemma_ntt_multiplies(b, a, w, winv, n_inv, q, lg);
    let fa = forward_spec(a, w, q, lg);
    let fb = forward_spec(b, w, q, lg);
    lemma_stages_len(a, w, q, lg, lg);
    lemma_stages_len(b, w, q, lg, lg);
    assert forall|k: int| 0 <= k < fa.len() implies #[trigger] pointwise_mod(fa, fb, q)[k]
        == pointwise_mod(fb, fa, q)[k] by {
        lemma_mul_is_commutative(fa[k], fb[k]);
    }
    assert(pointwise_mod(fa, fb, q) =~= pointwise_mod(fb, fa, q));
}

/// Law: the negacyclic product modulo q is associative.
pub proof fn lemma_negacyclic_associative(
    a: Seq<int>,
    b: Seq<int>,
    c: Seq<int>,
    w: Seq<int>,
    winv: Seq<int>,
    n_inv: int,
    q: int,
    lg: nat,
)
    requires
        ntt_tables(w, winv, n_inv, q, lg),
        a.len() == pow2(lg),
        b.len() == pow2(lg),
        c.len() == pow2(lg),
    ensures
        negacyclic_mod(negacyclic_mod(a, b, q), c, q) == negacyclic_mod(a, negacyclic_mod(b, c, q), q),
{
    let ab = negacyclic_mod(a, b, q);
    let bc = negacyclic_mod(b, c, q);
    lemma_forward_of_product(a, b, w, q, lg);
    lemma_forward_of_product(b, c, w, q, lg);
    lemma_ntt_multiplies(ab, c, w, winv, n_inv, q, lg);
    lemma_ntt_multiplies(a, bc, w, winv, n_inv, q, lg);
    let fa = forward_spec(a, w, q, lg);
    let fb = forward_spec(b, w, q, lg);
    let fc = forward_spec(c, w, q, lg);
    lemma_stages_len(a, w, q, lg, lg);
    lemma_stages_len(b, w, q, lg, lg);
    lemma_stages_len(c, w, q, lg, lg);
    let l = pointwise_mod(pointwise_mod(fa, fb, q), fc, q);
    let r = pointwise_mod(fa, pointwise_mod(fb, fc, q), q);
    assert forall|k: int| 0 <= k < l.len() implies #[trigger] l[k] == r[k] by {
        lemma_mul_mod_noop_left(fa[k] * fb[k], fc[k], q);
        lemma_mul_mod_noop_right(fa[k], fb[k] * fc[k], q);
        lemma_mul_is_associative(fa[k], fb[k], fc[k]);
    }
    assert(l =~= r);
}

/// Law: multiplying a reduced polynomial by 1 gives it back.
pub proof fn lemma_negacyclic_identity(
    a: Seq<int>,
    w: Seq<int>,
    winv: Seq<int>,
    n_inv: int,
    q: int,
    lg: nat,
)
    requires
        ntt_tables(w, winv, n_inv, q, lg),
        a.len() == pow2(lg),
        is_reduced(a, q),
    ensures
        negacyclic_mod(a, unit_poly(pow2(lg)), q) == a,
{
    let one = unit_poly(pow2(lg));
    lemma_ntt_multiplies(a, one, w, winv, n_inv, q, lg);
    let fa = forward_spec(a, w, q, lg);
    let fo = forward_spec(one, w, q, lg);
    lemma_stages_len(a, w, q, lg, lg);
    lemma_stages_len(one, w, q, lg, lg);
    assert forall|j: int| 0 <= j < fo.len() implies #[trigger] fo[j] == 1 by {
        lemma_forward_evaluates(one, w, q, lg, j);
        let z = ntt_point(w, lg, j);
        let rest = one.drop_first();
        assert forall|k: int| 0 <= k < rest.len() implies #[trigger] rest[k] == 0 by {
            assert(rest[k] == one[k + 1]);
        }
        lemma_eval_zeros(rest, z);
        lemma_mul_basics(z);
        lemma_small_mod(1, q as nat);
    }
    assert forall|j: int| 0 <= j < fa.len() implies #[trigger] pointwise_mod(fa, fo, q)[j] == fa[j] by {
        lemma_ct_stages_reduced(a, w, q, lg, lg, j);
        lemma_mul_basics(fa[j]);
        lemma_small_mod(fa[j] as nat, q as nat);
    }
    assert(pointwise_mod(fa, fo, q) =~= fa);
    lemma_inverse_undoes_forward(a, w, winv, n_inv, q, lg);
}

/// Law: the forward transform is linear: it maps a sum modulo q to the sum of the transforms.
pub proof fn lemma_forward_linear(a: Seq<int>, b: Seq<int>, w: Seq<int>, q: int, lg: nat)
    requires
        q > 0,
        lg >= 1,
        tree_consistent(w, q, lg),
        a.len() == pow2(lg),
        b.len() == pow2(lg),
    ensures
        forward_spec(add_mod(a, b, q), w, q, lg) == add_mod(
            forward_spec(a, w, q, lg),
            forward_spec(b, w, q, lg),
            q,
        ),
{
    let s = add_mod(a, b, q);
    let fs = forward_spec(s, w, q, lg);
    let fa = forward_spec(a, w, q, lg);
    let fb = forward_spec(b, w, q, lg);
    lemma_stages_len(s, w, q, lg, lg);
    lemma_stages_len(a, w, q, lg, lg);
    lemma_stages_len(b, w, q, lg, lg);
    assert forall|j: int| 0 <= j < fs.len() implies #[trigger] fs[j] == add_mod(fa, fb, q)[j] by {
        let z = ntt_point(w, lg, j);
        lemma_forward_evaluates(s, w, q, lg, j);
        lemma_forward_evaluates(a, w, q, lg, j);
        lemma_forward_evaluates(b, w, q, lg, j);
        assert forall|k: int| 0 <= k < s.len() implies (#[trigger] s[k] % q) == (a[k] + 1 * b[k])
            % q by {
            lemma_mod_twice(a[k] + b[k], q);
        }
        lemma_eval_combine(s, a, b, 1, z, q);
        lemma_add_mod_noop(poly_eval(a, z), poly_eval(b, z), q);
    }
    assert(fs =~= add_mod(fa, fb, q));
}

} // verus!
