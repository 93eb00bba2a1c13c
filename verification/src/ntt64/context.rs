//! `Ntt64Context`: twiddle tables for one prime below 2^62, and the forward and inverse
//! transforms (Cooley-Tukey DIT forward, Gentleman-Sande DIF inverse, Longa-Naehrig order).

use vstd::prelude::*;
use vstd::arithmetic::div_mod::*;
use vstd::arithmetic::mul::*;
use vstd::arithmetic::power::*;
use vstd::arithmetic::power2::*;
use crate::algebra::congruence::{lemma_cong_add, lemma_cong_mod, lemma_cong_sub};
use crate::algebra::evaluation::{lemma_forward_evaluates, ntt_point, poly_eval, tree_consistent};
use crate::algebra::negacyclic::{lemma_ntt_multiplies, negacyclic_mod, pointwise_mod};
use crate::algebra::transform::{
    ct_layer,
    ct_stages,
    forward_spec,
    gap,
    gs_layer,
    gs_stages,
    inverse_lazy_spec,
    inverse_spec,
    is_lower,
    lemma_layer_index,
    scale,
    twiddle_index,
    twiddles_inverse,
};
use crate::algebra::cyclic::lemma_primitive_root_theorem;
use crate::algebra::primes::{fermat_inverse, is_prime, lemma_inverse_from_order};
use crate::algebra::twiddles::{
    bit_rev,
    has_generator,
    is_power_table,
    least_generator,
    lemma_negacyclic_root,
    lemma_power_table_consistent,
    lemma_power_tables_inverse,
    negacyclic_root,
};
use crate::bits::{is_power_of_two, power_of_two_exponent};
pub use crate::bits::bit_reverse;
use crate::ntt32::scalar::lemma_block_position;
use crate::ntt64::arith::{mod_add, mod_inv, mod_mul_barrett, mod_pow, mod_sub, Ntt64Arith};
use crate::ntt64::prime::{
    is_prime as is_prime_mr,
    lemma_miller_rabin_accepts_primes,
    lemma_miller_rabin_fermat_base_two,
    passes_miller_rabin,
    try_primitive_root,
};
use crate::NttError;

use crate::algebra::negacyclic::{
    add_mod,
    lemma_forward_linear,
    lemma_negacyclic_associative,
    lemma_negacyclic_commutative,
    lemma_negacyclic_identity,
    unit_poly,
};
use crate::algebra::evaluation::lemma_points_are_roots;
use crate::algebra::transform::{is_reduced, lemma_forward_undoes_inverse, lemma_inverse_undoes_forward};
verus! {

/// The entries of a `u64` sequence as integers.
pub open spec fn ints64(v: Seq<u64>) -> Seq<int> {
    v.map_values(|x: u64| x as int)
}

/// Every entry is below the bound.
pub open spec fn all_below64(v: Seq<u64>, bound: int) -> bool {
    forall|i: int| 0 <= i < v.len() ==> #[trigger] v[i] < bound
}

/// Precomputed NTT context for a given (N, modulus) pair.
///
/// Contains twiddle-factor tables for both forward and inverse NTT,
/// organized in Longa-Naehrig ordering for negacyclic convolution.
#[derive(Debug, Clone)]
pub struct Ntt64Context {
    /// Polynomial size (power of 2).
    pub n: usize,
    /// log₂(n).
    pub log_n: u32,
    /// Modular arithmetic context (Barrett/Montgomery constants).
    pub arith: Ntt64Arith,
    /// Twiddle factors for forward NTT: `root_powers[m + j]` for the layer with `m` groups
    /// and group index `j`.
    pub root_powers: Vec<u64>,
    /// Inverse twiddle factors for inverse NTT.
    pub inv_root_powers: Vec<u64>,
    /// N⁻¹ mod q — normalization factor for the INTT.
    pub n_inv: u64,
}

impl Ntt64Context {
    /// The modulus as an integer.
    pub open spec fn q(&self) -> int {
        self.arith.modulus as int
    }

    /// Forward twiddles as integers.
    pub open spec fn tw(&self) -> Seq<int> {
        ints64(self.root_powers@)
    }

    /// Inverse twiddles as integers.
    pub open spec fn tw_inv(&self) -> Seq<int> {
        ints64(self.inv_root_powers@)
    }

    /// The context is well formed: the arithmetic constants are right, N = 2^log_n with
    /// q ≡ 1 (mod 2N), the tables are reduced, the forward twiddles form a tree of square roots
    /// down from -1, the twiddles are pairwise inverse and N^-1 is the inverse of N.
    pub open spec fn wf(&self) -> bool {
        &&& self.arith.wf()
        &&& 1 <= self.log_n <= 32
        &&& self.n == pow2(self.log_n as nat)
        &&& (self.q() - 1) % (2 * self.n as int) == 0
        &&& self.root_powers@.len() == self.n
        &&& self.inv_root_powers@.len() == self.n
        &&& all_below64(self.root_powers@, self.q())
        &&& all_below64(self.inv_root_powers@, self.q())
        &&& self.n_inv < self.q()
        &&& tree_consistent(self.tw(), self.q(), self.log_n as nat)
        &&& twiddles_inverse(self.tw(), self.tw_inv(), self.q(), self.n as int)
        &&& (self.n * self.n_inv) % self.q() == 1
    }
}

/// Cooley-Tukey butterflies on one block `[k, k + 2t)`.
fn ct_block_64(
    data: &mut [u64],
    k: usize,
    t: usize,
    w: u64,
    arith: &Ntt64Arith,
    Ghost(target): Ghost<Seq<int>>,
)
    requires
        k + 2 * t <= old(data)@.len() <= usize::MAX,
        arith.wf(),
        w < arith.modulus,
        forall|p: int| k <= p < k + 2 * t ==> #[trigger] old(data)@[p] < arith.modulus,
        forall|d: int|
            0 <= d < t ==> #[trigger] target[k + d] == (old(data)@[k + d] + w * old(data)@[k + d
                + t]) % arith.q(),
        forall|d: int|
            0 <= d < t ==> #[trigger] target[k + t + d] == (old(data)@[k + d] - w * old(data)@[k
                + d + t]) % arith.q(),
    ensures
        final(data)@.len() == old(data)@.len(),
        forall|p: int|
            k <= p < k + 2 * t ==> #[trigger] final(data)@[p] as int == target[p] && final(data)@[p]
                < arith.modulus,
        forall|p: int|
            0 <= p < old(data)@.len() && !(k <= p < k + 2 * t) ==> #[trigger] final(data)@[p]
                == old(data)@[p],
{
    let q = arith.modulus;
    for j in k..(k + t)
        invariant
            k + 2 * t <= old(data)@.len(),
            data@.len() == old(data)@.len(),
            arith.wf(),
            q == arith.modulus,
            w < q,
            forall|p: int| k <= p < k + 2 * t ==> #[trigger] old(data)@[p] < q,
            forall|d: int|
                0 <= d < t ==> #[trigger] target[k + d] == (old(data)@[k + d] + w * old(data)@[k
                    + d + t]) % arith.q(),
            forall|d: int|
                0 <= d < t ==> #[trigger] target[k + t + d] == (old(data)@[k + d] - w * old(
                    data,
                )@[k + d + t]) % arith.q(),
            forall|p: int|
                (k <= p < j || k + t <= p < j + t) ==> #[trigger] data@[p] as int == target[p]
                    && data@[p] < q,
            forall|p: int|
                0 <= p < old(data)@.len() && !(k <= p < j || k + t <= p < j + t) ==> #[trigger] data@[p]
                    == old(data)@[p],
    {
        let ghost d = j - k;
        let u = data[j];
        proof {
            assert(data@[j + t] == old(data)@[j + t]);
        }
        let v = mod_mul_barrett(data[j + t], w, arith);
        proof {
            lemma_mod_bound(data@[j + t] * w, q as int);
        }
        data[j] = mod_add(u, v, q);
        data[j + t] = mod_sub(u, v, q);
        proof {
            let qi = q as int;
            let x = old(data)@[k + d + t] as int;
            assert(target[k + d] == (u + w * x) % qi);
            assert(target[k + t + d] == (u - w * x) % qi);
            lemma_cong_mod(x * w, qi);
            lemma_mul_is_commutative(x, w as int);
            lemma_cong_add(u as int, u as int, v as int, w * x, qi);
            lemma_cong_sub(u as int, u as int, v as int, w * x, qi);
            lemma_mod_bound(u + v, qi);
            lemma_mod_bound(u - v, qi);
        }
    }
}

/// Gentleman-Sande butterflies on one block `[k, k + 2t)`.
fn gs_block_64(
    data: &mut [u64],
    k: usize,
    t: usize,
    w: u64,
    arith: &Ntt64Arith,
    Ghost(target): Ghost<Seq<int>>,
)
    requires
        k + 2 * t <= old(data)@.len() <= usize::MAX,
        arith.wf(),
        w < arith.modulus,
        forall|p: int| k <= p < k + 2 * t ==> #[trigger] old(data)@[p] < arith.modulus,
        forall|d: int|
            0 <= d < t ==> #[trigger] target[k + d] == (old(data)@[k + d] + old(data)@[k + d + t])
                % arith.q(),
        forall|d: int|
            0 <= d < t ==> #[trigger] target[k + t + d] == ((old(data)@[k + d] - old(data)@[k + d
                + t]) * w) % arith.q(),
    ensures
        final(data)@.len() == old(data)@.len(),
        forall|p: int|
            k <= p < k + 2 * t ==> #[trigger] final(data)@[p] as int == target[p] && final(data)@[p]
                < arith.modulus,
        forall|p: int|
            0 <= p < old(data)@.len() && !(k <= p < k + 2 * t) ==> #[trigger] final(data)@[p]
                == old(data)@[p],
{
    let q = arith.modulus;
    for j in k..(k + t)
        invariant
            k + 2 * t <= old(data)@.len(),
            data@.len() == old(data)@.len(),
            arith.wf(),
            q == arith.modulus,
            w < q,
            forall|p: int| k <= p < k + 2 * t ==> #[trigger] old(data)@[p] < q,
            forall|d: int|
                0 <= d < t ==> #[trigger] target[k + d] == (old(data)@[k + d] + old(data)@[k + d
                    + t]) % arith.q(),
            forall|d: int|
                0 <= d < t ==> #[trigger] target[k + t + d] == ((old(data)@[k + d] - old(data)@[k
                    + d + t]) * w) % arith.q(),
            forall|p: int|
                (k <= p < j || k + t <= p < j + t) ==> #[trigger] data@[p] as int == target[p]
                    && data@[p] < q,
            forall|p: int|
                0 <= p < old(data)@.len() && !(k <= p < j || k + t <= p < j + t) ==> #[trigger] data@[p]
                    == old(data)@[p],
    {
        let ghost d = j - k;
        let u = data[j];
        let v = data[j + t];
        proof {
            assert(data@[j + t] == old(data)@[j + t]);
        }
        data[j] = mod_add(u, v, q);
        let diff = mod_sub(u, v, q);
        proof {
            lemma_mod_bound(u - v, q as int);
            lemma_mod_bound(u + v, q as int);
        }
        data[j + t] = mod_mul_barrett(diff, w, arith);
        proof {
            assert(target[k + d] == (u + v) % (q as int));
            assert(target[k + t + d] == ((u - v) * w) % (q as int));
            lemma_mul_mod_noop_left(u - v, w as int, q as int);
            lemma_mod_bound(diff * w, q as int);
        }
    }
}

/// Sizes of consecutive layers: the gap halves and the number of groups doubles.
proof fn lemma_layer_sizes(lg: nat, s: nat, t: usize, m: usize)
    requires
        s < lg,
        pow2(lg) <= usize::MAX,
        t == pow2((lg - s) as nat),
        m == pow2(s),
    ensures
        t / 2 == gap(lg, s),
        m * 2 == pow2(s + 1),
        pow2(s + 1) <= pow2(lg),
{
    lemma_pow2_unfold((lg - s) as nat);
    lemma_pow2_unfold(s + 1);
    if s + 1 < lg {
        lemma_pow2_strictly_increases(s + 1, lg);
    }
}

/// One layer of the transform, block by block; `forward` selects Cooley-Tukey with the forward
/// twiddles, otherwise Gentleman-Sande with the inverse twiddles.
fn layer_64(data: &mut [u64], ctx: &Ntt64Context, s: u32, m: usize, t: usize, forward: bool)
    requires
        ctx.wf(),
        old(data)@.len() == ctx.n,
        all_below64(old(data)@, ctx.q()),
        s < ctx.log_n,
        m == pow2(s as nat),
        t == gap(ctx.log_n as nat, s as nat),
    ensures
        final(data)@.len() == ctx.n,
        all_below64(final(data)@, ctx.q()),
        forward ==> ints64(final(data)@) == ct_layer(
            ints64(old(data)@),
            ctx.tw(),
            ctx.q(),
            ctx.log_n as nat,
            s as nat,
        ),
        !forward ==> ints64(final(data)@) == gs_layer(
            ints64(old(data)@),
            ctx.tw_inv(),
            ctx.q(),
            ctx.log_n as nat,
            s as nat,
        ),
{
    let q = ctx.arith.modulus;
    let ghost lg = ctx.log_n as nat;
    let ghost a = ints64(data@);
    let ghost target = if forward {
        ct_layer(a, ctx.tw(), q as int, lg, s as nat)
    } else {
        gs_layer(a, ctx.tw_inv(), q as int, lg, s as nat)
    };
    let ghost n = ctx.n as int;
    proof {
        lemma_pow2_pos(lg);
        lemma_layer_index(lg, s as nat, 0);
        lemma_mul_basics(2 * t as int);
    }
    let mut k: usize = 0;
    for i in 0..m
        invariant
            ctx.wf(),
            q == ctx.arith.modulus,
            lg == ctx.log_n,
            n == ctx.n,
            s < lg,
            m == pow2(s as nat),
            t == gap(lg, s as nat),
            a == ints64(old(data)@),
            target == (if forward {
                ct_layer(a, ctx.tw(), q as int, lg, s as nat)
            } else {
                gs_layer(a, ctx.tw_inv(), q as int, lg, s as nat)
            }),
            a.len() == n,
            data@.len() == n,
            all_below64(old(data)@, q as int),
            t >= 1,
            m * (2 * t) == n,
            k == i * (2 * t),
            forall|p: int| 0 <= p < k ==> #[trigger] data@[p] as int == target[p] && data@[p] < q,
            forall|p: int| k <= p < n ==> #[trigger] data@[p] == old(data)@[p],
    {
        proof {
            lemma_block_position(lg, s as nat, i as int, k as int, 0, n);
        }
        let w = if forward {
            ctx.root_powers[m + i]
        } else {
            ctx.inv_root_powers[m + i]
        };
        proof {
            assert forall|d: int| 0 <= d < 2 * t implies #[trigger] twiddle_index(lg, s as nat, k + d)
                == m + i && (is_lower(lg, s as nat, k + d) <==> d < t) by {
                lemma_block_position(lg, s as nat, i as int, k as int, d, n);
            }
            assert forall|p: int| k <= p < k + 2 * t implies #[trigger] data@[p] < q by {
                assert(data@[p] == old(data)@[p]);
            }
            if forward {
                assert(ctx.tw()[m + i] == w as int);
                assert forall|d: int| 0 <= d < t implies #[trigger] target[k + d] == (data@[k + d]
                    + w * data@[k + d + t]) % (q as int) by {
                    assert(twiddle_index(lg, s as nat, k + d) == m + i);
                    assert(is_lower(lg, s as nat, k + d));
                    assert(data@[k + d] == old(data)@[k + d]);
                    assert(data@[k + d + t] == old(data)@[k + d + t]);
                }
                assert forall|d: int| 0 <= d < t implies #[trigger] target[k + t + d] == (data@[k
                    + d] - w * data@[k + d + t]) % (q as int) by {
                    assert(twiddle_index(lg, s as nat, k + (t + d)) == m + i);
                    assert(!is_lower(lg, s as nat, k + (t + d)));
                    assert(data@[k + d] == old(data)@[k + d]);
                    assert(data@[k + d + t] == old(data)@[k + d + t]);
                }
            } else {
                assert(ctx.tw_inv()[m + i] == w as int);
                assert forall|d: int| 0 <= d < t implies #[trigger] target[k + d] == (data@[k + d]
                    + data@[k + d + t]) % (q as int) by {
                    assert(twiddle_index(lg, s as nat, k + d) == m + i);
                    assert(is_lower(lg, s as nat, k + d));
                    assert(data@[k + d] == old(data)@[k + d]);
                    assert(data@[k + d + t] == old(data)@[k + d + t]);
                }
                assert forall|d: int| 0 <= d < t implies #[trigger] target[k + t + d] == ((data@[k
                    + d] - data@[k + d + t]) * w) % (q as int) by {
                    assert(twiddle_index(lg, s as nat, k + (t + d)) == m + i);
                    assert(!is_lower(lg, s as nat, k + (t + d)));
                    assert(data@[k + d] == old(data)@[k + d]);
                    assert(data@[k + d + t] == old(data)@[k + d + t]);
                }
            }
        }
        if forward {
            ct_block_64(data, k, t, w, &ctx.arith, Ghost(target));
        } else {
            gs_block_64(data, k, t, w, &ctx.arith, Ghost(target));
        }
        proof {
            lemma_mul_is_distributive_add_other_way(2 * t as int, i as int, 1);
        }
        k += 2 * t;
    }
    proof {
        lemma_mul_is_commutative(m as int, 2 * t as int);
        assert(ints64(data@) =~= target);
        assert forall|p: int| 0 <= p < data@.len() implies #[trigger] data@[p] < q by {
            assert(data@[p] as int == target[p] && data@[p] < q);
        }
    }
}

/// Forward NTT in-place (negacyclic convolution, Longa-Naehrig ordering).
///
/// ## Butterfly
/// ```text
/// u' = u + w·v
/// v' = u − w·v
/// ```
///
/// Layers are traversed from coarsest (gap = N/2) to finest (gap = 1).
pub fn ntt_forward(data: &mut [u64], ctx: &Ntt64Context)
    requires
        ctx.wf(),
        old(data)@.len() == ctx.n,
        all_below64(old(data)@, ctx.q()),
    ensures
        final(data)@.len() == ctx.n,
        all_below64(final(data)@, ctx.q()),
        ints64(final(data)@) == forward_spec(ints64(old(data)@), ctx.tw(), ctx.q(), ctx.log_n as nat),
{
    let n = ctx.n;
    let ghost lg = ctx.log_n as nat;
    let ghost a0 = ints64(data@);
    let mut t = n;
    let mut m: usize = 1;
    proof {
        lemma2_to64();
    }
    for s in 0..ctx.log_n
        invariant
            ctx.wf(),
            lg == ctx.log_n,
            a0 == ints64(old(data)@),
            data@.len() == ctx.n,
            all_below64(data@, ctx.q()),
            t == pow2((lg - s) as nat),
            m == pow2(s as nat),
            ints64(data@) == ct_stages(a0, ctx.tw(), ctx.q(), lg, s as nat),
    {
        proof {
            lemma_layer_sizes(lg, s as nat, t, m);
        }
        t = t / 2;
        layer_64(data, ctx, s, m, t, true);
        m = m * 2;
    }
}

/// Tiled forward NTT: the same negacyclic forward transform as [`ntt_forward`], for every N.
///
/// The four-step layout (N = N1·N2, row transforms, twist, transpose) is not used: its twiddle
/// decomposition must fold the negacyclic factor ψ^j into the twist, which a plain four-step
/// split of ω = ψ² does not do; the standard network gives the transform directly.
pub fn ntt_forward_tiled(data: &mut [u64], ctx: &Ntt64Context)
    requires
        ctx.wf(),
        old(data)@.len() == ctx.n,
        all_below64(old(data)@, ctx.q()),
    ensures
        final(data)@.len() == ctx.n,
        all_below64(final(data)@, ctx.q()),
        ints64(final(data)@) == forward_spec(ints64(old(data)@), ctx.tw(), ctx.q(), ctx.log_n as nat),
{
    ntt_forward(data, ctx);
}

/// Inverse NTT in-place (negacyclic convolution, Longa-Naehrig ordering).
///
/// ## Butterfly
/// ```text
/// u' = u + v
/// v' = (u − v) · w_inv
/// ```
///
/// Layers are traversed from finest (gap = 1) to coarsest (gap = N/2).
/// Each coefficient is multiplied by N⁻¹ mod q at the end.
pub fn ntt_inverse(data: &mut [u64], ctx: &Ntt64Context)
    requires
        ctx.wf(),
        old(data)@.len() == ctx.n,
        all_below64(old(data)@, ctx.q()),
    ensures
        final(data)@.len() == ctx.n,
        all_below64(final(data)@, ctx.q()),
        ints64(final(data)@) == inverse_spec(
            ints64(old(data)@),
            ctx.tw_inv(),
            ctx.n_inv as int,
            ctx.q(),
            ctx.log_n as nat,
        ),
{
    let n = ctx.n;
    let ghost lg = ctx.log_n as nat;
    let ghost a0 = ints64(data@);
    let mut t: usize = 1;
    let mut m = n;
    proof {
        lemma2_to64();
    }
    for step in 0..ctx.log_n
        invariant
            ctx.wf(),
            lg == ctx.log_n,
            a0 == ints64(old(data)@),
            data@.len() == ctx.n,
            all_below64(data@, ctx.q()),
            t == pow2(step as nat),
            m == pow2((lg - step) as nat),
            ints64(data@) == gs_stages(a0, ctx.tw_inv(), ctx.q(), lg, step as nat),
    {
        let s = ctx.log_n - step - 1;
        proof {
            lemma_layer_sizes(lg, step as nat, m, t);
        }
        m = m / 2;
        layer_64(data, ctx, s, m, t, false);
        t = t * 2;
    }
    let ghost lazy = ints64(data@);
    proof {
        assert(lazy == inverse_lazy_spec(a0, ctx.tw_inv(), ctx.q(), lg));
    }
    // Normalize by N⁻¹
    let len = data.len();
    for p in 0..len
        invariant
            ctx.wf(),
            len == data@.len(),
            len == ctx.n,
            lazy.len() == len,
            forall|i: int| 0 <= i < p ==> #[trigger] data@[i] as int == (lazy[i] * ctx.n_inv) % ctx.q()
                && data@[i] < ctx.q(),
            forall|i: int| p <= i < len ==> #[trigger] data@[i] as int == lazy[i] && data@[i] < ctx.q(),
    {
        proof {
            lemma_mod_bound(data@[p as int] * ctx.n_inv, ctx.q());
        }
        data[p] = mod_mul_barrett(data[p], ctx.n_inv, &ctx.arith);
    }
    proof {
        assert(ints64(data@) =~= scale(lazy, ctx.n_inv as int, ctx.q()));
    }
}

/// The tables of the powers of ψ and of ψ' in bit-reversed order: entry i is ψ^bitrev(i).
fn power_tables_64(n: usize, log_n: u32, psi: u64, psi_inv: u64, arith: &Ntt64Arith) -> (r: (
    Vec<u64>,
    Vec<u64>,
))
    requires
        arith.wf(),
        1 <= log_n <= 32,
        n == pow2(log_n as nat),
    ensures
        is_power_table(ints64(r.0@), psi as int, arith.q(), log_n as nat),
        is_power_table(ints64(r.1@), psi_inv as int, arith.q(), log_n as nat),
        all_below64(r.0@, arith.q()),
        all_below64(r.1@, arith.q()),
{
    let mut root_powers: Vec<u64> = Vec::with_capacity(n);
    let mut inv_root_powers: Vec<u64> = Vec::with_capacity(n);
    proof {
        lemma2_to64();
        lemma2_to64_rest();
        if log_n < 32 {
            lemma_pow2_strictly_increases(log_n as nat, 32);
        }
    }
    for i in 0..n
        invariant
            arith.wf(),
            1 <= log_n <= 32,
            n == pow2(log_n as nat),
            n <= 0x1_0000_0000,
            root_powers@.len() == i,
            inv_root_powers@.len() == i,
            forall|k: int|
                0 <= k < i ==> #[trigger] root_powers@[k] as int == pow(
                    psi as int,
                    bit_rev(k as nat, log_n as nat),
                ) % arith.q(),
            forall|k: int|
                0 <= k < i ==> #[trigger] inv_root_powers@[k] as int == pow(
                    psi_inv as int,
                    bit_rev(k as nat, log_n as nat),
                ) % arith.q(),
    {
        let exp = bit_reverse(i as u32, log_n) as u64;
        root_powers.push(mod_pow(psi, exp, arith));
        inv_root_powers.push(mod_pow(psi_inv, exp, arith));
    }
    proof {
        let w = ints64(root_powers@);
        let wi = ints64(inv_root_powers@);
        assert forall|k: int| 0 <= k < w.len() implies #[trigger] w[k] == pow(
            psi as int,
            bit_rev(k as nat, log_n as nat),
        ) % arith.q() by {
            assert(w[k] == root_powers@[k] as int);
        }
        assert forall|k: int| 0 <= k < wi.len() implies #[trigger] wi[k] == pow(
            psi_inv as int,
            bit_rev(k as nat, log_n as nat),
        ) % arith.q() by {
            assert(wi[k] == inv_root_powers@[k] as int);
        }
        assert forall|k: int| 0 <= k < root_powers@.len() implies #[trigger] root_powers@[k]
            < arith.q() by {
            lemma_mod_bound(pow(psi as int, bit_rev(k as nat, log_n as nat)), arith.q());
        }
        assert forall|k: int| 0 <= k < inv_root_powers@.len() implies
            #[trigger] inv_root_powers@[k] < arith.q() by {
            lemma_mod_bound(pow(psi_inv as int, bit_rev(k as nat, log_n as nat)), arith.q());
        }
    }
    (root_powers, inv_root_powers)
}

impl Ntt64Context {
    /// The context is the one built for size n over `arith`: well formed, with the powers of
    /// the root `negacyclic_root(n, q)` and of its inverse as twiddles, and N^-1 = N^(q-2).
    pub open spec fn built_for(&self, n: int, arith: Ntt64Arith) -> bool {
        let q = arith.modulus as int;
        let psi = negacyclic_root(n, q);
        &&& self.wf()
        &&& self.n == n
        &&& self.arith == arith
        &&& is_power_table(self.tw(), psi, q, self.log_n as nat)
        &&& is_power_table(self.tw_inv(), fermat_inverse(psi, q), q, self.log_n as nat)
        &&& self.n_inv == fermat_inverse(n, q)
    }

    /// Fallible constructor for an NTT context.
    ///
    /// Validates all preconditions and returns an error instead of panicking:
    /// - `InvalidSize(n)` if `n` is not a power of 2 ≥ 2;
    /// - `NotPrime(q)` if the modulus fails the primality test;
    /// - `NotNttFriendly { q, n }` if `q − 1` is not divisible by `2N`.
    ///
    /// The primality test is Miller-Rabin, so two more checks stand behind it: the generator
    /// search that picks the root must find a generator, and the root must satisfy ψ^N ≡ −1
    /// (mod q); either failure is reported as `NotPrime(q)`. For a prime q both always hold
    /// (the primitive root theorem), so every valid prime is accepted.
    pub fn try_new(n: usize, arith: Ntt64Arith) -> (r: Result<Self, NttError>)
        requires
            arith.wf(),
            Self::accepts(n as int, arith.q()) ==> n <= 0x1_0000_0000,
        ensures
            !(n >= 2 && is_power_of_two(n as int)) ==> r == Err::<Self, NttError>(
                NttError::InvalidSize(n),
            ),
            n >= 2 && is_power_of_two(n as int) && !passes_miller_rabin(arith.q()) ==> r == Err::<
                Self,
                NttError,
            >(NttError::NotPrime(arith.modulus)),
            n >= 2 && is_power_of_two(n as int) && passes_miller_rabin(arith.q()) && (arith.q() - 1)
                % (2 * n as int) != 0 ==> r == Err::<Self, NttError>(
                NttError::NotNttFriendly { q: arith.modulus, n },
            ),
            n >= 2 && is_power_of_two(n as int) && passes_miller_rabin(arith.q()) && (arith.q() - 1)
                % (2 * n as int) == 0 && !(has_generator(arith.q()) && pow(
                negacyclic_root(n as int, arith.q()),
                n as nat,
            ) % arith.q() == arith.q() - 1) ==> r == Err::<Self, NttError>(
                NttError::NotPrime(arith.modulus),
            ),
            r is Ok <==> n >= 2 && is_power_of_two(n as int) && passes_miller_rabin(arith.q()) && (
            arith.q() - 1) % (2 * n as int) == 0 && has_generator(arith.q()) && pow(
                negacyclic_root(n as int, arith.q()),
                n as nat,
            ) % arith.q() == arith.q() - 1,
            is_prime(arith.q()) && n >= 2 && is_power_of_two(n as int) && (arith.q() - 1) % (2
                * n as int) == 0 ==> r is Ok,
            r matches Ok(ctx) ==> ctx.built_for(n as int, arith),
    {
        let ghost qi = arith.q();
        proof {
            if is_prime(qi) {
                lemma_miller_rabin_accepts_primes(qi);
                if n >= 2 && (qi - 1) % (2 * n as int) == 0 {
                    lemma_negacyclic_root(n as nat, qi);
                    assert(qi >= 3) by {
                        if qi == 2 {
                            lemma_small_mod(1, (2 * n) as nat);
                        }
                    }
                    lemma_primitive_root_theorem(qi);
                }
            }
        }
        if n < 2 {
            return Err(NttError::InvalidSize(n));
        }
        let log_n = match power_of_two_exponent(n) {
            Some(k) => k,
            None => {
                return Err(NttError::InvalidSize(n));
            },
        };
        let q = arith.modulus;
        if !is_prime_mr(q) {
            return Err(NttError::NotPrime(q));
        }
        let q_minus_1 = q - 1;
        let n64 = n as u64;
        if n64 > q_minus_1 / 2 || !q_minus_1.is_multiple_of(2 * n64) {
            proof {
                if n64 > q_minus_1 / 2 {
                    lemma_small_mod(q_minus_1 as nat, (2 * n) as nat);
                }
            }
            return Err(NttError::NotNttFriendly { q, n });
        }
        // Find primitive 2N-th root of unity
        let psi = match try_primitive_root(n, q) {
            Some(psi) => psi,
            None => {
                return Err(NttError::NotPrime(q));
            },
        };
        // ψ^N ≡ −1 (mod q): ψ is a primitive 2N-th root
        if mod_pow(psi, n64, &arith) != q - 1 {
            return Err(NttError::NotPrime(q));
        }
        proof {
            assert(is_power_of_two(n as int)) by {
                assert(pow2(log_n as nat) == n as int);
            }
            assert(Self::accepts(n as int, qi));
            lemma2_to64();
            lemma2_to64_rest();
            if log_n > 32 {
                lemma_pow2_strictly_increases(32, log_n as nat);
            }
            let g = least_generator(qi);
            lemma_mod_bound(pow(g, ((qi - 1) / (2 * n as int)) as nat), qi);
            if psi == 0 {
                lemma0_pow(n as nat);
                lemma_small_mod(0, q as nat);
            }
        }
        let psi_inv = mod_inv(psi, &arith);
        let n_inv = mod_inv(n64, &arith);
        // Twiddle factors in Longa-Naehrig ordering: root_powers[i] = ψ^{bit_reverse(i, log_n)}
        let (root_powers, inv_root_powers) = power_tables_64(n, log_n, psi, psi_inv, &arith);
        let ctx = Ntt64Context { n, log_n, arith, root_powers, inv_root_powers, n_inv };
        proof {
            let lg = log_n as nat;
            // ψ^N ≡ −1, so ψ^2N ≡ 1 and ψ' = ψ^(q−2) is the inverse of ψ
            assert((-1) % qi == qi - 1) by {
                lemma_fundamental_div_mod_converse(-1, qi, -1, qi - 1);
            }
            assert(pow(psi as int, 2 * n as nat) % qi == 1) by {
                lemma_pow_adds(psi as int, n as nat, n as nat);
                lemma_mul_mod_noop(pow(psi as int, n as nat), pow(psi as int, n as nat), qi);
                assert((qi - 1) * (qi - 1) == (qi - 2) * qi + 1) by (nonlinear_arith);
                lemma_fundamental_div_mod_converse((qi - 1) * (qi - 1), qi, qi - 2, 1);
            }
            lemma_inverse_from_order(psi as int, qi, 2 * n as nat);
            lemma_power_table_consistent(ctx.tw(), psi as int, qi, lg);
            lemma_power_tables_inverse(ctx.tw(), ctx.tw_inv(), psi as int, psi_inv as int, qi, lg);
            // 2^(q−1) ≡ 1, so N^(q−1) ≡ 1 and N^(q−2) is the inverse of N
            lemma_fundamental_div_mod(qi - 1, 2 * n as int);
            assert((qi - 1) % 4 == 0 && qi >= 5) by {
                let c = (qi - 1) / (2 * n as int);
                assert(qi - 1 == (2 * n as int) * c);
                assert((2 * n as int) * c == 4 * ((n as int / 2) * c)) by {
                    lemma_pow2_unfold(lg);
                    lemma_mul_is_associative(4, n as int / 2, c);
                }
                lemma_mod_multiples_basic((n as int / 2) * c, 4);
                lemma_mul_is_commutative(4, (n as int / 2) * c);
            }
            lemma_miller_rabin_fermat_base_two(qi);
            lemma_pow2(lg);
            lemma_pow_multiplies(2, lg, (qi - 1) as nat);
            lemma_pow_multiplies(2, (qi - 1) as nat, lg);
            lemma_mul_is_commutative(lg as int, qi - 1);
            lemma_pow_mod_noop(pow(2, (qi - 1) as nat), lg, qi);
            lemma1_pow(lg);
            lemma_small_mod(1, qi as nat);
            lemma_inverse_from_order(n as int, qi, (qi - 1) as nat);
            lemma_mod_bound(pow(n as int, (qi - 2) as nat), qi);
        }
        Ok(ctx)
    }

    /// The parameters that `try_new` accepts: N a power of 2 ≥ 2, q accepted by the primality
    /// test with q ≡ 1 (mod 2N), a generator of Z_q* found, and ψ^N ≡ −1 for the root ψ.
    pub open spec fn accepts(n: int, q: int) -> bool {
        &&& n >= 2
        &&& is_power_of_two(n)
        &&& passes_miller_rabin(q)
        &&& (q - 1) % (2 * n) == 0
        &&& has_generator(q)
        &&& pow(negacyclic_root(n, q), n as nat) % q == q - 1
    }

    /// Creates a new NTT context for polynomial size `n` and the given arithmetic context.
    pub fn new(n: usize, arith: Ntt64Arith) -> (ctx: Self)
        requires
            arith.wf(),
            n <= 0x1_0000_0000,
            Self::accepts(n as int, arith.q()),
        ensures
            ctx.built_for(n as int, arith),
    {
        Self::try_new(n, arith).expect("Invalid NTT parameters")
    }

    /// Applies forward NTT in-place.
    pub fn forward(&self, data: &mut [u64])
        requires
            self.wf(),
            old(data)@.len() == self.n,
            all_below64(old(data)@, self.q()),
        ensures
            final(data)@.len() == self.n,
            all_below64(final(data)@, self.q()),
            ints64(final(data)@) == forward_spec(
                ints64(old(data)@),
                self.tw(),
                self.q(),
                self.log_n as nat,
            ),
            forall|j: int|
                0 <= j < self.n ==> #[trigger] final(data)@[j] as int == poly_eval(
                    ints64(old(data)@),
                    ntt_point(self.tw(), self.log_n as nat, j),
                ) % self.q(),
    {
        let ghost a = ints64(data@);
        ntt_forward(data, self);
        proof {
            assert forall|j: int| 0 <= j < self.n implies #[trigger] data@[j] as int == poly_eval(
                a,
                ntt_point(self.tw(), self.log_n as nat, j),
            ) % self.q() by {
                lemma_forward_evaluates(a, self.tw(), self.q(), self.log_n as nat, j);
                assert(ints64(data@)[j] == data@[j] as int);
            }
        }
    }

    /// Applies inverse NTT in-place.
    pub fn inverse(&self, data: &mut [u64])
        requires
            self.wf(),
            old(data)@.len() == self.n,
            all_below64(old(data)@, self.q()),
        ensures
            final(data)@.len() == self.n,
            all_below64(final(data)@, self.q()),
            ints64(final(data)@) == inverse_spec(
                ints64(old(data)@),
                self.tw_inv(),
                self.n_inv as int,
                self.q(),
                self.log_n as nat,
            ),
    {
        ntt_inverse(data, self);
    }

    /// Applies the tiled forward NTT in-place: the same forward transform as `forward`.
    pub fn forward_tiled(&self, data: &mut [u64])
        requires
            self.wf(),
            old(data)@.len() == self.n,
            all_below64(old(data)@, self.q()),
        ensures
            final(data)@.len() == self.n,
            all_below64(final(data)@, self.q()),
            ints64(final(data)@) == forward_spec(
                ints64(old(data)@),
                self.tw(),
                self.q(),
                self.log_n as nat,
            ),
    {
        ntt_forward_tiled(data, self);
    }

    /// Pointwise multiplication of two NTT-domain vectors: `result[i] = a[i] * b[i] mod q`.
    ///
    /// In NTT domain, polynomial convolution becomes element-wise multiplication.
    pub fn pointwise_mul(&self, a: &[u64], b: &[u64], result: &mut [u64])
        requires
            self.wf(),
            a@.len() == self.n,
            b@.len() == self.n,
            old(result)@.len() == self.n,
            all_below64(a@, self.q()),
            all_below64(b@, self.q()),
        ensures
            final(result)@.len() == self.n,
            ints64(final(result)@) == pointwise_mod(ints64(a@), ints64(b@), self.q()),
            all_below64(final(result)@, self.q()),
    {
        let n = self.n;
        for i in 0..n
            invariant
                self.wf(),
                n == self.n,
                a@.len() == n,
                b@.len() == n,
                result@.len() == n,
                all_below64(a@, self.q()),
                all_below64(b@, self.q()),
                forall|j: int|
                    0 <= j < i ==> #[trigger] result@[j] as int == (a@[j] * b@[j]) % self.q()
                        && result@[j] < self.q(),
        {
            result[i] = mod_mul_barrett(a[i], b[i], &self.arith);
            proof {
                lemma_mod_bound(a@[i as int] * b@[i as int], self.q());
            }
        }
        proof {
            assert(ints64(result@) =~= pointwise_mod(ints64(a@), ints64(b@), self.q()));
        }
    }

    /// Full negacyclic polynomial multiplication: `c = a * b mod (X^N + 1)`.
    ///
    /// Performs forward NTT on both inputs, pointwise multiplication,
    /// and inverse NTT on the result.
    pub fn negacyclic_mul(&self, a: &[u64], b: &[u64]) -> (c: Vec<u64>)
        requires
            self.wf(),
            a@.len() == self.n,
            b@.len() == self.n,
            all_below64(a@, self.q()),
            all_below64(b@, self.q()),
        ensures
            ints64(c@) == negacyclic_mod(ints64(a@), ints64(b@), self.q()),
            all_below64(c@, self.q()),
    {
        let n = self.n;
        let mut a_ntt = copy_of_64(a);
        let mut b_ntt = copy_of_64(b);
        ntt_forward(&mut a_ntt, self);
        ntt_forward(&mut b_ntt, self);
        let mut c_ntt = vec![0u64; n];
        self.pointwise_mul(&a_ntt, &b_ntt, &mut c_ntt);
        ntt_inverse(&mut c_ntt, self);
        proof {
            lemma_ntt_multiplies(
                ints64(a@),
                ints64(b@),
                self.tw(),
                self.tw_inv(),
                self.n_inv as int,
                self.q(),
                self.log_n as nat,
            );
        }
        c_ntt
    }
}

/// A fresh vector with the entries of a slice.
pub(crate) fn copy_of_64(a: &[u64]) -> (v: Vec<u64>)
    ensures
        v@ == a@,
{
    let mut v: Vec<u64> = Vec::with_capacity(a.len());
    for i in 0..a.len()
        invariant
            v@ == a@.take(i as int),
    {
        v.push(a[i]);
        proof {
            assert(a@.take(i + 1) =~= a@.take(i as int).push(a@[i as int]));
        }
    }
    proof {
        assert(a@.take(a@.len() as int) =~= a@);
    }
    v
}

/// Law: the inverse transform undoes the forward transform on reduced input.
pub proof fn lemma_roundtrip(ctx: &Ntt64Context, a: Seq<u64>)
    requires
        ctx.wf(),
        a.len() == ctx.n,
        all_below64(a, ctx.q()),
    ensures
        inverse_spec(
            forward_spec(ints64(a), ctx.tw(), ctx.q(), ctx.log_n as nat),
            ctx.tw_inv(),
            ctx.n_inv as int,
            ctx.q(),
            ctx.log_n as nat,
        ) == ints64(a),
{
    assert(is_reduced(ints64(a), ctx.q())) by {
        assert forall|p: int| 0 <= p < ints64(a).len() implies 0 <= #[trigger] ints64(a)[p] < ctx.q() by {
            assert(a[p] < ctx.q());
        }
    }
    lemma_inverse_undoes_forward(ints64(a), ctx.tw(), ctx.tw_inv(), ctx.n_inv as int, ctx.q(), ctx.log_n as nat);
}

/// Law (convolution theorem): transforming, multiplying pointwise and transforming back gives
/// the negacyclic product modulo q.
pub proof fn lemma_convolution(ctx: &Ntt64Context, a: Seq<u64>, b: Seq<u64>)
    requires
        ctx.wf(),
        a.len() == ctx.n,
        b.len() == ctx.n,
    ensures
        inverse_spec(
            pointwise_mod(
                forward_spec(ints64(a), ctx.tw(), ctx.q(), ctx.log_n as nat),
                forward_spec(ints64(b), ctx.tw(), ctx.q(), ctx.log_n as nat),
                ctx.q(),
            ),
            ctx.tw_inv(),
            ctx.n_inv as int,
            ctx.q(),
            ctx.log_n as nat,
        ) == negacyclic_mod(ints64(a), ints64(b), ctx.q()),
{
    lemma_ntt_multiplies(ints64(a), ints64(b), ctx.tw(), ctx.tw_inv(), ctx.n_inv as int, ctx.q(), ctx.log_n as nat);
}

/// Law: output j of the forward transform is the input evaluated at a point z_j with
/// z_j^N ≡ −1 (mod q), a root of X^N + 1.
pub proof fn lemma_evaluation_points(ctx: &Ntt64Context, j: int)
    requires
        ctx.wf(),
        0 <= j < ctx.n,
    ensures
        pow(ntt_point(ctx.tw(), ctx.log_n as nat, j), ctx.n as nat) % ctx.q() == ctx.q() - 1,
{
    lemma_points_are_roots(ctx.tw(), ctx.q(), ctx.log_n as nat, j);
    lemma_fundamental_div_mod_converse(-1, ctx.q(), -1, ctx.q() - 1);
}

/// Law: the product that `negacyclic_mul` computes is commutative.
pub proof fn lemma_product_commutes(ctx: &Ntt64Context, a: Seq<u64>, b: Seq<u64>)
    requires
        ctx.wf(),
        a.len() == ctx.n,
        b.len() == ctx.n,
    ensures
        negacyclic_mod(ints64(a), ints64(b), ctx.q()) == negacyclic_mod(ints64(b), ints64(a), ctx.q()),
{
    lemma_negacyclic_commutative(ints64(a), ints64(b), ctx.tw(), ctx.tw_inv(), ctx.n_inv as int, ctx.q(), ctx.log_n as nat);
}

/// Law: the product that `negacyclic_mul` computes is associative.
pub proof fn lemma_product_associates(ctx: &Ntt64Context, a: Seq<u64>, b: Seq<u64>, c: Seq<u64>)
    requires
        ctx.wf(),
        a.len() == ctx.n,
        b.len() == ctx.n,
        c.len() == ctx.n,
    ensures
        negacyclic_mod(negacyclic_mod(ints64(a), ints64(b), ctx.q()), ints64(c), ctx.q()) == negacyclic_mod(
            ints64(a),
            negacyclic_mod(ints64(b), ints64(c), ctx.q()),
            ctx.q(),
        ),
{
    lemma_negacyclic_associative(
        ints64(a),
        ints64(b),
        ints64(c),
        ctx.tw(),
        ctx.tw_inv(),
        ctx.n_inv as int,
        ctx.q(),
        ctx.log_n as nat,
    );
}

/// Law: multiplying a reduced polynomial by the polynomial 1 gives it back.
pub proof fn lemma_product_identity(ctx: &Ntt64Context, a: Seq<u64>)
    requires
        ctx.wf(),
        a.len() == ctx.n,
        all_below64(a, ctx.q()),
    ensures
        negacyclic_mod(ints64(a), unit_poly(ctx.n as nat), ctx.q()) == ints64(a),
{
    assert(is_reduced(ints64(a), ctx.q())) by {
        assert forall|p: int| 0 <= p < ints64(a).len() implies 0 <= #[trigger] ints64(a)[p] < ctx.q() by {
            assert(a[p] < ctx.q());
        }
    }
    lemma_negacyclic_identity(ints64(a), ctx.tw(), ctx.tw_inv(), ctx.n_inv as int, ctx.q(), ctx.log_n as nat);
}

/// Law: the forward transform maps a sum modulo q to the sum of the transforms.
pub proof fn lemma_forward_additive(ctx: &Ntt64Context, a: Seq<u64>, b: Seq<u64>)
    requires
        ctx.wf(),
        a.len() == ctx.n,
        b.len() == ctx.n,
    ensures
        forward_spec(add_mod(ints64(a), ints64(b), ctx.q()), ctx.tw(), ctx.q(), ctx.log_n as nat) == add_mod(
            forward_spec(ints64(a), ctx.tw(), ctx.q(), ctx.log_n as nat),
            forward_spec(ints64(b), ctx.tw(), ctx.q(), ctx.log_n as nat),
            ctx.q(),
        ),
{
    lemma_forward_linear(ints64(a), ints64(b), ctx.tw(), ctx.q(), ctx.log_n as nat);
}

/// Law: the forward transform undoes the inverse transform on reduced input.
pub proof fn lemma_inverse_then_forward(ctx: &Ntt64Context, x: Seq<u64>)
    requires
        ctx.wf(),
        x.len() == ctx.n,
        all_below64(x, ctx.q()),
    ensures
        forward_spec(
            inverse_spec(ints64(x), ctx.tw_inv(), ctx.n_inv as int, ctx.q(), ctx.log_n as nat),
            ctx.tw(),
            ctx.q(),
            ctx.log_n as nat,
        ) == ints64(x),
{
    assert(is_reduced(ints64(x), ctx.q())) by {
        assert forall|p: int| 0 <= p < ints64(x).len() implies 0 <= #[trigger] ints64(x)[p] < ctx.q() by {
            assert(x[p] < ctx.q());
        }
    }
    lemma_forward_undoes_inverse(ints64(x), ctx.tw(), ctx.tw_inv(), ctx.n_inv as int, ctx.q(), ctx.log_n as nat);
}

} // verus!
