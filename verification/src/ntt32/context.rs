//! `Ntt32Context`: precomputed twiddles and Shoup quotients for one prime below 2^28.

use vstd::prelude::*;
use vstd::arithmetic::div_mod::*;
use vstd::arithmetic::power::*;
use vstd::arithmetic::power2::*;
use crate::algebra::evaluation::{lemma_forward_evaluates, ntt_point, poly_eval, tree_consistent};
use crate::algebra::negacyclic::{lemma_ntt_multiplies, negacyclic_mod, pointwise_mod};
use crate::algebra::primes::{fermat_inverse, is_prime, lemma_fermat_inverse};
use crate::algebra::transform::{forward_spec, inverse_lazy_spec, inverse_spec, twiddles_inverse};
use crate::algebra::twiddles::{
    is_power_table,
    lemma_negacyclic_root,
    negacyclic_root,
    lemma_power_table_consistent,
    lemma_power_tables_inverse,
};
use crate::bits::{is_power_of_two, power_of_two_exponent};
use crate::ntt32::prime::{is_prime_32, NttRootTable};
use crate::ntt32::scalar::{
    ntt_forward_scalar,
    ntt_inverse_scalar,
    ntt_inverse_scalar_lazy,
    ntt_pointwise_mul_scalar,
};
use crate::ntt32::shoup::{compute_qmulh, compute_shoup, qmulh_quotient, qmulh_table, shoup_quotient};
use crate::NttError;

use crate::algebra::negacyclic::{
    add_mod,
    lemma_forward_linear,
    lemma_negacyclic_associative,
    lemma_negacyclic_commutative,
    lemma_negacyclic_identity,
    unit_poly,
};
use crate::algebra::evaluation::lemma_points_are_roots;
use crate::algebra::transform::{
    gap,
    gs_stages,
    is_lower,
    is_reduced,
    lemma_gs_stages_len,
    lemma_forward_undoes_inverse,
    lemma_inverse_undoes_forward,
    twiddle_index,
};
verus! {

/// The entries of a `u32` sequence as integers.
pub open spec fn ints32(v: Seq<u32>) -> Seq<int> {
    v.map_values(|x: u32| x as int)
}

/// Every entry is below the bound.
pub open spec fn all_below32(v: Seq<u32>, bound: int) -> bool {
    forall|i: int| 0 <= i < v.len() ==> #[trigger] v[i] < bound
}

/// Every Shoup entry is the Shoup quotient of the twiddle at the same index.
pub open spec fn shoup_table(w: Seq<u32>, ws: Seq<u32>, q: int) -> bool {
    &&& ws.len() == w.len()
    &&& forall|i: int| 0 <= i < w.len() ==> #[trigger] ws[i] == shoup_quotient(w[i] as int, q)
}

/// Pre-computed NTT context for a single 28-bit prime.
///
/// Stores twiddle factors (root powers) in Longa-Naehrig ordering along
/// with their Shoup precomputed quotients for division-free multiplication.
#[derive(Debug, Clone)]
pub struct Ntt32Context {
    /// Polynomial size (power of 2)
    pub n: usize,
    /// log2(n)
    pub log_n: u32,
    /// Prime < 2^28
    pub q: u32,
    /// 2 · q — precomputed for Harvey lazy butterfly
    pub two_q: u32,
    /// Forward root powers (Longa-Naehrig ordering)
    pub root_powers: Vec<u32>,
    /// Shoup quotients for forward root powers: `floor(root_powers[i] · 2^32 / q)`
    pub root_powers_shoup: Vec<u32>,
    /// Signed doubling-multiply-high quotients for forward root powers (the vector lanes):
    /// `root_powers_qmulh[i] = floor(root_powers[i] · 2^31 / q)` as i32.
    pub root_powers_qmulh: Vec<i32>,
    /// Inverse root powers for INTT
    pub inv_root_powers: Vec<u32>,
    /// Shoup quotients for inverse root powers
    pub inv_root_powers_shoup: Vec<u32>,
    /// Signed doubling-multiply-high quotients for inverse root powers.
    pub inv_root_powers_qmulh: Vec<i32>,
    /// N^{-1} mod q — normalization factor for INTT
    pub n_inv: u32,
    /// Shoup quotient for n_inv
    pub n_inv_shoup: u32,
}

impl Ntt32Context {
    /// Forward twiddles as integers.
    pub open spec fn tw(&self) -> Seq<int> {
        ints32(self.root_powers@)
    }

    /// Inverse twiddles as integers.
    pub open spec fn tw_inv(&self) -> Seq<int> {
        ints32(self.inv_root_powers@)
    }

    /// The context is well formed: sizes agree, every table is reduced and carries its Shoup
    /// quotients, the forward twiddles form a tree of square roots down from -1, the twiddles
    /// are pairwise inverse and N^-1 is the inverse of N, modulo a prime q below 2^28 with
    /// q ≡ 1 (mod 2N).
    pub open spec fn wf(&self) -> bool {
        &&& 1 <= self.log_n <= 27
        &&& self.n == pow2(self.log_n as nat)
        &&& self.q < 0x1000_0000
        &&& is_prime(self.q as int)
        &&& (self.q - 1) % (2 * self.n as int) == 0
        &&& self.two_q == 2 * self.q
        &&& self.root_powers@.len() == self.n
        &&& self.inv_root_powers@.len() == self.n
        &&& all_below32(self.root_powers@, self.q as int)
        &&& all_below32(self.inv_root_powers@, self.q as int)
        &&& shoup_table(self.root_powers@, self.root_powers_shoup@, self.q as int)
        &&& shoup_table(self.inv_root_powers@, self.inv_root_powers_shoup@, self.q as int)
        &&& qmulh_table(self.root_powers@, self.root_powers_qmulh@, self.q as int)
        &&& qmulh_table(self.inv_root_powers@, self.inv_root_powers_qmulh@, self.q as int)
        &&& self.n_inv < self.q
        &&& self.n_inv_shoup == shoup_quotient(self.n_inv as int, self.q as int)
        &&& tree_consistent(self.tw(), self.q as int, self.log_n as nat)
        &&& twiddles_inverse(self.tw(), self.tw_inv(), self.q as int, self.n as int)
        &&& (self.n * self.n_inv) % (self.q as int) == 1
    }

    /// The context is the one built for size n and modulus q: well formed, with the powers of
    /// the root `negacyclic_root(n, q)` and of its inverse as twiddles, and N^-1 = N^(q-2).
    pub open spec fn built_for(&self, n: int, q: int) -> bool {
        let psi = negacyclic_root(n, q);
        &&& self.wf()
        &&& self.n == n
        &&& self.q == q
        &&& is_power_table(self.tw(), psi, q, self.log_n as nat)
        &&& is_power_table(self.tw_inv(), fermat_inverse(psi, q), q, self.log_n as nat)
        &&& self.n_inv == fermat_inverse(n, q)
    }

    /// Fallible constructor for an NTT context for a 28-bit prime.
    ///
    /// Validates all preconditions and returns an error instead of panicking:
    /// - `InvalidSize(n)` if `n` is not a power of 2 ≥ 2;
    /// - `PrimeTooLarge(q)` if `q ≥ 2^28`;
    /// - `NotPrime(q)` if `q` is not prime;
    /// - `NotNttFriendly { q, n }` if `(q - 1)` is not divisible by `2N`.
    pub fn try_new(n: usize, q: u32) -> (r: Result<Self, NttError>)
        ensures
            !(n >= 2 && is_power_of_two(n as int)) ==> r == Err::<Self, NttError>(
                NttError::InvalidSize(n),
            ),
            n >= 2 && is_power_of_two(n as int) && q >= 0x1000_0000 ==> r == Err::<Self, NttError>(
                NttError::PrimeTooLarge(q as u64),
            ),
            n >= 2 && is_power_of_two(n as int) && q < 0x1000_0000 && !is_prime(q as int) ==> r
                == Err::<Self, NttError>(NttError::NotPrime(q as u64)),
            n >= 2 && is_power_of_two(n as int) && q < 0x1000_0000 && is_prime(q as int) && (q - 1)
                % (2 * n as int) != 0 ==> r == Err::<Self, NttError>(
                NttError::NotNttFriendly { q: q as u64, n },
            ),
            r is Ok <==> n >= 2 && is_power_of_two(n as int) && q < 0x1000_0000 && is_prime(q as int)
                && (q - 1) % (2 * n as int) == 0,
            r matches Ok(ctx) ==> ctx.built_for(n as int, q as int),
    {
        if n < 2 {
            return Err(NttError::InvalidSize(n));
        }
        let log_n = match power_of_two_exponent(n) {
            Some(k) => k,
            None => {
                return Err(NttError::InvalidSize(n));
            },
        };
        proof {
            assert(1u32 << 28u32 == 0x1000_0000) by (bit_vector);
        }
        if q >= (1u32 << 28) {
            return Err(NttError::PrimeTooLarge(q as u64));
        }
        if !is_prime_32(q) {
            return Err(NttError::NotPrime(q as u64));
        }
        let q_minus_1 = (q - 1) as usize;
        if n > q_minus_1 / 2 || !q_minus_1.is_multiple_of(2 * n) {
            proof {
                if n > q_minus_1 / 2 {
                    lemma_small_mod(q_minus_1 as nat, (2 * n) as nat);
                }
            }
            return Err(NttError::NotNttFriendly { q: q as u64, n });
        }
        proof {
            lemma2_to64();
            if log_n > 27 {
                lemma_pow2_strictly_increases(27, log_n as nat);
            }
        }
        // All preconditions verified: build the root table
        let base = NttRootTable::search(n, log_n, q);
        let root_powers_shoup = shoup_quotients(&base.root_powers, q);
        let inv_root_powers_shoup = shoup_quotients(&base.inv_root_powers, q);
        let root_powers_qmulh = qmulh_quotients(&base.root_powers, q);
        let inv_root_powers_qmulh = qmulh_quotients(&base.inv_root_powers, q);
        proof {
            lemma_mod_bound(pow(n as int, (q - 2) as nat), q as int);
        }
        let n_inv_shoup = compute_shoup(base.n_inv, q);
        let ctx = Ntt32Context {
            n,
            log_n: base.log_n,
            q,
            two_q: 2 * q,
            root_powers: base.root_powers,
            root_powers_shoup,
            root_powers_qmulh,
            inv_root_powers: base.inv_root_powers,
            inv_root_powers_shoup,
            inv_root_powers_qmulh,
            n_inv: base.n_inv,
            n_inv_shoup,
        };
        proof {
            let psi = negacyclic_root(n as int, q as int);
            lemma_negacyclic_root(n as nat, q as int);
            assert((-1) % (q as int) == q - 1) by {
                lemma_fundamental_div_mod_converse(-1, q as int, -1, q - 1);
            }
            lemma_power_table_consistent(ctx.tw(), psi, q as int, log_n as nat);
            lemma_small_mod(psi as nat, q as nat);
            lemma_fermat_inverse(psi, q as int);
            lemma_power_tables_inverse(
                ctx.tw(),
                ctx.tw_inv(),
                psi,
                fermat_inverse(psi, q as int),
                q as int,
                log_n as nat,
            );
            lemma_small_mod(n as nat, q as nat);
            lemma_fermat_inverse(n as int, q as int);
        }
        Ok(ctx)
    }

    /// Creates a new NTT context for a 28-bit prime.
    ///
    /// Computes primitive roots, twiddle factors (Longa-Naehrig ordering),
    /// and precomputes all Shoup quotients.
    pub fn new(n: usize, q: u32) -> (ctx: Self)
        requires
            n >= 2,
            is_power_of_two(n as int),
            q < 0x1000_0000,
            is_prime(q as int),
            (q - 1) % (2 * n as int) == 0,
        ensures
            ctx.built_for(n as int, q as int),
    {
        Self::try_new(n, q).expect("Invalid NTT parameters")
    }

    /// Applies the NTT forward transform in-place.
    ///
    /// Output j is the input polynomial evaluated at the j-th root of X^N + 1
    /// (bit-reversed order), reduced modulo q.
    pub fn forward(&self, data: &mut [u32])
        requires
            self.wf(),
            old(data)@.len() == self.n,
            all_below32(old(data)@, self.q as int),
        ensures
            final(data)@.len() == self.n,
            all_below32(final(data)@, self.q as int),
            ints32(final(data)@) == forward_spec(
                ints32(old(data)@),
                self.tw(),
                self.q as int,
                self.log_n as nat,
            ),
            forall|j: int|
                0 <= j < self.n ==> #[trigger] final(data)@[j] as int == poly_eval(
                    ints32(old(data)@),
                    ntt_point(self.tw(), self.log_n as nat, j),
                ) % (self.q as int),
    {
        let ghost a = ints32(data@);
        ntt_forward_scalar(data, self);
        proof {
            assert forall|j: int| 0 <= j < self.n implies #[trigger] data@[j] as int == poly_eval(
                a,
                ntt_point(self.tw(), self.log_n as nat, j),
            ) % (self.q as int) by {
                lemma_forward_evaluates(a, self.tw(), self.q as int, self.log_n as nat, j);
                assert(ints32(data@)[j] == data@[j] as int);
            }
        }
    }

    /// Applies the NTT inverse transform in-place (with N⁻¹ normalization).
    ///
    /// Output coefficients are fully normalized to `[0, q)`.
    pub fn inverse(&self, data: &mut [u32])
        requires
            self.wf(),
            old(data)@.len() == self.n,
            all_below32(old(data)@, self.q as int),
        ensures
            final(data)@.len() == self.n,
            all_below32(final(data)@, self.q as int),
            ints32(final(data)@) == inverse_spec(
                ints32(old(data)@),
                self.tw_inv(),
                self.n_inv as int,
                self.q as int,
                self.log_n as nat,
            ),
    {
        ntt_inverse_scalar(data, self);
    }

    /// Applies the NTT inverse transform **without** N⁻¹ normalization.
    ///
    /// Output coefficients are scaled by N relative to the true INTT.
    pub fn inverse_lazy(&self, data: &mut [u32])
        requires
            self.wf(),
            old(data)@.len() == self.n,
            all_below32(old(data)@, self.q as int),
        ensures
            final(data)@.len() == self.n,
            all_below32(final(data)@, self.q as int),
            ints32(final(data)@) == inverse_lazy_spec(
                ints32(old(data)@),
                self.tw_inv(),
                self.q as int,
                self.log_n as nat,
            ),
    {
        ntt_inverse_scalar_lazy(data, self);
    }

    /// Returns N⁻¹ mod q — useful for manual normalization after `inverse_lazy()`.
    pub fn n_inv(&self) -> (r: u32)
        ensures
            r == self.n_inv,
    {
        self.n_inv
    }

    /// Returns the Shoup quotient for N⁻¹ — for manual Shoup normalization.
    pub fn n_inv_shoup(&self) -> (r: u32)
        ensures
            r == self.n_inv_shoup,
    {
        self.n_inv_shoup
    }

    /// Pointwise multiplication of two vectors in the NTT domain.
    ///
    /// Computes `result[i] = a[i] · b[i] mod q` for each coefficient.
    pub fn pointwise_mul(&self, a: &[u32], b: &[u32], result: &mut [u32])
        requires
            self.wf(),
            a@.len() == self.n,
            b@.len() == self.n,
            old(result)@.len() == self.n,
        ensures
            final(result)@.len() == self.n,
            ints32(final(result)@) == pointwise_mod(ints32(a@), ints32(b@), self.q as int),
    {
        ntt_pointwise_mul_scalar(a, b, result, self.q, self.n);
        proof {
            assert(ints32(result@) =~= pointwise_mod(ints32(a@), ints32(b@), self.q as int));
        }
    }

    /// Negacyclic polynomial multiplication in Z_q\[X\]/(X^N + 1).
    ///
    /// Computes `result = a · b mod (X^N + 1)` using forward NTT,
    /// pointwise multiplication, and inverse NTT.
    pub fn negacyclic_mul(&self, a: &[u32], b: &[u32]) -> (result: Vec<u32>)
        requires
            self.wf(),
            a@.len() == self.n,
            b@.len() == self.n,
            all_below32(a@, self.q as int),
            all_below32(b@, self.q as int),
        ensures
            ints32(result@) == negacyclic_mod(ints32(a@), ints32(b@), self.q as int),
    {
        let n = self.n;
        let mut a_buf = copy_of(a);
        let mut b_buf = copy_of(b);
        let mut result = vec![0u32; n];
        self.negacyclic_mul_into(&mut a_buf, &mut b_buf, &mut result);
        result
    }

    /// Zero-allocation negacyclic multiplication.
    ///
    /// After the call, `a_buf` and `b_buf` hold the forward transforms of the inputs and
    /// `result` holds the product `a · b mod (X^N + 1)` in coefficient form.
    pub fn negacyclic_mul_into(&self, a_buf: &mut [u32], b_buf: &mut [u32], result: &mut [u32])
        requires
            self.wf(),
            old(a_buf)@.len() == self.n,
            old(b_buf)@.len() == self.n,
            old(result)@.len() == self.n,
            all_below32(old(a_buf)@, self.q as int),
            all_below32(old(b_buf)@, self.q as int),
        ensures
            final(result)@.len() == self.n,
            ints32(final(result)@) == negacyclic_mod(
                ints32(old(a_buf)@),
                ints32(old(b_buf)@),
                self.q as int,
            ),
            ints32(final(a_buf)@) == forward_spec(
                ints32(old(a_buf)@),
                self.tw(),
                self.q as int,
                self.log_n as nat,
            ),
            ints32(final(b_buf)@) == forward_spec(
                ints32(old(b_buf)@),
                self.tw(),
                self.q as int,
                self.log_n as nat,
            ),
    {
        self.forward(a_buf);
        self.forward(b_buf);
        self.pointwise_mul(a_buf, b_buf, result);
        proof {
            let q = self.q as int;
            assert forall|i: int| 0 <= i < result@.len() implies #[trigger] result@[i] < q by {
                assert(ints32(result@)[i] == result@[i] as int);
                lemma_mod_bound(a_buf@[i] * b_buf@[i], q);
            }
        }
        self.inverse(result);
        proof {
            lemma_ntt_multiplies(
                ints32(old(a_buf)@),
                ints32(old(b_buf)@),
                self.tw(),
                self.tw_inv(),
                self.n_inv as int,
                self.q as int,
                self.log_n as nat,
            );
        }
    }
}

/// The doubling-multiply-high quotient of every entry of a reduced table.
fn qmulh_quotients(w: &Vec<u32>, q: u32) -> (wq: Vec<i32>)
    requires
        all_below32(w@, q as int),
    ensures
        qmulh_table(w@, wq@, q as int),
{
    let mut wq: Vec<i32> = Vec::with_capacity(w.len());
    for i in 0..w.len()
        invariant
            all_below32(w@, q as int),
            wq@.len() == i,
            forall|k: int| 0 <= k < i ==> #[trigger] wq@[k] as int == qmulh_quotient(w@[k] as int, q as int),
    {
        wq.push(compute_qmulh(w[i], q));
    }
    wq
}

/// A fresh vector with the entries of a slice.
fn copy_of(a: &[u32]) -> (v: Vec<u32>)
    ensures
        v@ == a@,
{
    let mut v: Vec<u32> = Vec::with_capacity(a.len());
    for i in 0..a.len()
        invariant
            v@ == a@.take(i as int),
    {
        v.push(a[i]);
        proof {
            assert(a@.take(i + 1) =~= a@.take(i as int).push(a@[i as int]));
        }
    }
    proof {
        assert(a@.take(a@.len() as int) =~= a@);
    }
    v
}

/// The Shoup quotient of every entry of a reduced table.
fn shoup_quotients(w: &Vec<u32>, q: u32) -> (ws: Vec<u32>)
    requires
        q < 0x1000_0000,
        all_below32(w@, q as int),
    ensures
        shoup_table(w@, ws@, q as int),
{
    let mut ws: Vec<u32> = Vec::with_capacity(w.len());
    for i in 0..w.len()
        invariant
            q < 0x1000_0000,
            all_below32(w@, q as int),
            ws@.len() == i,
            forall|k: int| 0 <= k < i ==> #[trigger] ws@[k] == shoup_quotient(w@[k] as int, q as int),
    {
        ws.push(compute_shoup(w[i], q));
    }
    ws
}

/// Law: the inverse transform undoes the forward transform on reduced input.
pub proof fn lemma_roundtrip(ctx: &Ntt32Context, a: Seq<u32>)
    requires
        ctx.wf(),
        a.len() == ctx.n,
        all_below32(a, ctx.q as int),
    ensures
        inverse_spec(
            forward_spec(ints32(a), ctx.tw(), ctx.q as int, ctx.log_n as nat),
            ctx.tw_inv(),
            ctx.n_inv as int,
            ctx.q as int,
            ctx.log_n as nat,
        ) == ints32(a),
{
    assert(is_reduced(ints32(a), ctx.q as int)) by {
        assert forall|p: int| 0 <= p < ints32(a).len() implies 0 <= #[trigger] ints32(a)[p] < ctx.q as int by {
            assert(a[p] < ctx.q as int);
        }
    }
    lemma_inverse_undoes_forward(ints32(a), ctx.tw(), ctx.tw_inv(), ctx.n_inv as int, ctx.q as int, ctx.log_n as nat);
}

/// Law (convolution theorem): transforming, multiplying pointwise and transforming back gives
/// the negacyclic product modulo q.
pub proof fn lemma_convolution(ctx: &Ntt32Context, a: Seq<u32>, b: Seq<u32>)
    requires
        ctx.wf(),
        a.len() == ctx.n,
        b.len() == ctx.n,
    ensures
        inverse_spec(
            pointwise_mod(
                forward_spec(ints32(a), ctx.tw(), ctx.q as int, ctx.log_n as nat),
                forward_spec(ints32(b), ctx.tw(), ctx.q as int, ctx.log_n as nat),
                ctx.q as int,
            ),
            ctx.tw_inv(),
            ctx.n_inv as int,
            ctx.q as int,
            ctx.log_n as nat,
        ) == negacyclic_mod(ints32(a), ints32(b), ctx.q as int),
{
    lemma_ntt_multiplies(ints32(a), ints32(b), ctx.tw(), ctx.tw_inv(), ctx.n_inv as int, ctx.q as int, ctx.log_n as nat);
}

/// Law: output j of the forward transform is the input evaluated at a point z_j with
/// z_j^N ≡ −1 (mod q), a root of X^N + 1.
pub proof fn lemma_evaluation_points(ctx: &Ntt32Context, j: int)
    requires
        ctx.wf(),
        0 <= j < ctx.n,
    ensures
        pow(ntt_point(ctx.tw(), ctx.log_n as nat, j), ctx.n as nat) % ctx.q as int == ctx.q as int - 1,
{
    lemma_points_are_roots(ctx.tw(), ctx.q as int, ctx.log_n as nat, j);
    lemma_fundamental_div_mod_converse(-1, ctx.q as int, -1, ctx.q as int - 1);
}

/// Law: the product that `negacyclic_mul` computes is commutative.
pub proof fn lemma_product_commutes(ctx: &Ntt32Context, a: Seq<u32>, b: Seq<u32>)
    requires
        ctx.wf(),
        a.len() == ctx.n,
        b.len() == ctx.n,
    ensures
        negacyclic_mod(ints32(a), ints32(b), ctx.q as int) == negacyclic_mod(ints32(b), ints32(a), ctx.q as int),
{
    lemma_negacyclic_commutative(ints32(a), ints32(b), ctx.tw(), ctx.tw_inv(), ctx.n_inv as int, ctx.q as int, ctx.log_n as nat);
}

/// Law: the product that `negacyclic_mul` computes is associative.
pub proof fn lemma_product_associates(ctx: &Ntt32Context, a: Seq<u32>, b: Seq<u32>, c: Seq<u32>)
    requires
        ctx.wf(),
        a.len() == ctx.n,
        b.len() == ctx.n,
        c.len() == ctx.n,
    ensures
        negacyclic_mod(negacyclic_mod(ints32(a), ints32(b), ctx.q as int), ints32(c), ctx.q as int) == negacyclic_mod(
            ints32(a),
            negacyclic_mod(ints32(b), ints32(c), ctx.q as int),
            ctx.q as int,
        ),
{
    lemma_negacyclic_associative(
        ints32(a),
        ints32(b),
        ints32(c),
        ctx.tw(),
        ctx.tw_inv(),
        ctx.n_inv as int,
        ctx.q as int,
        ctx.log_n as nat,
    );
}

/// Law: multiplying a reduced polynomial by the polynomial 1 gives it back.
pub proof fn lemma_product_identity(ctx: &Ntt32Context, a: Seq<u32>)
    requires
        ctx.wf(),
        a.len() == ctx.n,
        all_below32(a, ctx.q as int),
    ensures
        negacyclic_mod(ints32(a), unit_poly(ctx.n as nat), ctx.q as int) == ints32(a),
{
    assert(is_reduced(ints32(a), ctx.q as int)) by {
        assert forall|p: int| 0 <= p < ints32(a).len() implies 0 <= #[trigger] ints32(a)[p] < ctx.q as int by {
            assert(a[p] < ctx.q as int);
        }
    }
    lemma_negacyclic_identity(ints32(a), ctx.tw(), ctx.tw_inv(), ctx.n_inv as int, ctx.q as int, ctx.log_n as nat);
}

/// Law: the forward transform maps a sum modulo q to the sum of the transforms.
pub proof fn lemma_forward_additive(ctx: &Ntt32Context, a: Seq<u32>, b: Seq<u32>)
    requires
        ctx.wf(),
        a.len() == ctx.n,
        b.len() == ctx.n,
    ensures
        forward_spec(add_mod(ints32(a), ints32(b), ctx.q as int), ctx.tw(), ctx.q as int, ctx.log_n as nat) == add_mod(
            forward_spec(ints32(a), ctx.tw(), ctx.q as int, ctx.log_n as nat),
            forward_spec(ints32(b), ctx.tw(), ctx.q as int, ctx.log_n as nat),
            ctx.q as int,
        ),
{
    lemma_forward_linear(ints32(a), ints32(b), ctx.tw(), ctx.q as int, ctx.log_n as nat);
}

/// Law: `inverse_lazy` gives N times what `inverse` gives, modulo q.
pub proof fn lemma_lazy_inverse_is_scaled(ctx: &Ntt32Context, x: Seq<u32>, p: int)
    requires
        ctx.wf(),
        x.len() == ctx.n,
        0 <= p < ctx.n,
    ensures
        inverse_lazy_spec(ints32(x), ctx.tw_inv(), ctx.q as int, ctx.log_n as nat)[p] == (
        inverse_spec(ints32(x), ctx.tw_inv(), ctx.n_inv as int, ctx.q as int, ctx.log_n as nat)[p]
            * ctx.n) % (ctx.q as int),
{
    let q = ctx.q as int;
    let lg = ctx.log_n as nat;
    let lazy = inverse_lazy_spec(ints32(x), ctx.tw_inv(), q, lg);
    lemma_gs_stages_len(ints32(x), ctx.tw_inv(), q, lg, lg);
    let prev = gs_stages(ints32(x), ctx.tw_inv(), q, lg, (lg - 1) as nat);
    lemma_gs_stages_len(ints32(x), ctx.tw_inv(), q, lg, (lg - 1) as nat);
    // the last layer reduces every entry
    assert(0 <= lazy[p] < q) by {
        let t = gap(lg, 0);
        let wi = ctx.tw_inv()[twiddle_index(lg, 0, p)];
        if is_lower(lg, 0, p) {
            lemma_mod_bound(prev[p] + prev[p + t], q);
        } else {
            lemma_mod_bound((prev[p - t] - prev[p]) * wi, q);
        }
    }
    // (lazy · N⁻¹ mod q) · N ≡ lazy · (N⁻¹ · N) ≡ lazy
    let ni = ctx.n_inv as int;
    let n = ctx.n as int;
    lemma_mul_mod_noop_left(lazy[p] * ni, n, q);
    assert((lazy[p] * ni) * n == lazy[p] * (n * ni)) by (nonlinear_arith);
    lemma_mul_mod_noop_right(lazy[p], n * ni, q);
    lemma_small_mod(lazy[p] as nat, q as nat);
}

/// Law: the forward transform undoes the inverse transform on reduced input.
pub proof fn lemma_inverse_then_forward(ctx: &Ntt32Context, x: Seq<u32>)
    requires
        ctx.wf(),
        x.len() == ctx.n,
        all_below32(x, ctx.q as int),
    ensures
        forward_spec(
            inverse_spec(ints32(x), ctx.tw_inv(), ctx.n_inv as int, ctx.q as int, ctx.log_n as nat),
            ctx.tw(),
            ctx.q as int,
            ctx.log_n as nat,
        ) == ints32(x),
{
    assert(is_reduced(ints32(x), ctx.q as int)) by {
        assert forall|p: int| 0 <= p < ints32(x).len() implies 0 <= #[trigger] ints32(x)[p] < ctx.q as int by {
            assert(x[p] < ctx.q as int);
        }
    }
    lemma_forward_undoes_inverse(ints32(x), ctx.tw(), ctx.tw_inv(), ctx.n_inv as int, ctx.q as int, ctx.log_n as nat);
}

/// Law: a context built for (n, q) is unique, field by field. `new(n, q)` and the `Ok` of
/// `try_new(n, q)` are both built for (n, q), so `new` gives what `try_new(..).unwrap()` gives.
pub proof fn lemma_built_for_unique(a: &Ntt32Context, b: &Ntt32Context, n: int, q: int)
    requires
        a.built_for(n, q),
        b.built_for(n, q),
    ensures
        a.n == b.n,
        a.log_n == b.log_n,
        a.q == b.q,
        a.two_q == b.two_q,
        a.root_powers@ == b.root_powers@,
        a.root_powers_shoup@ == b.root_powers_shoup@,
        a.inv_root_powers@ == b.inv_root_powers@,
        a.inv_root_powers_shoup@ == b.inv_root_powers_shoup@,
        a.root_powers_qmulh@ == b.root_powers_qmulh@,
        a.inv_root_powers_qmulh@ == b.inv_root_powers_qmulh@,
        a.n_inv == b.n_inv,
        a.n_inv_shoup == b.n_inv_shoup,
{
    if a.log_n < b.log_n {
        lemma_pow2_strictly_increases(a.log_n as nat, b.log_n as nat);
    } else if b.log_n < a.log_n {
        lemma_pow2_strictly_increases(b.log_n as nat, a.log_n as nat);
    }
    assert forall|k: int| 0 <= k < a.root_powers@.len() implies a.root_powers@[k] == b.root_powers@[k] by {
        assert(a.tw()[k] == b.tw()[k]);
    }
    assert(a.root_powers@ =~= b.root_powers@);
    assert forall|k: int| 0 <= k < a.inv_root_powers@.len() implies a.inv_root_powers@[k]
        == b.inv_root_powers@[k] by {
        assert(a.tw_inv()[k] == b.tw_inv()[k]);
    }
    assert(a.inv_root_powers@ =~= b.inv_root_powers@);
    assert(a.root_powers_shoup@ =~= b.root_powers_shoup@);
    assert(a.inv_root_powers_shoup@ =~= b.inv_root_powers_shoup@);
    assert(a.root_powers_qmulh@ =~= b.root_powers_qmulh@);
    assert(a.inv_root_powers_qmulh@ =~= b.inv_root_powers_qmulh@);
}

} // verus!
