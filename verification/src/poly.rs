//! Polynomials over Z_q\[X\]/(X^N + 1).
//!
//! Polynomials are stored in coefficient domain by default.
//! Use [`Poly64::forward_ntt`] / [`Poly64::inverse_ntt`] to switch between
//! coefficient and NTT (evaluation) domains.
//!
//! In NTT domain, multiplication is pointwise O(N) instead of O(N²).

use vstd::prelude::*;
use vstd::arithmetic::div_mod::*;
use vstd::arithmetic::mul::*;
use rand::rngs::ThreadRng;
use rand::Rng;
use crate::algebra::transform::{forward_spec, inverse_spec};
use crate::ntt64::arith::{mod_mul_barrett, two64, Ntt64Arith};
use crate::ntt64::context::{all_below64, copy_of_64, ints64, ntt_forward, ntt_inverse, Ntt64Context};

verus! {

/// The thread-local generator of `rand`, seeded by the operating system.
#[verifier::external_type_specification]
#[verifier::external_body]
pub struct ExThreadRng(ThreadRng);

/// `rand::thread_rng()`: a handle to the thread-local generator. It panics only where the
/// operating system refuses to seed it; nothing is claimed of its state.
#[verifier::external_body]
fn thread_rng() -> ThreadRng {
    rand::thread_rng()
}

/// `Rng::gen_range(0..bound)` on `u64`: a value drawn uniformly from `[0, bound)`. The range
/// is not empty, so the empty-range check cannot fire; the generator can still panic where the
/// operating system refuses to reseed it. That the value is below `bound` is all that is
/// claimed of it.
#[verifier::external_body]
fn gen_below(rng: &mut ThreadRng, bound: u64) -> (r: u64)
    requires
        bound > 0,
    ensures
        r < bound,
{
    rng.gen_range(0..bound)
}

/// What `self += other` leaves in one slot: the sum, less q where it reaches q.
pub open spec fn add_reduce(a: int, b: int, q: int) -> int {
    if a + b >= q {
        a + b - q
    } else {
        a + b
    }
}

/// What `self -= other` leaves in one slot: the difference, plus q where it is negative,
/// modulo 2^64.
pub open spec fn sub_reduce(a: int, b: int, q: int) -> int {
    if a >= b {
        a - b
    } else {
        (a - b + q + two64()) % two64()
    }
}

/// The coefficient that a ternary draw in {0, 1, 2} stands for: 0, 1 or q − 1 (that is −1).
pub open spec fn ternary_value(draw: int, q: int) -> int {
    if draw == 0 {
        0
    } else if draw == 1 {
        1
    } else {
        q - 1
    }
}

/// The residue of a signed integer in [0, q).
pub fn signed_residue(value: i64, q: u64) -> (r: u64)
    requires
        q > 0,
    ensures
        r == (value as int) % (q as int),
{
    if value >= 0 {
        (value as u64) % q
    } else {
        let abs_val = (0i128 - value as i128) as u64;
        let r = abs_val % q;
        proof {
            let a = abs_val as int;
            let qi = q as int;
            lemma_fundamental_div_mod(a, qi);
            lemma_mod_bound(a, qi);
            assert(a == -(value as int));
            let c = a / qi;
            assert((-c) * qi == -(qi * c)) by (nonlinear_arith);
            assert((-c - 1) * qi == -(qi * c) - qi) by (nonlinear_arith);
            if r == 0 {
                lemma_fundamental_div_mod_converse(value as int, qi, -(a / qi), 0);
            } else {
                lemma_fundamental_div_mod_converse(value as int, qi, -(a / qi) - 1, qi - r);
            }
        }
        if r == 0 {
            0
        } else {
            q - r
        }
    }
}

/// Polynomial in R_q = Z_q\[X\]/(X^N + 1) with 64-bit coefficients.
///
/// Tracks whether the data is in coefficient domain or NTT (evaluation) domain.
/// In NTT domain, multiplication is pointwise (O(N) instead of O(N²)).
#[derive(Clone, Debug)]
pub struct Poly64 {
    /// Coefficients (coefficient domain) or evaluations (NTT domain).
    pub data: Vec<u64>,
    /// `true` if the polynomial is in NTT (evaluation) domain.
    pub is_ntt: bool,
}

impl Poly64 {
    /// The coefficients (or evaluations) as integers.
    pub open spec fn coeffs(&self) -> Seq<int> {
        ints64(self.data@)
    }

    /// Creates the zero polynomial with N coefficients.
    pub fn new_zero(n: usize) -> (p: Self)
        ensures
            p.data@ == Seq::new(n as nat, |i: int| 0u64),
            !p.is_ntt,
    {
        let p = Poly64 { data: vec![0u64; n], is_ntt: false };
        proof {
            assert(p.data@ =~= Seq::new(n as nat, |i: int| 0u64));
        }
        p
    }

    /// Creates a polynomial with uniform random coefficients in [0, q).
    pub fn new_random(n: usize, arith: &Ntt64Arith) -> (p: Self)
        requires
            arith.wf(),
        ensures
            p.data@.len() == n,
            all_below64(p.data@, arith.q()),
            !p.is_ntt,
    {
        let mut rng = thread_rng();
        let q = arith.modulus;
        let mut data: Vec<u64> = Vec::with_capacity(n);
        for i in 0..n
            invariant
                arith.wf(),
                q == arith.modulus,
                data@.len() == i,
                all_below64(data@, q as int),
        {
            let c = gen_below(&mut rng, q);
            data.push(c);
        }
        Poly64 { data, is_ntt: false }
    }

    /// Creates a ternary polynomial with coefficients in {0, 1, q−1}.
    ///
    /// q−1 represents −1 mod q. The distribution is uniform over {−1, 0, 1}.
    /// Used for secret keys in CKKS/BFV.
    pub fn new_ternary(n: usize, arith: &Ntt64Arith) -> (p: Self)
        requires
            arith.wf(),
        ensures
            p.data@.len() == n,
            forall|i: int|
                0 <= i < n ==> (#[trigger] p.data@[i] == 0 || p.data@[i] == 1 || p.data@[i]
                    == arith.q() - 1),
            !p.is_ntt,
    {
        let mut rng = thread_rng();
        let q = arith.modulus;
        let mut data: Vec<u64> = Vec::with_capacity(n);
        for i in 0..n
            invariant
                arith.wf(),
                q == arith.modulus,
                data@.len() == i,
                forall|k: int|
                    0 <= k < i ==> (#[trigger] data@[k] == 0 || data@[k] == 1 || data@[k] == q - 1),
        {
            let draw = gen_below(&mut rng, 3);
            data.push(ternary_coefficient(draw, q));
        }
        Poly64 { data, is_ntt: false }
    }

    /// Converts from coefficient domain to NTT domain (in-place).
    ///
    /// The polynomial must be in coefficient domain.
    pub fn forward_ntt(&mut self, ntt_ctx: &Ntt64Context)
        requires
            ntt_ctx.wf(),
            !old(self).is_ntt,
            old(self).data@.len() == ntt_ctx.n,
            all_below64(old(self).data@, ntt_ctx.q()),
        ensures
            final(self).is_ntt,
            final(self).data@.len() == ntt_ctx.n,
            all_below64(final(self).data@, ntt_ctx.q()),
            final(self).coeffs() == forward_spec(
                old(self).coeffs(),
                ntt_ctx.tw(),
                ntt_ctx.q(),
                ntt_ctx.log_n as nat,
            ),
    {
        ntt_forward(&mut self.data, ntt_ctx);
        self.is_ntt = true;
    }

    /// Converts from NTT domain to coefficient domain (in-place).
    ///
    /// The polynomial must be in NTT domain.
    pub fn inverse_ntt(&mut self, ntt_ctx: &Ntt64Context)
        requires
            ntt_ctx.wf(),
            old(self).is_ntt,
            old(self).data@.len() == ntt_ctx.n,
            all_below64(old(self).data@, ntt_ctx.q()),
        ensures
            !final(self).is_ntt,
            final(self).data@.len() == ntt_ctx.n,
            all_below64(final(self).data@, ntt_ctx.q()),
            final(self).coeffs() == inverse_spec(
                old(self).coeffs(),
                ntt_ctx.tw_inv(),
                ntt_ctx.n_inv as int,
                ntt_ctx.q(),
                ntt_ctx.log_n as nat,
            ),
    {
        ntt_inverse(&mut self.data, ntt_ctx);
        self.is_ntt = false;
    }

    /// Pointwise addition: `self += other (mod q)`.
    ///
    /// Both polynomials must be in the same domain and have the same size.
    pub fn add_assign(&mut self, other: &Poly64, arith: &Ntt64Arith)
        requires
            old(self).is_ntt == other.is_ntt,
            old(self).data@.len() == other.data@.len(),
            forall|i: int|
                0 <= i < other.data@.len() ==> #[trigger] old(self).data@[i] + other.data@[i]
                    <= u64::MAX,
        ensures
            final(self).is_ntt == old(self).is_ntt,
            final(self).data@.len() == old(self).data@.len(),
            forall|i: int|
                0 <= i < other.data@.len() ==> #[trigger] final(self).data@[i] as int == add_reduce(
                    old(self).data@[i] as int,
                    other.data@[i] as int,
                    arith.q(),
                ),
    {
        let q = arith.modulus;
        let len = self.data.len();
        for i in 0..len
            invariant
                q == arith.modulus,
                len == self.data@.len(),
                len == other.data@.len(),
                self.is_ntt == old(self).is_ntt,
                forall|k: int| 0 <= k < len ==> #[trigger] old(self).data@[k] + other.data@[k] <= u64::MAX,
                forall|k: int|
                    0 <= k < i ==> #[trigger] self.data@[k] as int == add_reduce(
                        old(self).data@[k] as int,
                        other.data@[k] as int,
                        q as int,
                    ),
                forall|k: int| i <= k < len ==> #[trigger] self.data@[k] == old(self).data@[k],
        {
            let b = other.data[i];
            let sum = self.data[i] + b;
            // sum ≥ q → no borrow → sum − q
            let borrow = sum < q;
            let sub = sum.wrapping_sub(q);
            let v = if borrow {
                sum
            } else {
                sub
            };
            self.data.set(i, v);
        }
    }

    /// Pointwise subtraction: `self -= other (mod q)`.
    ///
    /// Both polynomials must be in the same domain and have the same size.
    pub fn sub_assign(&mut self, other: &Poly64, arith: &Ntt64Arith)
        requires
            old(self).is_ntt == other.is_ntt,
            old(self).data@.len() == other.data@.len(),
        ensures
            final(self).is_ntt == old(self).is_ntt,
            final(self).data@.len() == old(self).data@.len(),
            forall|i: int|
                0 <= i < other.data@.len() ==> #[trigger] final(self).data@[i] as int == sub_reduce(
                    old(self).data@[i] as int,
                    other.data@[i] as int,
                    arith.q(),
                ),
    {
        let q = arith.modulus;
        let len = self.data.len();
        for i in 0..len
            invariant
                q == arith.modulus,
                len == self.data@.len(),
                len == other.data@.len(),
                self.is_ntt == old(self).is_ntt,
                forall|k: int|
                    0 <= k < i ==> #[trigger] self.data@[k] as int == sub_reduce(
                        old(self).data@[k] as int,
                        other.data@[k] as int,
                        q as int,
                    ),
                forall|k: int| i <= k < len ==> #[trigger] self.data@[k] == old(self).data@[k],
        {
            let a = self.data[i];
            let b = other.data[i];
            // a < b → borrow → a − b + q (mod 2^64)
            let borrow = a < b;
            let sub = a.wrapping_sub(b);
            let v = if borrow {
                sub.wrapping_add(q)
            } else {
                sub
            };
            proof {
                if borrow {
                    let d = a - b + two64();
                    if d + q < two64() {
                        lemma_small_mod((d + q) as nat, two64() as nat);
                    } else {
                        lemma_fundamental_div_mod_converse(d + q, two64(), 1, d + q - two64());
                    }
                }
            }
            self.data.set(i, v);
        }
    }

    /// Pointwise multiplication: `self *= other (mod q)`.
    ///
    /// Both polynomials must be in NTT domain, so that pointwise multiplication
    /// corresponds to negacyclic convolution in coefficient domain.
    pub fn mul_assign(&mut self, other: &Poly64, arith: &Ntt64Arith)
        requires
            arith.wf(),
            old(self).is_ntt,
            other.is_ntt,
            old(self).data@.len() == other.data@.len(),
            all_below64(old(self).data@, arith.q()),
            all_below64(other.data@, arith.q()),
        ensures
            final(self).is_ntt,
            final(self).data@.len() == old(self).data@.len(),
            all_below64(final(self).data@, arith.q()),
            forall|i: int|
                0 <= i < other.data@.len() ==> #[trigger] final(self).data@[i] as int == (old(
                    self,
                ).data@[i] * other.data@[i]) % arith.q(),
    {
        let len = self.data.len();
        for i in 0..len
            invariant
                arith.wf(),
                len == self.data@.len(),
                len == other.data@.len(),
                len == old(self).data@.len(),
                self.is_ntt,
                all_below64(old(self).data@, arith.q()),
                all_below64(other.data@, arith.q()),
                forall|k: int|
                    0 <= k < i ==> #[trigger] self.data@[k] as int == (old(self).data@[k]
                        * other.data@[k]) % arith.q() && self.data@[k] < arith.q(),
                forall|k: int| i <= k < len ==> #[trigger] self.data@[k] == old(self).data@[k],
        {
            proof {
                assert(self.data@[i as int] == old(self).data@[i as int]);
                assert(old(self).data@[i as int] < arith.q());
                assert(other.data@[i as int] < arith.q());
            }
            let v = mod_mul_barrett(self.data[i], other.data[i], arith);
            proof {
                lemma_mod_bound(old(self).data@[i as int] * other.data@[i as int], arith.q());
            }
            self.data.set(i, v);
        }
    }

    /// Scalar multiplication: `self *= scalar (mod q)`.
    pub fn scalar_mul(&mut self, scalar: u64, arith: &Ntt64Arith)
        requires
            arith.wf(),
            scalar < arith.modulus,
            all_below64(old(self).data@, arith.q()),
        ensures
            final(self).is_ntt == old(self).is_ntt,
            final(self).data@.len() == old(self).data@.len(),
            all_below64(final(self).data@, arith.q()),
            forall|i: int|
                0 <= i < old(self).data@.len() ==> #[trigger] final(self).data@[i] as int == (old(
                    self,
                ).data@[i] * scalar) % arith.q(),
    {
        let len = self.data.len();
        for i in 0..len
            invariant
                arith.wf(),
                scalar < arith.modulus,
                len == self.data@.len(),
                len == old(self).data@.len(),
                self.is_ntt == old(self).is_ntt,
                all_below64(old(self).data@, arith.q()),
                forall|k: int|
                    0 <= k < i ==> #[trigger] self.data@[k] as int == (old(self).data@[k] * scalar)
                        % arith.q() && self.data@[k] < arith.q(),
                forall|k: int| i <= k < len ==> #[trigger] self.data@[k] == old(self).data@[k],
        {
            proof {
                assert(self.data@[i as int] == old(self).data@[i as int]);
                assert(old(self).data@[i as int] < arith.q());
            }
            let v = mod_mul_barrett(self.data[i], scalar, arith);
            proof {
                lemma_mod_bound(old(self).data@[i as int] * scalar, arith.q());
            }
            self.data.set(i, v);
        }
    }

    /// Negation: `self = −self (mod q)`, i.e. `self[i] = q − self[i]` (0 stays 0).
    pub fn negate(&mut self, arith: &Ntt64Arith)
        requires
            forall|i: int| 0 <= i < old(self).data@.len() ==> #[trigger] old(self).data@[i] <= arith.modulus,
        ensures
            final(self).is_ntt == old(self).is_ntt,
            final(self).data@.len() == old(self).data@.len(),
            forall|i: int|
                0 <= i < old(self).data@.len() ==> #[trigger] final(self).data@[i] as int == (if old(
                    self,
                ).data@[i] == 0 {
                    0
                } else {
                    arith.q() - old(self).data@[i]
                }),
    {
        let q = arith.modulus;
        let len = self.data.len();
        for i in 0..len
            invariant
                q == arith.modulus,
                len == self.data@.len(),
                len == old(self).data@.len(),
                self.is_ntt == old(self).is_ntt,
                forall|k: int| 0 <= k < len ==> #[trigger] old(self).data@[k] <= q,
                forall|k: int|
                    0 <= k < i ==> #[trigger] self.data@[k] as int == (if old(self).data@[k] == 0 {
                        0
                    } else {
                        q - old(self).data@[k]
                    }),
                forall|k: int| i <= k < len ==> #[trigger] self.data@[k] == old(self).data@[k],
        {
            let a = self.data[i];
            let v = if a == 0 {
                0
            } else {
                q - a
            };
            self.data.set(i, v);
        }
    }

    /// A copy with the same coefficients and domain.
    pub(crate) fn duplicate(&self) -> (p: Self)
        ensures
            p.data@ == self.data@,
            p.is_ntt == self.is_ntt,
    {
        Poly64 { data: copy_of_64(&self.data), is_ntt: self.is_ntt }
    }

    /// Number of coefficients (= max degree + 1).
    pub fn len(&self) -> (r: usize)
        ensures
            r == self.data@.len(),
    {
        self.data.len()
    }

    /// Whether the polynomial has zero length.
    pub fn is_empty(&self) -> (r: bool)
        ensures
            r == (self.data@.len() == 0),
    {
        self.data.len() == 0
    }
}

/// The coefficient for a ternary draw: 0 → 0, 1 → 1, anything else → q − 1.
fn ternary_coefficient(draw: u64, q: u64) -> (c: u64)
    requires
        q >= 1,
    ensures
        c == ternary_value(draw as int, q as int),
{
    if draw == 0 {
        0
    } else if draw == 1 {
        1
    } else {
        q - 1
    }
}

/// What `negate` leaves in one slot.
pub open spec fn neg_reduce(a: int, q: int) -> int {
    if a == 0 {
        0
    } else {
        q - a
    }
}

/// Law: on reduced coefficients, `add_assign` and `sub_assign` compute the sum and the
/// difference modulo q.
pub proof fn lemma_add_sub_are_modular(a: int, b: int, q: int)
    requires
        0 <= a < q,
        0 <= b < q,
        q < two64(),
    ensures
        add_reduce(a, b, q) == (a + b) % q,
        sub_reduce(a, b, q) == (a - b) % q,
{
    if a + b >= q {
        lemma_fundamental_div_mod_converse(a + b, q, 1, a + b - q);
    } else {
        lemma_small_mod((a + b) as nat, q as nat);
    }
    if a >= b {
        lemma_small_mod((a - b) as nat, q as nat);
    } else {
        lemma_small_mod((a - b + q) as nat, two64() as nat);
        lemma_fundamental_div_mod_converse(a - b, q, -1, a - b + q);
    }
}

/// Law: on reduced coefficients, subtracting what was added gives the first value back.
pub proof fn lemma_add_then_sub(a: int, b: int, q: int)
    requires
        0 <= a < q,
        0 <= b < q,
        q < two64(),
    ensures
        sub_reduce(add_reduce(a, b, q), b, q) == a,
{
    lemma_add_sub_are_modular(a, b, q);
    let s = add_reduce(a, b, q);
    lemma_mod_bound(a + b, q);
    lemma_add_sub_are_modular(s, b, q);
    lemma_sub_mod_noop(a + b, b, q);
    lemma_mod_twice(a + b, q);
    lemma_small_mod(a as nat, q as nat);
}

/// Law: addition is commutative.
pub proof fn lemma_add_commutes(a: int, b: int, q: int)
    ensures
        add_reduce(a, b, q) == add_reduce(b, a, q),
{
}

/// Law: a reduced coefficient plus its negation is 0.
pub proof fn lemma_add_negation(a: int, q: int)
    requires
        0 <= a < q,
    ensures
        add_reduce(a, neg_reduce(a, q), q) == 0,
{
}

/// Law: multiplying by 2 is adding a reduced coefficient to itself.
pub proof fn lemma_double(a: int, q: int)
    requires
        0 <= a < q,
        q < two64(),
    ensures
        (a * 2) % q == add_reduce(a, a, q),
{
    lemma_add_sub_are_modular(a, a, q);
}

} // verus!
