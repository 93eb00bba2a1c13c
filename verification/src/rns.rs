//! Residue number system: one polynomial per modulus.
//!
//! A large modulus Q = q₁·q₂·…·q_L is handled as its residues modulo several small coprime
//! moduli, each processed on its own. Rescaling (as in CKKS) removes one modulus per level.

use vstd::prelude::*;
use vstd::arithmetic::div_mod::*;
use vstd::arithmetic::mul::*;
use crate::algebra::transform::{forward_spec, inverse_spec, is_reduced, lemma_inverse_undoes_forward};
use crate::bits::is_power_of_two;
use crate::ntt64::arith::{two62, two64, Ntt64Arith};
use crate::ntt64::context::{all_below64, ints64, Ntt64Context};
use crate::poly::{add_reduce, lemma_add_sub_are_modular, signed_residue, sub_reduce, Poly64};

verus! {

/// RNS context: a set of coprime moduli.
///
/// Precomputes modular arithmetic and NTT contexts for each modulus,
/// enabling component-wise polynomial operations.
pub struct RnsContext {
    /// The moduli q₁, q₂, …, q_L.
    pub moduli: Vec<u64>,
    /// Modular arithmetic contexts for each modulus (Barrett, Montgomery).
    pub ariths: Vec<Ntt64Arith>,
    /// NTT contexts for each modulus.
    pub ntt_ctxs: Vec<Ntt64Context>,
    /// Polynomial degree N.
    pub poly_degree: usize,
}

/// A modulus that `RnsContext::new` accepts for degree N.
pub open spec fn valid_modulus(q: u64, poly_degree: usize) -> bool {
    &&& 2 <= q < two62()
    &&& q % 2 == 1
    &&& poly_degree <= 0x1_0000_0000
    &&& Ntt64Context::accepts(poly_degree as int, q as int)
}

impl RnsContext {
    /// Every modulus has its arithmetic context and the NTT context built for degree N.
    pub open spec fn wf(&self) -> bool {
        &&& self.moduli@.len() >= 1
        &&& self.ariths@.len() == self.moduli@.len()
        &&& self.ntt_ctxs@.len() == self.moduli@.len()
        &&& forall|i: int|
            0 <= i < self.moduli@.len() ==> {
                &&& (#[trigger] self.ariths@[i]).wf()
                &&& self.ariths@[i].modulus == self.moduli@[i]
                &&& self.ntt_ctxs@[i].built_for(self.poly_degree as int, self.ariths@[i])
            }
    }

    /// Creates an RNS context with the given moduli.
    ///
    /// Precomputes all modular arithmetic and NTT contexts.
    /// Each modulus must be NTT-friendly for the given polynomial degree.
    pub fn new(poly_degree: usize, moduli: Vec<u64>) -> (ctx: Self)
        requires
            is_power_of_two(poly_degree as int),
            moduli@.len() >= 1,
            forall|i: int| 0 <= i < moduli@.len() ==> valid_modulus(#[trigger] moduli@[i], poly_degree),
        ensures
            ctx.wf(),
            ctx.moduli@ == moduli@,
            ctx.poly_degree == poly_degree,
    {
        let mut ariths: Vec<Ntt64Arith> = Vec::with_capacity(moduli.len());
        let mut ntt_ctxs: Vec<Ntt64Context> = Vec::with_capacity(moduli.len());
        for i in 0..moduli.len()
            invariant
                forall|k: int| 0 <= k < moduli@.len() ==> valid_modulus(#[trigger] moduli@[k], poly_degree),
                ariths@.len() == i,
                ntt_ctxs@.len() == i,
                forall|k: int|
                    0 <= k < i ==> {
                        &&& (#[trigger] ariths@[k]).wf()
                        &&& ariths@[k].modulus == moduli@[k]
                        &&& ntt_ctxs@[k].built_for(poly_degree as int, ariths@[k])
                    },
        {
            let q = moduli[i];
            proof {
                assert(valid_modulus(moduli@[i as int], poly_degree));
            }
            let arith = Ntt64Arith::new(q);
            let ntt_ctx = Ntt64Context::new(poly_degree, arith);
            ariths.push(arith);
            ntt_ctxs.push(ntt_ctx);
        }
        RnsContext { moduli, ariths, ntt_ctxs, poly_degree }
    }

    /// Number of moduli (= total number of levels).
    pub fn num_moduli(&self) -> (r: usize)
        ensures
            r == self.moduli@.len(),
    {
        self.moduli.len()
    }
}

/// Polynomial in RNS representation: one component per modulus.
///
/// Each component `components[i]` is a polynomial in Z_{q_i}\[X\]/(X^N+1),
/// stored in NTT domain by default.
///
/// The `level` is the number of active moduli. Rescaling reduces the level by removing the
/// last modulus.
#[derive(Clone, Debug)]
pub struct RnsPoly {
    /// `components[i]` = polynomial modulo `moduli[i]`.
    pub components: Vec<Poly64>,
    /// Current level (number of active moduli).
    pub level: usize,
}

/// Coefficient j of a signed polynomial with N coefficients, reduced modulo q (missing
/// coefficients are 0).
pub open spec fn padded_residues(coeffs: Seq<i64>, n: nat, q: int) -> Seq<int> {
    Seq::new(n, |j: int| if j < coeffs.len() { (coeffs[j] as int) % q } else { 0 })
}

/// Slot by slot, r is a + b as `Poly64::add_assign` leaves it, in the domain of a.
pub open spec fn added(r: Poly64, a: Poly64, b: Poly64, q: int) -> bool {
    &&& r.is_ntt == a.is_ntt
    &&& r.data@.len() == a.data@.len()
    &&& forall|k: int|
        0 <= k < a.data@.len() ==> #[trigger] r.data@[k] as int == add_reduce(
            a.data@[k] as int,
            b.data@[k] as int,
            q,
        )
}

/// Slot by slot, r is a − b as `Poly64::sub_assign` leaves it, in the domain of a.
pub open spec fn subtracted(r: Poly64, a: Poly64, b: Poly64, q: int) -> bool {
    &&& r.is_ntt == a.is_ntt
    &&& r.data@.len() == a.data@.len()
    &&& forall|k: int|
        0 <= k < a.data@.len() ==> #[trigger] r.data@[k] as int == sub_reduce(
            a.data@[k] as int,
            b.data@[k] as int,
            q,
        )
}

/// Slot by slot, r is a · b modulo q, in NTT domain.
pub open spec fn multiplied(r: Poly64, a: Poly64, b: Poly64, q: int) -> bool {
    &&& r.is_ntt
    &&& r.data@.len() == a.data@.len()
    &&& forall|k: int| 0 <= k < a.data@.len() ==> #[trigger] r.data@[k] as int == (a.data@[k] * b.data@[k]) % q
}

impl RnsPoly {
    /// One component per active modulus, each of N reduced coefficients.
    pub open spec fn wf(&self, ctx: &RnsContext) -> bool {
        &&& self.components@.len() == self.level
        &&& self.level <= ctx.moduli@.len()
        &&& forall|i: int|
            0 <= i < self.level ==> {
                &&& (#[trigger] self.components@[i]).data@.len() == ctx.poly_degree
                &&& all_below64(self.components@[i].data@, ctx.moduli@[i] as int)
            }
    }

    /// Encodes a signed-integer polynomial into RNS representation.
    ///
    /// For each modulus q_i, reduces each coefficient mod q_i (negatives included) and
    /// converts to NTT domain.
    pub fn from_coefficients(coeffs: &[i64], ctx: &RnsContext) -> (p: Self)
        requires
            ctx.wf(),
            coeffs@.len() <= ctx.poly_degree,
        ensures
            p.wf(ctx),
            p.level == ctx.moduli@.len(),
            forall|i: int|
                0 <= i < p.level ==> {
                    &&& (#[trigger] p.components@[i]).is_ntt
                    &&& p.components@[i].coeffs() == forward_spec(
                        padded_residues(coeffs@, ctx.poly_degree as nat, ctx.moduli@[i] as int),
                        ctx.ntt_ctxs@[i].tw(),
                        ctx.moduli@[i] as int,
                        ctx.ntt_ctxs@[i].log_n as nat,
                    )
                },
            forall|i: int, j: int|
                0 <= i < p.level && 0 <= j < ctx.poly_degree ==> #[trigger] inverse_spec(
                    p.components@[i].coeffs(),
                    ctx.ntt_ctxs@[i].tw_inv(),
                    ctx.ntt_ctxs@[i].n_inv as int,
                    ctx.moduli@[i] as int,
                    ctx.ntt_ctxs@[i].log_n as nat,
                )[j] == if j < coeffs@.len() {
                    (coeffs@[j] as int) % (ctx.moduli@[i] as int)
                } else {
                    0
                },
    {
        let n = ctx.poly_degree;
        let level = ctx.num_moduli();
        let mut components: Vec<Poly64> = Vec::with_capacity(level);
        for i in 0..level
            invariant
                ctx.wf(),
                n == ctx.poly_degree,
                level == ctx.moduli@.len(),
                coeffs@.len() <= n,
                components@.len() == i,
                forall|k: int|
                    0 <= k < i ==> {
                        &&& (#[trigger] components@[k]).data@.len() == n
                        &&& all_below64(components@[k].data@, ctx.moduli@[k] as int)
                        &&& components@[k].is_ntt
                        &&& components@[k].coeffs() == forward_spec(
                            padded_residues(coeffs@, n as nat, ctx.moduli@[k] as int),
                            ctx.ntt_ctxs@[k].tw(),
                            ctx.moduli@[k] as int,
                            ctx.ntt_ctxs@[k].log_n as nat,
                        )
                    },
        {
            let q = ctx.moduli[i];
            proof {
                assert(ctx.ariths@[i as int].wf());
            }
            let mut poly = Poly64::new_zero(n);
            for j in 0..coeffs.len()
                invariant
                    q >= 2,
                    coeffs@.len() <= n,
                    poly.data@.len() == n,
                    !poly.is_ntt,
                    forall|k: int| 0 <= k < j ==> #[trigger] poly.data@[k] as int == (coeffs@[k] as int) % (q as int),
                    forall|k: int| j <= k < n ==> #[trigger] poly.data@[k] == 0,
            {
                let r = signed_residue(coeffs[j], q);
                poly.data.set(j, r);
            }
            proof {
                let target = padded_residues(coeffs@, n as nat, q as int);
                assert forall|k: int| 0 <= k < n implies #[trigger] poly.data@[k] < q && ints64(poly.data@)[k] == target[k] by {
                    if k < coeffs@.len() {
                        lemma_mod_bound(coeffs@[k] as int, q as int);
                    }
                }
                assert(ints64(poly.data@) =~= target);
            }
            poly.forward_ntt(&ctx.ntt_ctxs[i]);
            components.push(poly);
        }
        let p = RnsPoly { components, level };
        proof {
            assert forall|i: int, j: int|
                0 <= i < p.level && 0 <= j < ctx.poly_degree implies #[trigger] inverse_spec(
                    p.components@[i].coeffs(),
                    ctx.ntt_ctxs@[i].tw_inv(),
                    ctx.ntt_ctxs@[i].n_inv as int,
                    ctx.moduli@[i] as int,
                    ctx.ntt_ctxs@[i].log_n as nat,
                )[j] == if j < coeffs@.len() {
                    (coeffs@[j] as int) % (ctx.moduli@[i] as int)
                } else {
                    0
                } by {
                assert(p.components@[i] == components@[i]);
                lemma_encode_decode(ctx, coeffs@, i);
            }
        }
        p
    }

    /// Component-wise addition in RNS: each component as `Poly64::add_assign` leaves it.
    pub fn add(&self, other: &RnsPoly, ctx: &RnsContext) -> (r: RnsPoly)
        requires
            ctx.wf(),
            self.wf(ctx),
            other.wf(ctx),
            self.level == other.level,
            forall|i: int| 0 <= i < self.level ==> (#[trigger] self.components@[i]).is_ntt == other.components@[i].is_ntt,
        ensures
            r.wf(ctx),
            r.level == self.level,
            forall|i: int|
                0 <= i < r.level ==> added(
                    #[trigger] r.components@[i],
                    self.components@[i],
                    other.components@[i],
                    ctx.moduli@[i] as int,
                ),
    {
        let mut components: Vec<Poly64> = Vec::with_capacity(self.level);
        for i in 0..self.level
            invariant
                ctx.wf(),
                self.wf(ctx),
                other.wf(ctx),
                self.level == other.level,
                forall|j: int| 0 <= j < self.level ==> (#[trigger] self.components@[j]).is_ntt == other.components@[j].is_ntt,
                components@.len() == i,
                forall|j: int|
                    0 <= j < i ==> added(
                        #[trigger] components@[j],
                        self.components@[j],
                        other.components@[j],
                        ctx.moduli@[j] as int,
                    ) && all_below64(components@[j].data@, ctx.moduli@[j] as int),
        {
            let ghost q = ctx.moduli@[i as int] as int;
            let ghost a = self.components@[i as int];
            let ghost b = other.components@[i as int];
            proof {
                assert(all_below64(a.data@, q) && a.data@.len() == ctx.poly_degree);
                assert(all_below64(b.data@, q) && b.data@.len() == ctx.poly_degree);
                assert(ctx.ariths@[i as int].wf());
            }
            let mut c = self.components[i].duplicate();
            proof {
                assert forall|k: int| 0 <= k < b.data@.len() implies #[trigger] c.data@[k] + b.data@[k] <= u64::MAX by {
                    assert(c.data@[k] == a.data@[k]);
                    assert(a.data@[k] < q && b.data@[k] < q);
                }
            }
            c.add_assign(&other.components[i], &ctx.ariths[i]);
            proof {
                assert forall|k: int| 0 <= k < c.data@.len() implies #[trigger] c.data@[k] < q by {
                    assert(a.data@[k] < q && b.data@[k] < q);
                }
            }
            components.push(c);
        }
        RnsPoly { components, level: self.level }
    }

    /// Component-wise subtraction in RNS: each component as `Poly64::sub_assign` leaves it.
    pub fn sub(&self, other: &RnsPoly, ctx: &RnsContext) -> (r: RnsPoly)
        requires
            ctx.wf(),
            self.wf(ctx),
            other.wf(ctx),
            self.level == other.level,
            forall|i: int| 0 <= i < self.level ==> (#[trigger] self.components@[i]).is_ntt == other.components@[i].is_ntt,
        ensures
            r.wf(ctx),
            r.level == self.level,
            forall|i: int|
                0 <= i < r.level ==> subtracted(
                    #[trigger] r.components@[i],
                    self.components@[i],
                    other.components@[i],
                    ctx.moduli@[i] as int,
                ),
    {
        let mut components: Vec<Poly64> = Vec::with_capacity(self.level);
        for i in 0..self.level
            invariant
                ctx.wf(),
                self.wf(ctx),
                other.wf(ctx),
                self.level == other.level,
                forall|j: int| 0 <= j < self.level ==> (#[trigger] self.components@[j]).is_ntt == other.components@[j].is_ntt,
                components@.len() == i,
                forall|j: int|
                    0 <= j < i ==> subtracted(
                        #[trigger] components@[j],
                        self.components@[j],
                        other.components@[j],
                        ctx.moduli@[j] as int,
                    ) && all_below64(components@[j].data@, ctx.moduli@[j] as int),
        {
            let ghost q = ctx.moduli@[i as int] as int;
            let ghost a = self.components@[i as int];
            let ghost b = other.components@[i as int];
            proof {
                assert(all_below64(a.data@, q) && a.data@.len() == ctx.poly_degree);
                assert(all_below64(b.data@, q) && b.data@.len() == ctx.poly_degree);
                assert(ctx.ariths@[i as int].wf());
            }
            let mut c = self.components[i].duplicate();
            c.sub_assign(&other.components[i], &ctx.ariths[i]);
            proof {
                assert forall|k: int| 0 <= k < c.data@.len() implies #[trigger] c.data@[k] < q by {
                    let x = a.data@[k] as int;
                    let y = b.data@[k] as int;
                    assert(x < q && y < q);
                    if x < y {
                        lemma_small_mod((x - y + q) as nat, two64() as nat);
                    }
                }
            }
            components.push(c);
        }
        RnsPoly { components, level: self.level }
    }

    /// Component-wise multiplication in RNS; every component must be in NTT domain.
    pub fn mul(&self, other: &RnsPoly, ctx: &RnsContext) -> (r: RnsPoly)
        requires
            ctx.wf(),
            self.wf(ctx),
            other.wf(ctx),
            self.level == other.level,
            forall|i: int| 0 <= i < self.level ==> (#[trigger] self.components@[i]).is_ntt,
            forall|i: int| 0 <= i < self.level ==> (#[trigger] other.components@[i]).is_ntt,
        ensures
            r.wf(ctx),
            r.level == self.level,
            forall|i: int|
                0 <= i < r.level ==> multiplied(
                    #[trigger] r.components@[i],
                    self.components@[i],
                    other.components@[i],
                    ctx.moduli@[i] as int,
                ),
    {
        let mut components: Vec<Poly64> = Vec::with_capacity(self.level);
        for i in 0..self.level
            invariant
                ctx.wf(),
                self.wf(ctx),
                other.wf(ctx),
                self.level == other.level,
                forall|j: int| 0 <= j < self.level ==> (#[trigger] self.components@[j]).is_ntt,
                forall|j: int| 0 <= j < self.level ==> (#[trigger] other.components@[j]).is_ntt,
                components@.len() == i,
                forall|j: int|
                    0 <= j < i ==> multiplied(
                        #[trigger] components@[j],
                        self.components@[j],
                        other.components@[j],
                        ctx.moduli@[j] as int,
                    ) && all_below64(components@[j].data@, ctx.moduli@[j] as int),
        {
            let ghost q = ctx.moduli@[i as int] as int;
            let ghost a = self.components@[i as int];
            let ghost b = other.components@[i as int];
            proof {
                assert(all_below64(a.data@, q) && a.data@.len() == ctx.poly_degree);
                assert(all_below64(b.data@, q) && b.data@.len() == ctx.poly_degree);
                assert(ctx.ariths@[i as int].wf());
            }
            let mut c = self.components[i].duplicate();
            c.mul_assign(&other.components[i], &ctx.ariths[i]);
            components.push(c);
        }
        RnsPoly { components, level: self.level }
    }

    /// Drops the last modulus (rescaling): the level decreases by 1 and the last component is
    /// removed. The level must be above 1.
    pub fn drop_last_modulus(&mut self)
        requires
            old(self).level > 1,
            old(self).components@.len() == old(self).level,
        ensures
            final(self).level == old(self).level - 1,
            final(self).components@ == old(self).components@.drop_last(),
    {
        self.components.pop();
        self.level -= 1;
    }

    /// Converts all components from NTT domain to coefficient domain; components already in
    /// coefficient domain are left as they are. This is the conversion that `inverse_all` makes.
    pub fn forward_all(&mut self, ctx: &RnsContext)
        requires
            ctx.wf(),
            old(self).wf(ctx),
        ensures
            final(self).wf(ctx),
            final(self).level == old(self).level,
            forall|i: int|
                0 <= i < old(self).level ==> {
                    &&& !(#[trigger] final(self).components@[i]).is_ntt
                    &&& final(self).components@[i].coeffs() == (if old(self).components@[i].is_ntt {
                        inverse_spec(
                            old(self).components@[i].coeffs(),
                            ctx.ntt_ctxs@[i].tw_inv(),
                            ctx.ntt_ctxs@[i].n_inv as int,
                            ctx.moduli@[i] as int,
                            ctx.ntt_ctxs@[i].log_n as nat,
                        )
                    } else {
                        old(self).components@[i].coeffs()
                    })
                },
    {
        self.inverse_all(ctx);
    }

    /// Converts every component that is in NTT domain to coefficient domain.
    pub fn inverse_all(&mut self, ctx: &RnsContext)
        requires
            ctx.wf(),
            old(self).wf(ctx),
        ensures
            final(self).wf(ctx),
            final(self).level == old(self).level,
            forall|i: int|
                0 <= i < old(self).level ==> {
                    &&& !(#[trigger] final(self).components@[i]).is_ntt
                    &&& final(self).components@[i].coeffs() == (if old(self).components@[i].is_ntt {
                        inverse_spec(
                            old(self).components@[i].coeffs(),
                            ctx.ntt_ctxs@[i].tw_inv(),
                            ctx.ntt_ctxs@[i].n_inv as int,
                            ctx.moduli@[i] as int,
                            ctx.ntt_ctxs@[i].log_n as nat,
                        )
                    } else {
                        old(self).components@[i].coeffs()
                    })
                },
    {
        let level = self.level;
        for i in 0..level
            invariant
                ctx.wf(),
                self.wf(ctx),
                level == self.level,
                self.level == old(self).level,
                self.components@.len() == old(self).components@.len(),
                forall|j: int|
                    0 <= j < i ==> {
                        &&& !(#[trigger] self.components@[j]).is_ntt
                        &&& self.components@[j].coeffs() == (if old(self).components@[j].is_ntt {
                            inverse_spec(
                                old(self).components@[j].coeffs(),
                                ctx.ntt_ctxs@[j].tw_inv(),
                                ctx.ntt_ctxs@[j].n_inv as int,
                                ctx.moduli@[j] as int,
                                ctx.ntt_ctxs@[j].log_n as nat,
                            )
                        } else {
                            old(self).components@[j].coeffs()
                        })
                    },
                forall|j: int| i <= j < self.level ==> #[trigger] self.components@[j] == old(self).components@[j],
        {
            if self.components[i].is_ntt {
                proof {
                    assert(ctx.ariths@[i as int].wf());
                    assert(self.components@[i as int].data@.len() == ctx.poly_degree);
                }
                let ghost before = self.components@;
                let mut c = self.components.remove(i);
                c.inverse_ntt(&ctx.ntt_ctxs[i]);
                self.components.insert(i, c);
                proof {
                    assert(self.components@ == before.update(i as int, c));
                    assert forall|j: int| 0 <= j < self.level implies {
                        &&& (#[trigger] self.components@[j]).data@.len() == ctx.poly_degree
                        &&& all_below64(self.components@[j].data@, ctx.moduli@[j] as int)
                    } by {
                        if j != i {
                            assert(self.components@[j] == before[j]);
                        }
                    }
                }
            }
        }
    }
}

/// Law: decoding what `from_coefficients` encoded gives back each coefficient modulo q_i, and 0
/// for each coefficient past the end of the input.
pub proof fn lemma_encode_decode(ctx: &RnsContext, coeffs: Seq<i64>, i: int)
    requires
        ctx.wf(),
        coeffs.len() <= ctx.poly_degree,
        0 <= i < ctx.moduli@.len(),
    ensures
        inverse_spec(
            forward_spec(
                padded_residues(coeffs, ctx.poly_degree as nat, ctx.moduli@[i] as int),
                ctx.ntt_ctxs@[i].tw(),
                ctx.moduli@[i] as int,
                ctx.ntt_ctxs@[i].log_n as nat,
            ),
            ctx.ntt_ctxs@[i].tw_inv(),
            ctx.ntt_ctxs@[i].n_inv as int,
            ctx.moduli@[i] as int,
            ctx.ntt_ctxs@[i].log_n as nat,
        ) == padded_residues(coeffs, ctx.poly_degree as nat, ctx.moduli@[i] as int),
        forall|j: int|
            0 <= j < ctx.poly_degree ==> #[trigger] inverse_spec(
                forward_spec(
                    padded_residues(coeffs, ctx.poly_degree as nat, ctx.moduli@[i] as int),
                    ctx.ntt_ctxs@[i].tw(),
                    ctx.moduli@[i] as int,
                    ctx.ntt_ctxs@[i].log_n as nat,
                ),
                ctx.ntt_ctxs@[i].tw_inv(),
                ctx.ntt_ctxs@[i].n_inv as int,
                ctx.moduli@[i] as int,
                ctx.ntt_ctxs@[i].log_n as nat,
            )[j] == if j < coeffs.len() {
                (coeffs[j] as int) % (ctx.moduli@[i] as int)
            } else {
                0
            },
{
    assert(ctx.ariths@[i].wf());
    let c = ctx.ntt_ctxs@[i];
    let q = ctx.moduli@[i] as int;
    let a = padded_residues(coeffs, ctx.poly_degree as nat, q);
    assert(is_reduced(a, q)) by {
        assert forall|p: int| 0 <= p < a.len() implies 0 <= #[trigger] a[p] < q by {
            if p < coeffs.len() {
                lemma_mod_bound(coeffs[p] as int, q);
            }
        }
    }
    lemma_inverse_undoes_forward(a, c.tw(), c.tw_inv(), c.n_inv as int, q, c.log_n as nat);
}

/// Law (distributivity, slot by slot): on reduced values, (x + y)·z = x·z + y·z modulo q, with
/// the sums as `add` leaves them and the products as `mul` leaves them.
pub proof fn lemma_add_mul_distributive(x: int, y: int, z: int, q: int)
    requires
        0 <= x < q,
        0 <= y < q,
        0 <= z < q,
        q < two64(),
    ensures
        (add_reduce(x, y, q) * z) % q == add_reduce((x * z) % q, (y * z) % q, q),
{
    lemma_add_sub_are_modular(x, y, q);
    lemma_mod_bound(x * z, q);
    lemma_mod_bound(y * z, q);
    lemma_add_sub_are_modular((x * z) % q, (y * z) % q, q);
    lemma_mul_mod_noop_left(x + y, z, q);
    lemma_mul_is_distributive_add_other_way(z, x, y);
    lemma_add_mod_noop(x * z, y * z, q);
}

/// Law: subtracting a value from itself gives 0.
pub proof fn lemma_sub_self(x: int, q: int)
    ensures
        sub_reduce(x, x, q) == 0,
{
}

} // verus!
