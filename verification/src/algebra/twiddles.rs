//! Twiddle tables in bit-reversed (Longa-Naehrig) order, and why they are consistent.

use vstd::prelude::*;
use vstd::arithmetic::div_mod::*;
use vstd::arithmetic::mul::*;
use vstd::arithmetic::power::*;
use vstd::arithmetic::power2::*;
use crate::algebra::congruence::{lemma_cong_mod, lemma_cong_mul};
use crate::algebra::cyclic::lemma_primitive_root_theorem;
use crate::algebra::evaluation::{split_root, tree_consistent};
use crate::algebra::primes::{is_prime, lemma_euclid, lemma_fermat, lemma_pow_nonzero};
use crate::algebra::transform::twiddles_inverse;

verus! {

/// The `bits` lowest bits of x in reverse order.
pub open spec fn bit_rev(x: nat, bits: nat) -> nat
    decreases bits,
{
    if bits == 0 {
        0
    } else {
        (x % 2) * pow2((bits - 1) as nat) + bit_rev(x / 2, (bits - 1) as nat)
    }
}

/// One step of the definition of `bit_rev`, with the low bit split into cases.
pub proof fn lemma_bit_rev_unfold(x: nat, bits: nat)
    requires
        bits >= 1,
    ensures
        x % 2 == 0 ==> bit_rev(x, bits) == bit_rev(x / 2, (bits - 1) as nat),
        x % 2 == 1 ==> bit_rev(x, bits) == pow2((bits - 1) as nat) + bit_rev(x / 2, (bits - 1) as nat),
        x % 2 == 0 || x % 2 == 1,
{
    assert(bit_rev(x, bits) == (x % 2) * pow2((bits - 1) as nat) + bit_rev(x / 2, (bits - 1) as nat));
    lemma_mod_bound(x as int, 2);
    if x % 2 == 0 {
        lemma_mul_basics(pow2((bits - 1) as nat) as int);
    } else {
        lemma_mul_basics(pow2((bits - 1) as nat) as int);
    }
}

/// A bit reversal of `bits` bits is below 2^bits.
pub proof fn lemma_bit_rev_bound(x: nat, bits: nat)
    ensures
        bit_rev(x, bits) < pow2(bits),
    decreases bits,
{
    lemma_pow2_pos(bits);
    if bits > 0 {
        lemma_bit_rev_bound(x / 2, (bits - 1) as nat);
        lemma_pow2_unfold(bits);
        lemma_bit_rev_unfold(x, bits);
    } else {
        assert(bit_rev(x, 0) == 0);
        lemma2_to64();
    }
}

/// Reversing one more bit of a number whose top bit is clear doubles the reversal.
proof fn lemma_bit_rev_double(y: nat, bits: nat)
    requires
        bits >= 1,
        y < pow2((bits - 1) as nat),
    ensures
        bit_rev(y, bits) == 2 * bit_rev(y, (bits - 1) as nat),
    decreases bits,
{
    if bits == 1 {
        lemma2_to64();
        assert(y == 0);
        lemma_bit_rev_zero(1);
        lemma_bit_rev_zero(0);
    } else {
        lemma_pow2_unfold((bits - 1) as nat);
        assert(y / 2 < pow2((bits - 2) as nat)) by {
            lemma_fundamental_div_mod(y as int, 2);
            lemma_mod_bound(y as int, 2);
        }
        lemma_bit_rev_double(y / 2, (bits - 1) as nat);
        lemma_bit_rev_unfold(y, bits);
        lemma_bit_rev_unfold(y, (bits - 1) as nat);
    }
}

/// Bit reversal of `2y + b`: `2 · rev(2y + b, L) = b · 2^L + rev(y, L)` when y < 2^(L-1).
pub proof fn lemma_bit_rev_parent(y: nat, b: nat, bits: nat)
    requires
        bits >= 1,
        b < 2,
        y < pow2((bits - 1) as nat),
    ensures
        2 * bit_rev(2 * y + b, bits) == b * pow2(bits) + bit_rev(y, bits),
{
    let x = 2 * y + b;
    assert(x % 2 == b && x / 2 == y) by {
        lemma_fundamental_div_mod_converse(x as int, 2, y as int, b as int);
    }
    lemma_bit_rev_double(y, bits);
    lemma_pow2_unfold(bits);
    lemma_bit_rev_unfold(x, bits);
    if b == 0 {
        assert(bit_rev(x, bits) == bit_rev(y, (bits - 1) as nat));
    } else {
        assert(bit_rev(x, bits) == pow2((bits - 1) as nat) + bit_rev(y, (bits - 1) as nat));
    }
}

/// Reversing zero gives zero.
proof fn lemma_bit_rev_zero(bits: nat)
    ensures
        bit_rev(0, bits) == 0,
    decreases bits,
{
    if bits > 0 {
        lemma_bit_rev_zero((bits - 1) as nat);
        assert(bit_rev(0, bits) == (0nat % 2) * pow2((bits - 1) as nat) + bit_rev(0nat / 2, (bits - 1) as nat));
        assert(0nat % 2 == 0);
        assert(0nat / 2 == 0);
    }
}

/// The table `w[k] = psi^rev(k) mod q` for k < n = 2^lg.
pub open spec fn is_power_table(w: Seq<int>, psi: int, q: int, lg: nat) -> bool {
    &&& w.len() == pow2(lg)
    &&& forall|k: int| 0 <= k < w.len() ==> #[trigger] w[k] == pow(psi, bit_rev(k as nat, lg)) % q
}

/// `psi` is a primitive 2N-th root of unity in the sense used by the negacyclic NTT:
/// `psi^N ≡ -1 (mod q)`.
pub open spec fn is_negacyclic_root(psi: int, q: int, lg: nat) -> bool {
    pow(psi, pow2(lg)) % q == (-1) % q
}

/// One entry of a power table squares to the constant of its block.
proof fn lemma_power_table_square(w: Seq<int>, psi: int, q: int, lg: nat, s: nat, i: int)
    requires
        q > 1,
        lg >= 1,
        is_power_table(w, psi, q, lg),
        is_negacyclic_root(psi, q, lg),
        s < lg,
        0 <= i < pow2(s),
    ensures
        (w[pow2(s) + i] * w[pow2(s) + i]) % q == split_root(w, s, i) % q,
{
    let k = pow2(s) + i;
    lemma_pow2_unfold(s + 1);
    if s + 1 < lg {
        lemma_pow2_strictly_increases(s + 1, lg);
    }
    assert(0 <= k < w.len());
    let e = bit_rev(k as nat, lg);
    assert(w[k] == pow(psi, e) % q);
    // w[k]^2 ≡ psi^(2e)
    lemma_cong_mod(pow(psi, e), q);
    lemma_cong_mul(w[k], pow(psi, e), w[k], pow(psi, e), q);
    lemma_pow_adds(psi, e, e);
    let sq = pow(psi, e + e);
    assert((w[k] * w[k]) % q == sq % q);
    if s == 0 {
        lemma2_to64();
        assert(i == 0);
        assert(k == 1);
        lemma_pow2_pos((lg - 1) as nat);
        lemma_bit_rev_parent(0, 1, lg);
        lemma_bit_rev_zero(lg);
        assert(e + e == pow2(lg));
        assert(split_root(w, 0, 0) == -1);
    } else {
        let y = pow2((s - 1) as nat) + i / 2;
        let b = i % 2;
        lemma_pow2_unfold(s);
        assert(k == 2 * y + b);
        assert(y < pow2(s));
        assert(y < pow2((lg - 1) as nat)) by {
            if s < lg - 1 {
                lemma_pow2_strictly_increases(s, (lg - 1) as nat);
            }
        }
        lemma_bit_rev_parent(y as nat, b as nat, lg);
        let ey = bit_rev(y as nat, lg);
        assert(e + e == b * pow2(lg) + ey);
        assert(0 <= y < w.len()) by {
            lemma_pow2_strictly_increases(s, lg);
        }
        assert(w[y] == pow(psi, ey) % q);
        lemma_cong_mod(pow(psi, ey), q);
        if b == 0 {
            assert(e + e == ey);
            assert(split_root(w, s, i) == w[y]);
        } else {
            assert(e + e == pow2(lg) + ey);
            lemma_pow_adds(psi, pow2(lg), ey);
            // psi^(N + ey) ≡ -1 · psi^ey ≡ -w[y]
            lemma_cong_mul(pow(psi, pow2(lg)), -1, pow(psi, ey), w[y], q);
            assert(-1 * w[y] == -w[y]);
            assert(split_root(w, s, i) == -w[y]);
        }
    }
}

/// The squares of a power table follow the splitting tree of X^N + 1.
pub proof fn lemma_power_table_consistent(w: Seq<int>, psi: int, q: int, lg: nat)
    requires
        q > 1,
        lg >= 1,
        is_power_table(w, psi, q, lg),
        is_negacyclic_root(psi, q, lg),
    ensures
        tree_consistent(w, q, lg),
{
    assert forall|s: nat, i: int| s < lg && 0 <= i < pow2(s) implies (#[trigger] (w[pow2(s) + i]
        * w[pow2(s) + i]) % q) == split_root(w, s, i) % q by {
        lemma_power_table_square(w, psi, q, lg, s, i);
    }
}

/// Power tables of mutually inverse bases are pairwise inverse.
pub proof fn lemma_power_tables_inverse(w: Seq<int>, winv: Seq<int>, psi: int, psi_inv: int, q: int, lg: nat)
    requires
        q > 1,
        is_power_table(w, psi, q, lg),
        is_power_table(winv, psi_inv, q, lg),
        (psi * psi_inv) % q == 1,
    ensures
        twiddles_inverse(w, winv, q, pow2(lg) as int),
{
    assert forall|k: int| 1 <= k < pow2(lg) implies (#[trigger] w[k] * winv[k]) % q == 1 by {
        let e = bit_rev(k as nat, lg);
        lemma_cong_mod(pow(psi, e), q);
        lemma_cong_mod(pow(psi_inv, e), q);
        lemma_cong_mul(w[k], pow(psi, e), winv[k], pow(psi_inv, e), q);
        lemma_pow_distributes(psi, psi_inv, e);
        lemma_pow_mod_noop(psi * psi_inv, e, q);
        lemma1_pow(e);
        lemma_small_mod(1, q as nat);
    }
}

/// If g^((q-1)/2) is not congruent to 1 modulo the prime q, then psi = g^((q-1)/(2n))
/// satisfies psi^n ≡ -1 and psi^(2n) ≡ 1.
pub proof fn lemma_root_from_nonresidue(g: int, q: int, n: nat, e: nat)
    requires
        is_prime(q),
        0 < g < q,
        e * (2 * n) == q - 1,
        pow(g, ((q - 1) / 2) as nat) % q != 1,
    ensures
        pow(pow(g, e) % q, n) % q == (-1) % q,
        pow(pow(g, e) % q, 2 * n) % q == 1,
{
    let h = ((q - 1) / 2) as nat;
    assert(q - 1 == 2 * (e * n)) by {
        lemma_mul_is_associative(e as int, 2, n as int);
        lemma_mul_is_commutative(e as int, 2);
        lemma_mul_is_associative(2, e as int, n as int);
    }
    assert(e * n == h);
    let psi = pow(g, e) % q;
    // psi^n ≡ g^(e n) = g^h
    lemma_pow_mod_noop(g, e, q);
    lemma_pow_mod_noop(pow(g, e), n, q);
    lemma_pow_mod_noop(psi, n, q);
    lemma_mod_twice(pow(g, e), q);
    lemma_pow_multiplies(g, e, n);
    let x = pow(g, h) % q;
    assert(pow(psi, n) % q == x);
    // x^2 ≡ g^(q-1) ≡ 1
    lemma_small_mod(g as nat, q as nat);
    lemma_fermat(g, q);
    lemma_pow_adds(g, h, h);
    assert(h + h == q - 1);
    assert((h + h) as nat == (q - 1) as nat);
    lemma_cong_mod(pow(g, h), q);
    lemma_cong_mul(x, pow(g, h), x, pow(g, h), q);
    lemma_pow_nonzero(g, h, q);
    lemma_mod_bound(pow(g, h), q);
    assert(0 < x < q);
    // (x - 1)(x + 1) ≡ 0, so x ≡ -1
    assert((x - 1) * (x + 1) == x * x - 1) by (nonlinear_arith);
    assert((x * x) % q == 1);
    lemma_sub_mod_noop(x * x, 1, q);
    lemma_small_mod(1, q as nat);
    lemma_small_mod(0, q as nat);
    assert(((x - 1) * (x + 1)) % q == 0);
    lemma_euclid(x - 1, x + 1, q);
    if (x - 1) % q == 0 {
        lemma_small_mod((x - 1) as nat, q as nat);
    }
    assert((x + 1) % q == 0);
    assert(x + 1 == q) by {
        if x + 1 < q {
            lemma_small_mod((x + 1) as nat, q as nat);
        }
    }
    lemma_mod_add_multiples_vanish(-1, q);
    lemma_small_mod((q - 1) as nat, q as nat);
    // psi^(2n) = (psi^n)^2 ≡ 1
    lemma_pow_adds(psi, n, n);
    lemma_cong_mod(pow(psi, n), q);
    lemma_cong_mul(pow(psi, n), -1, pow(psi, n), -1, q);
    assert(n + n == 2 * n);
}

} // verus!

verus! {

/// g generates the multiplicative group modulo q, by the test used to search for one:
/// `g^((q-1)/p) ≢ 1 (mod q)` for every prime p dividing q - 1.
pub open spec fn is_generator(g: int, q: int) -> bool {
    &&& 2 <= g < q
    &&& forall|p: int|
        #[trigger] is_prime(p) && (q - 1) % p == 0 ==> pow(g, ((q - 1) / p) as nat) % q != 1
}

/// Some g in [2, q) passes the generator test. (Every prime q ≥ 3 has one: the primitive root
/// theorem, `lemma_primitive_root_theorem`.)
pub open spec fn has_generator(q: int) -> bool {
    exists|g: int| #[trigger] is_generator(g, q)
}

/// g is the smallest number that passes the generator test.
pub open spec fn is_least_generator(g: int, q: int) -> bool {
    &&& is_generator(g, q)
    &&& forall|h: int| 2 <= h < g ==> !#[trigger] is_generator(h, q)
}

/// The smallest number that passes the generator test, when there is one.
pub open spec fn least_generator(q: int) -> int {
    choose|g: int| is_least_generator(g, q)
}

/// Where some number passes the generator test, a least one does.
pub proof fn lemma_least_generator_exists(w: int, q: int)
    requires
        is_generator(w, q),
    ensures
        is_least_generator(least_generator(q), q),
    decreases w,
{
    if forall|h: int| 2 <= h < w ==> !#[trigger] is_generator(h, q) {
        assert(is_least_generator(w, q));
    } else {
        let h = choose|h: int| 2 <= h < w && #[trigger] is_generator(h, q);
        lemma_least_generator_exists(h, q);
    }
}

/// The least generator is unique.
pub proof fn lemma_least_generator_unique(g: int, q: int)
    requires
        is_least_generator(g, q),
    ensures
        least_generator(q) == g,
{
    let h = least_generator(q);
    assert(is_least_generator(h, q));
    if h < g {
        assert(!is_generator(h, q));
    } else if g < h {
        assert(!is_generator(g, q));
    }
}

/// The 2N-th root of unity that the search picks: `g^((q-1)/(2N)) mod q` for the least
/// generator g of Z_q*.
pub open spec fn negacyclic_root(n: int, q: int) -> int {
    pow(least_generator(q), ((q - 1) / (2 * n)) as nat) % q
}

/// The root `negacyclic_root(N, q)` is a primitive 2N-th root of unity when q is prime:
/// `ψ^N ≡ -1` and `ψ^(2N) ≡ 1 (mod q)`.
pub proof fn lemma_negacyclic_root(n: nat, q: int)
    requires
        n >= 1,
        is_prime(q),
        (q - 1) % (2 * n as int) == 0,
    ensures
        0 < negacyclic_root(n as int, q) < q,
        pow(negacyclic_root(n as int, q), n) % q == q - 1,
        pow(negacyclic_root(n as int, q), 2 * n) % q == 1,
{
    assert(q >= 3) by {
        if q == 2 {
            lemma_small_mod(1, (2 * n) as nat);
        }
    }
    lemma_primitive_root_theorem(q);
    let g = least_generator(q);
    let w = choose|w: int| #[trigger] is_generator(w, q);
    assert(is_least_generator(g, q)) by {
        lemma_least_generator_exists(w, q);
    }
    let e = ((q - 1) / (2 * n as int)) as nat;
    assert(e * (2 * n) == q - 1) by {
        lemma_fundamental_div_mod(q - 1, 2 * n as int);
        lemma_mul_is_commutative(e as int, 2 * n as int);
    }
    assert(is_prime(2)) by {
        assert forall|d: int| 1 < d < 2 implies #[trigger] (2int % d) != 0 by {}
    }
    assert((q - 1) % 2 == 0) by {
        lemma_mod_multiples_basic(e * n as int, 2);
        assert((e * n) * 2 == e * (2 * n)) by (nonlinear_arith);
    }
    lemma_root_from_nonresidue(g, q, n, e);
    lemma_small_mod(g as nat, q as nat);
    lemma_pow_nonzero(g, e, q);
    lemma_mod_bound(pow(g, e), q);
    assert((-1) % q == q - 1) by {
        lemma_fundamental_div_mod_converse(-1, q, -1, q - 1);
    }
}

} // verus!
