//! Z_p* has a generator for every prime p ≥ 3 (the primitive root theorem).
//!
//! The proof: a polynomial of degree d has at most d roots modulo p; so for each prime r
//! dividing p − 1 some a has a^((p−1)/r) ≢ 1, and a^((p−1)/r^e) has order exactly r^e, where
//! r^e is the largest power of r dividing p − 1. The product of these elements over all r
//! passes the generator test.

use vstd::prelude::*;
use vstd::arithmetic::div_mod::*;
use vstd::arithmetic::mul::*;
use vstd::arithmetic::power::*;
use crate::algebra::evaluation::poly_eval;
use crate::algebra::primes::{
    is_prime,
    is_prime_factor_list,
    lemma_divides_transitive,
    lemma_euclid,
    lemma_fermat,
    lemma_pow_nonzero,
    lemma_prime_divisor,
    lemma_product_nonzero,
    lemma_small_divisor,
};
use crate::algebra::twiddles::{has_generator, is_generator};

verus! {

/// The quotient of a(X) − a(r) by X − r (synthetic division).
pub open spec fn poly_quot(a: Seq<int>, r: int) -> Seq<int>
    decreases a.len(),
{
    if a.len() <= 1 {
        Seq::empty()
    } else {
        seq![poly_eval(a.drop_first(), r)] + poly_quot(a.drop_first(), r)
    }
}

/// The factor theorem: a(z) − a(r) = (z − r) · q(z), with q one coefficient shorter and with
/// the same leading coefficient.
proof fn lemma_poly_quot(a: Seq<int>, r: int, z: int)
    requires
        a.len() >= 1,
    ensures
        poly_eval(a, z) - poly_eval(a, r) == (z - r) * poly_eval(poly_quot(a, r), z),
        poly_quot(a, r).len() == a.len() - 1,
        a.len() >= 2 ==> poly_quot(a, r).last() == a.last(),
    decreases a.len(),
{
    let rest = a.drop_first();
    if a.len() == 1 {
        assert(rest.len() == 0);
        assert(poly_eval(rest, z) == 0 && poly_eval(rest, r) == 0);
        assert(poly_eval(poly_quot(a, r), z) == 0);
        lemma_mul_basics(z);
        lemma_mul_basics(r);
        lemma_mul_basics(z - r);
    } else {
        lemma_poly_quot(rest, r, z);
        let c = poly_quot(rest, r);
        let b = poly_quot(a, r);
        assert(b == seq![poly_eval(rest, r)] + c);
        assert(b.drop_first() =~= c);
        assert(b[0] == poly_eval(rest, r));
        // a(z) − a(r) = z·rest(z) − r·rest(r) = z·(rest(z) − rest(r)) + (z − r)·rest(r)
        let rz = poly_eval(rest, z);
        let rr = poly_eval(rest, r);
        let cz = poly_eval(c, z);
        assert(rz - rr == (z - r) * cz);
        assert(z * rz - r * rr == (z - r) * (rr + z * cz)) by (nonlinear_arith)
            requires
                rz - rr == (z - r) * cz,
        ;
        assert(poly_eval(a, z) == a[0] + z * rz);
        assert(poly_eval(a, r) == a[0] + r * rr);
        assert(poly_eval(b, z) == b[0] + z * poly_eval(b.drop_first(), z));
        if rest.len() >= 2 {
            assert(b.last() == c.last());
            assert(rest.last() == a.last());
        } else {
            assert(c.len() == 0);
            assert(b.len() == 1);
            assert(b.last() == b[0]);
            assert(rest.len() == 1);
            assert(poly_eval(rest.drop_first(), r) == 0);
            assert(rest.last() == a.last());
        }
    }
}

/// The entries of a sequence lie in [0, p) and are pairwise distinct.
pub open spec fn distinct_residues(s: Seq<int>, p: int) -> bool {
    &&& forall|i: int| 0 <= i < s.len() ==> 0 <= #[trigger] s[i] < p
    &&& forall|i: int, j: int| 0 <= i < j < s.len() ==> s[i] != s[j]
}

/// A polynomial with n coefficients whose leading one is nonzero modulo a prime p has at most
/// n − 1 roots modulo p.
pub proof fn lemma_root_bound(a: Seq<int>, p: int, roots: Seq<int>)
    requires
        is_prime(p),
        a.len() >= 1,
        a.last() % p != 0,
        distinct_residues(roots, p),
        forall|i: int| 0 <= i < roots.len() ==> #[trigger] poly_eval(a, roots[i]) % p == 0,
    ensures
        roots.len() <= a.len() - 1,
    decreases a.len(),
{
    if roots.len() > 0 {
        let r = roots[0];
        if a.len() == 1 {
            assert(a.drop_first().len() == 0);
            assert(poly_eval(a, r) == a[0] + r * poly_eval(a.drop_first(), r));
            assert(poly_eval(a.drop_first(), r) == 0);
            assert(a.last() == a[0]);
            assert(poly_eval(a, r) == a[0]) by {
                lemma_mul_basics(r);
            }
        } else {
            let b = poly_quot(a, r);
            lemma_poly_quot(a, r, r);
            let rest = roots.drop_first();
            assert forall|i: int| 0 <= i < rest.len() implies #[trigger] poly_eval(b, rest[i]) % p
                == 0 by {
                let s = rest[i];
                assert(s == roots[i + 1]);
                lemma_poly_quot(a, r, s);
                assert(poly_eval(a, s) % p == 0 && poly_eval(a, r) % p == 0);
                // (s − r) · b(s) ≡ 0 with s ≢ r, so b(s) ≡ 0
                let d = s - r;
                let bs = poly_eval(b, s);
                assert((d * bs) % p == 0) by {
                    lemma_sub_mod_noop(poly_eval(a, s), poly_eval(a, r), p);
                    lemma_small_mod(0, p as nat);
                }
                lemma_mul_mod_noop(d, bs, p);
                lemma_mod_bound(d, p);
                lemma_mod_bound(bs, p);
                assert(((d % p) * (bs % p)) % p == 0);
                lemma_euclid(d % p, bs % p, p);
                if (d % p) % p == 0 {
                    lemma_mod_twice(d, p);
                    // d ≡ 0 with −p < d < p and d ≠ 0 is impossible
                    assert(s != r);
                    if d > 0 {
                        lemma_small_mod(d as nat, p as nat);
                    } else {
                        lemma_fundamental_div_mod_converse(d, p, -1, d + p);
                    }
                }
                lemma_mod_twice(bs, p);
            }
            assert(distinct_residues(rest, p)) by {
                assert forall|i: int, j: int| 0 <= i < j < rest.len() implies rest[i] != rest[j] by {
                    assert(rest[i] == roots[i + 1] && rest[j] == roots[j + 1]);
                }
            }
            lemma_root_bound(b, p, rest);
        }
    }
}

/// The polynomial X^k.
pub open spec fn monomial(k: nat) -> Seq<int> {
    Seq::new(k + 1, |i: int| if i == k { 1int } else { 0int })
}

/// X^k evaluates to z^k.
proof fn lemma_monomial_eval(k: nat, z: int)
    ensures
        poly_eval(monomial(k), z) == pow(z, k),
    decreases k,
{
    let m = monomial(k);
    if k == 0 {
        assert(m.drop_first().len() == 0);
        assert(poly_eval(m.drop_first(), z) == 0);
        lemma_mul_basics(z);
        lemma_pow0(z);
    } else {
        assert(m.drop_first() =~= monomial((k - 1) as nat));
        lemma_monomial_eval((k - 1) as nat, z);
        lemma_pow_adds(z, 1, (k - 1) as nat);
        lemma_pow1(z);
    }
}

/// X^m − 1 evaluates to z^m − 1.
proof fn lemma_power_minus_one_eval(m: nat, z: int)
    requires
        m >= 1,
    ensures
        poly_eval(seq![-1int] + monomial((m - 1) as nat), z) == pow(z, m) - 1,
{
    let f = seq![-1int] + monomial((m - 1) as nat);
    assert(f.drop_first() =~= monomial((m - 1) as nat));
    lemma_monomial_eval((m - 1) as nat, z);
    lemma_pow_adds(z, 1, (m - 1) as nat);
    lemma_pow1(z);
}

/// For 1 ≤ m < p − 1, some a in [1, p) has a^m ≢ 1 (mod p): X^m − 1 has at most m roots.
pub proof fn lemma_non_root_exists(p: int, m: nat)
    requires
        is_prime(p),
        1 <= m < p - 1,
    ensures
        exists|a: int| 1 <= a < p && #[trigger] (pow(a, m) % p) != 1,
{
    if forall|a: int| 1 <= a < p ==> #[trigger] (pow(a, m) % p) == 1 {
        let f = seq![-1int] + monomial((m - 1) as nat);
        let roots = Seq::new((p - 1) as nat, |i: int| i + 1);
        assert(f.last() == 1);
        lemma_small_mod(1, p as nat);
        assert forall|i: int| 0 <= i < roots.len() implies #[trigger] poly_eval(f, roots[i]) % p
            == 0 by {
            let r = roots[i];
            assert(1 <= r < p);
            lemma_power_minus_one_eval(m, r);
            assert(poly_eval(f, r) == pow(r, m) - 1);
            assert(pow(r, m) % p == 1);
            lemma_sub_mod_noop(pow(r, m), 1, p);
            lemma_small_mod(1, p as nat);
            lemma_small_mod(0, p as nat);
            assert((pow(r, m) - 1) % p == 0);
        }
        lemma_root_bound(f, p, roots);
    }
}

/// The exponent of the largest power of p dividing n (for n > 0 and p > 1).
pub open spec fn valuation(n: nat, p: nat) -> nat
    decreases n,
{
    if p > 1 && n > 0 && n % p == 0 {
        proof {
            lemma_div_decreases(n as int, p as int);
        }
        1 + valuation(n / p, p)
    } else {
        0
    }
}

/// n = p^valuation(n, p) · c with p ∤ c.
proof fn lemma_valuation(n: nat, p: nat)
    requires
        n > 0,
        p > 1,
    ensures
        (n as int) % pow(p as int, valuation(n, p)) == 0,
        ((n as int) / pow(p as int, valuation(n, p))) % (p as int) != 0,
        (n as int) / pow(p as int, valuation(n, p)) > 0,
        pow(p as int, valuation(n, p)) > 0,
    decreases n,
{
    let v = valuation(n, p);
    lemma_pow_positive(p as int, v);
    if n % p == 0 {
        let m = n / p;
        lemma_fundamental_div_mod(n as int, p as int);
        assert(n == p * m);
        assert(m > 0) by {
            if m == 0 {
                lemma_mul_basics(p as int);
            }
        }
        lemma_valuation(m, p);
        let w = valuation(m, p);
        let pw = pow(p as int, w);
        let c = (m as int) / pw;
        lemma_fundamental_div_mod(m as int, pw);
        assert(m == pw * c);
        lemma_pow_adds(p as int, 1, w);
        lemma_pow1(p as int);
        assert(pow(p as int, v) == p * pw);
        assert(n == (p * pw) * c) by {
            lemma_mul_is_associative(p as int, pw, c);
        }
        lemma_mod_multiples_basic(c, p * pw);
        lemma_mul_is_commutative(c, p * pw);
        lemma_div_multiples_vanish(c, p * pw);
    } else {
        lemma_pow0(p as int);
        assert(n / 1 == n);
        assert(n % 1 == 0);
    }
}

/// The largest power of p dividing n.
pub open spec fn prime_power_part(n: nat, p: nat) -> int {
    pow(p as int, valuation(n, p))
}

/// Euclid's algorithm.
pub open spec fn gcd(a: nat, b: nat) -> nat
    decreases b,
{
    if b == 0 {
        a
    } else {
        gcd(b, a % b)
    }
}

/// The gcd of two numbers, not both 0, is positive and divides both.
proof fn lemma_gcd_divides(a: nat, b: nat)
    requires
        a > 0 || b > 0,
    ensures
        gcd(a, b) > 0,
        a % gcd(a, b) == 0,
        b % gcd(a, b) == 0,
    decreases b,
{
    if b == 0 {
        lemma_mod_self_0(a as int);
        lemma_small_mod(0, a);
    } else {
        let r = a % b;
        lemma_gcd_divides(b, r);
        let g = gcd(b, r);
        lemma_fundamental_div_mod(a as int, b as int);
        let k = a / b;
        // a = b·k + r with g | b and g | r
        lemma_fundamental_div_mod(b as int, g as int);
        lemma_fundamental_div_mod(r as int, g as int);
        let bb = b / g;
        let rr = r / g;
        assert(a == g * (bb * k + rr)) by (nonlinear_arith)
            requires
                a == b * k + r,
                b == g * bb,
                r == g * rr,
        ;
        lemma_div_pos_is_pos(a as int, b as int);
        lemma_mod_multiples_basic((bb * k + rr) as int, g as int);
        lemma_mul_is_commutative((bb * k + rr) as int, g as int);
    }
}

/// x^d ≡ 1 and d | y give x^y ≡ 1.
proof fn lemma_pow_one_multiple(x: int, q: int, d: nat, y: nat)
    requires
        q > 1,
        d > 0,
        pow(x, d) % q == 1,
        y % d == 0,
    ensures
        pow(x, y) % q == 1,
{
    let k = y / d;
    lemma_fundamental_div_mod(y as int, d as int);
    lemma_pow_multiplies(x, d, k);
    lemma_pow_mod_noop(pow(x, d), k, q);
    lemma1_pow(k);
    lemma_small_mod(1, q as nat);
}

/// x^a ≡ 1 and x^b ≡ 1 give x^gcd(a, b) ≡ 1.
proof fn lemma_pow_one_gcd(x: int, q: int, a: nat, b: nat)
    requires
        q > 1,
        pow(x, a) % q == 1,
        pow(x, b) % q == 1,
    ensures
        pow(x, gcd(a, b)) % q == 1,
    decreases b,
{
    if b > 0 {
        let k = a / b;
        let r = a % b;
        lemma_fundamental_div_mod(a as int, b as int);
        lemma_pow_adds(x, b * k, r);
        lemma_pow_multiplies(x, b, k);
        lemma_pow_mod_noop(pow(x, b), k, q);
        lemma1_pow(k);
        lemma_small_mod(1, q as nat);
        assert(pow(pow(x, b), k) % q == 1);
        lemma_mul_mod_noop(pow(pow(x, b), k), pow(x, r), q);
        lemma_mod_twice(pow(x, r), q);
        lemma_mod_bound(pow(x, r), q);
        lemma_small_mod((pow(x, r) % q) as nat, q as nat);
        lemma_pow_one_gcd(x, q, b, r);
    }
}

/// A prime dividing p^e divides p.
proof fn lemma_prime_divides_power(r: int, p: int, e: nat)
    requires
        is_prime(r),
        p >= 0,
        pow(p, e) % r == 0,
    ensures
        p % r == 0,
    decreases e,
{
    if e == 0 {
        lemma_pow0(p);
        lemma_small_mod(1, r as nat);
    } else {
        lemma_pow_adds(p, 1, (e - 1) as nat);
        lemma_pow1(p);
        lemma_pow_positive_or_zero(p, (e - 1) as nat);
        lemma_euclid(p, pow(p, (e - 1) as nat), r);
        if p % r != 0 {
            lemma_prime_divides_power(r, p, (e - 1) as nat);
        }
    }
}

/// p^e ≥ 0 for p ≥ 0.
proof fn lemma_pow_positive_or_zero(p: int, e: nat)
    requires
        p >= 0,
    ensures
        pow(p, e) >= 0,
{
    if p > 0 {
        lemma_pow_positive(p, e);
    } else if e == 0 {
        lemma_pow0(p);
    } else {
        lemma0_pow(e);
    }
}

/// A divisor c of p^e (p prime) that p does not divide is 1.
proof fn lemma_coprime_divisor_of_power(c: int, g: int, p: int, e: nat)
    requires
        is_prime(p),
        c >= 1,
        g >= 1,
        c * g == pow(p, e),
        c % p != 0,
    ensures
        c == 1,
{
    if c > 1 {
        lemma_prime_divisor(c);
        let r = choose|r: int| #[trigger] is_prime(r) && c % r == 0 && r <= c;
        lemma_fundamental_div_mod(c, r);
        assert(pow(p, e) == r * ((c / r) * g)) by {
            lemma_mul_is_associative(r, c / r, g);
        }
        lemma_mod_multiples_basic((c / r) * g, r);
        lemma_mul_is_commutative((c / r) * g, r);
        lemma_prime_divides_power(r, p, e);
        // r | p with both prime forces r == p, but p ∤ c
        lemma_mod_bound(p, r);
        if r < p {
            assert(1 < r < p);
        } else if r > p {
            lemma_small_mod(p as nat, r as nat);
        }
    }
}

/// If b^(p^e) ≡ 1 but b^(p^(e−1)) ≢ 1 (mod q), then b^x ≡ 1 only for multiples x of p^e.
proof fn lemma_exact_order(b: int, q: int, p: int, e: nat, x: nat)
    requires
        q > 1,
        is_prime(p),
        e >= 1,
        pow(b, pow(p, e) as nat) % q == 1,
        pow(b, pow(p, (e - 1) as nat) as nat) % q != 1,
        pow(b, x) % q == 1,
    ensures
        (x as int) % pow(p, e) == 0,
{
    let pe = pow(p, e);
    lemma_pow_positive(p, e);
    lemma_pow_positive(p, (e - 1) as nat);
    lemma_gcd_divides(x, pe as nat);
    let g = gcd(x, pe as nat);
    lemma_pow_one_gcd(b, q, x, pe as nat);
    lemma_fundamental_div_mod(pe, g as int);
    let c = pe / g as int;
    assert(c * g == pe) by {
        lemma_mul_is_commutative(c, g as int);
    }
    assert(c >= 1) by {
        if c <= 0 {
            lemma_mul_inequality(c, 0, g as int);
        }
    }
    if c % p == 0 {
        // g divides p^(e−1), so b^(p^(e−1)) ≡ 1
        lemma_fundamental_div_mod(c, p);
        let c1 = c / p;
        lemma_pow_adds(p, 1, (e - 1) as nat);
        lemma_pow1(p);
        let pe1 = pow(p, (e - 1) as nat);
        assert(p * pe1 == p * (c1 * g)) by {
            lemma_mul_is_associative(p, c1, g as int);
        }
        lemma_mul_equality_converse(p, pe1, c1 * g);
        lemma_mod_multiples_basic(c1, g as int);
        lemma_pow_one_multiple(b, q, g, pe1 as nat);
    } else {
        lemma_coprime_divisor_of_power(c, g as int, p, e);
        assert(g == pe);
    }
}

/// A power of the prime p that divides r · y, for another prime r, divides y.
proof fn lemma_power_divides_coprime(p: int, e: nat, r: int, y: int)
    requires
        is_prime(p),
        is_prime(r),
        p != r,
        y >= 0,
        (r * y) % pow(p, e) == 0,
    ensures
        y % pow(p, e) == 0,
    decreases e,
{
    if e == 0 {
        lemma_pow0(p);
    } else {
        let pe1 = pow(p, (e - 1) as nat);
        lemma_pow_adds(p, 1, (e - 1) as nat);
        lemma_pow1(p);
        lemma_pow_positive(p, (e - 1) as nat);
        lemma_mul_strictly_positive(p, pe1);
        // p | r·y
        lemma_fundamental_div_mod(r * y, p * pe1);
        let k = (r * y) / (p * pe1);
        assert(r * y == p * (pe1 * k)) by {
            lemma_mul_is_associative(p, pe1, k);
        }
        lemma_mod_multiples_basic(pe1 * k, p);
        lemma_mul_is_commutative(pe1 * k, p);
        lemma_euclid(r, y, p);
        if r % p == 0 {
            lemma_mod_bound(r, p);
            if p < r {
                assert(1 < p < r);
            } else {
                lemma_small_mod(r as nat, p as nat);
            }
        }
        // y = p·y1 and r·y1 = pe1·k
        lemma_fundamental_div_mod(y, p);
        let y1 = y / p;
        lemma_div_pos_is_pos(y, p);
        assert(p * (r * y1) == p * (pe1 * k)) by {
            lemma_mul_is_associative(r, p, y1);
            lemma_mul_is_commutative(r, p);
            lemma_mul_is_associative(p, r, y1);
        }
        lemma_mul_equality_converse(p, r * y1, pe1 * k);
        lemma_mod_multiples_basic(k, pe1);
        lemma_mul_is_commutative(k, pe1);
        lemma_power_divides_coprime(p, (e - 1) as nat, r, y1);
        let c = y1 / pe1;
        lemma_fundamental_div_mod(y1, pe1);
        assert(y == (p * pe1) * c) by {
            lemma_mul_is_associative(p, pe1, c);
        }
        lemma_mod_multiples_basic(c, p * pe1);
        lemma_mul_is_commutative(c, p * pe1);
    }
}

/// An element of order exactly the largest power of p dividing q − 1: its powers that are 1
/// are those whose exponent is a multiple of that power.
pub open spec fn has_order(b: int, q: int, m: int) -> bool {
    &&& 1 <= b < q
    &&& forall|x: nat| (#[trigger] (pow(b, x) % q) == 1) <==> (x as int) % m == 0
}

/// For a prime r dividing q − 1, some element has order exactly r^v, the largest power of r
/// dividing q − 1.
proof fn lemma_prime_power_order_exists(q: int, r: int)
    requires
        is_prime(q),
        is_prime(r),
        (q - 1) % r == 0,
    ensures
        exists|b: int| #[trigger] has_order(b, q, prime_power_part((q - 1) as nat, r as nat)),
{
    let n = (q - 1) as nat;
    let m = (n / (r as nat)) as nat;
    lemma_fundamental_div_mod(n as int, r);
    assert(n == r * m);
    assert(r <= n) by {
        if r > n {
            lemma_small_mod(n, r as nat);
        }
    }
    assert(1 <= m < q - 1) by (nonlinear_arith)
        requires
            n == r * m,
            r >= 2,
            n >= r,
            n == q - 1,
    ;
    lemma_non_root_exists(q, m);
    let a = choose|a: int| 1 <= a < q && #[trigger] (pow(a, m) % q) != 1;
    lemma_valuation(n, r as nat);
    let v = valuation(n, r as nat);
    let pv = pow(r, v);
    let c = (n as int) / pv;
    lemma_fundamental_div_mod(n as int, pv);
    assert(n == pv * c);
    assert(v >= 1) by {
        if v == 0 {
            lemma_pow0(r);
        }
    }
    let pv1 = pow(r, (v - 1) as nat);
    lemma_pow_adds(r, 1, (v - 1) as nat);
    lemma_pow1(r);
    lemma_pow_positive(r, (v - 1) as nat);
    // m = r^(v−1) · c
    assert(r * m == r * (pv1 * c)) by {
        lemma_mul_is_associative(r, pv1, c);
    }
    lemma_mul_equality_converse(r, m as int, pv1 * c);
    let b = pow(a, c as nat) % q;
    lemma_small_mod(a as nat, q as nat);
    lemma_pow_nonzero(a, c as nat, q);
    lemma_mod_bound(pow(a, c as nat), q);
    // b^(r^v) ≡ a^(q−1) ≡ 1
    lemma_fermat(a, q);
    lemma_pow_mod_noop(pow(a, c as nat), pv as nat, q);
    lemma_pow_multiplies(a, c as nat, pv as nat);
    lemma_mul_is_commutative(c, pv);
    assert(pow(b, pv as nat) % q == 1);
    // b^(r^(v−1)) ≡ a^m ≢ 1
    lemma_pow_mod_noop(pow(a, c as nat), pv1 as nat, q);
    lemma_pow_multiplies(a, c as nat, pv1 as nat);
    lemma_mul_is_commutative(c, pv1);
    assert(pow(b, pv1 as nat) % q != 1);
    assert forall|x: nat| (#[trigger] (pow(b, x) % q) == 1) <==> (x as int) % pv == 0 by {
        if pow(b, x) % q == 1 {
            lemma_exact_order(b, q, r, v, x);
        }
        if (x as int) % pv == 0 {
            lemma_pow_one_multiple(b, q, pv as nat, x);
        }
    }
    assert(has_order(b, q, prime_power_part(n, r as nat)));
}

/// The primes up to k that divide n, in increasing order.
pub open spec fn prime_divisors_upto(n: int, k: int) -> Seq<int>
    decreases k,
{
    if k < 2 {
        Seq::empty()
    } else if is_prime(k) && n % k == 0 {
        prime_divisors_upto(n, k - 1).push(k)
    } else {
        prime_divisors_upto(n, k - 1)
    }
}

/// The primes up to k dividing n: each is a prime divisor at most k, they increase, and every
/// prime divisor up to k is among them.
proof fn lemma_prime_divisors_upto(n: int, k: int)
    ensures
        forall|i: int|
            0 <= i < prime_divisors_upto(n, k).len() ==> #[trigger] is_prime(
                prime_divisors_upto(n, k)[i],
            ) && n % prime_divisors_upto(n, k)[i] == 0 && prime_divisors_upto(n, k)[i] <= k,
        forall|i: int, j: int|
            0 <= i < j < prime_divisors_upto(n, k).len() ==> prime_divisors_upto(n, k)[i]
                < prime_divisors_upto(n, k)[j],
        forall|p: int|
            #[trigger] is_prime(p) && n % p == 0 && p <= k ==> prime_divisors_upto(n, k).contains(p),
    decreases k,
{
    if k >= 2 {
        lemma_prime_divisors_upto(n, k - 1);
        let prev = prime_divisors_upto(n, k - 1);
        let cur = prime_divisors_upto(n, k);
        assert forall|i: int| 0 <= i < cur.len() implies #[trigger] is_prime(cur[i]) && n % cur[i]
            == 0 && cur[i] <= k by {
            if i < prev.len() {
                assert(cur[i] == prev[i]);
                assert(is_prime(prev[i]));
            }
        }
        assert forall|i: int, j: int| 0 <= i < j < cur.len() implies cur[i] < cur[j] by {
            assert(cur[i] == prev[i]);
            assert(is_prime(prev[i]));
            if j < prev.len() {
                assert(cur[j] == prev[j]);
            }
        }
        assert forall|p: int| #[trigger] is_prime(p) && n % p == 0 && p <= k implies cur.contains(p) by {
            if p < k {
                let i = choose|i: int| 0 <= i < prev.len() && prev[i] == p;
                assert(cur[i] == p);
            } else {
                assert(cur[cur.len() - 1] == p);
            }
        }
    }
}

/// The exponents x with f[j]^(v_j) | x for every j < k, where f[j]^(v_j) is the largest power
/// of f[j] dividing q − 1.
pub open spec fn prefix_divides(x: nat, q: int, f: Seq<int>, k: int) -> bool {
    forall|j: int|
        0 <= j < k ==> (x as int) % #[trigger] prime_power_part((q - 1) as nat, f[j] as nat) == 0
}

/// g passes the generator test for the first k primes of f, and g^x ≡ 1 whenever x is a
/// multiple of each of their prime-power parts of q − 1.
pub open spec fn good_prefix(g: int, q: int, f: Seq<int>, k: int) -> bool {
    &&& 1 <= g < q
    &&& forall|j: int| 0 <= j < k ==> #[trigger] (pow(g, ((q - 1) / f[j]) as nat) % q) != 1
    &&& forall|x: nat| prefix_divides(x, q, f, k) ==> #[trigger] (pow(g, x) % q) == 1
}

/// Powers of a product modulo q.
proof fn lemma_pow_product_mod(g: int, b: int, q: int, x: nat)
    requires
        q > 1,
    ensures
        pow((g * b) % q, x) % q == ((pow(g, x) % q) * (pow(b, x) % q)) % q,
{
    lemma_pow_mod_noop(g * b, x, q);
    lemma_pow_distributes(g, b, x);
    lemma_mul_mod_noop(pow(g, x), pow(b, x), q);
}

/// The largest power of one prime divisor of q − 1 divides (q − 1)/r for any other prime
/// divisor r.
proof fn lemma_part_divides_cofactor(q: int, p: int, r: int)
    requires
        q >= 2,
        is_prime(p),
        is_prime(r),
        p != r,
        (q - 1) % r == 0,
    ensures
        ((q - 1) / r) % prime_power_part((q - 1) as nat, p as nat) == 0,
{
    let n = (q - 1) as nat;
    lemma_fundamental_div_mod(n as int, r);
    let y = (n as int) / r;
    lemma_div_pos_is_pos(n as int, r);
    if n > 0 {
        lemma_valuation(n, p as nat);
        lemma_mul_is_commutative(r, y);
        lemma_power_divides_coprime(p, valuation(n, p as nat), r, y);
    } else {
        assert(y == 0) by {
            lemma_div_basics(r);
        }
    }
}

/// The largest power of the prime p dividing q − 1 does not divide (q − 1)/p.
proof fn lemma_part_not_dividing(q: int, p: int)
    requires
        q >= 2,
        is_prime(p),
        (q - 1) % p == 0,
    ensures
        ((q - 1) / p) % prime_power_part((q - 1) as nat, p as nat) != 0,
{
    let n = (q - 1) as nat;
    assert(n > 0) by {
        if n == 0 {
            lemma_small_mod(0, p as nat);
        }
    }
    lemma_valuation(n, p as nat);
    let v = valuation(n, p as nat);
    let pv = pow(p, v);
    let c = (n as int) / pv;
    lemma_fundamental_div_mod(n as int, pv);
    assert(v >= 1) by {
        if v == 0 {
            lemma_pow0(p);
            lemma_div_basics(n as int);
        }
    }
    let pv1 = pow(p, (v - 1) as nat);
    lemma_pow_adds(p, 1, (v - 1) as nat);
    lemma_pow1(p);
    lemma_pow_positive(p, (v - 1) as nat);
    // (q − 1)/p = p^(v−1)·c
    assert(n == p * (pv1 * c)) by {
        lemma_mul_is_associative(p, pv1, c);
    }
    lemma_div_multiples_vanish(pv1 * c, p);
    let y = pv1 * c;
    assert((n as int) / p == y);
    if y % pv == 0 {
        lemma_fundamental_div_mod(y, pv);
        let t = y / pv;
        assert(pv1 * c == pv1 * (p * t)) by {
            lemma_mul_is_associative(pv1, p, t);
            lemma_mul_is_commutative(pv1, p);
        }
        lemma_mul_equality_converse(pv1, c, p * t);
        lemma_mod_multiples_basic(t, p);
        lemma_mul_is_commutative(t, p);
    }
}

/// Some element passes the generator test for the first k prime divisors of q − 1.
#[verifier::spinoff_prover]
proof fn lemma_good_prefix(q: int, f: Seq<int>, k: int)
    requires
        is_prime(q),
        is_prime_factor_list(f, q - 1),
        0 <= k <= f.len(),
    ensures
        exists|g: int| #[trigger] good_prefix(g, q, f, k),
    decreases k,
{
    if k == 0 {
        assert forall|x: nat| prefix_divides(x, q, f, 0) implies #[trigger] (pow(1, x) % q) == 1 by {
            lemma1_pow(x);
            lemma_small_mod(1, q as nat);
        }
        assert(good_prefix(1, q, f, 0));
    } else {
        lemma_good_prefix(q, f, k - 1);
        let g = choose|g: int| #[trigger] good_prefix(g, q, f, k - 1);
        let p = f[k - 1];
        assert(is_prime(p));
        assert((q - 1) % p == 0);
        let pp = prime_power_part((q - 1) as nat, p as nat);
        lemma_prime_power_order_exists(q, p);
        let b = choose|b: int| #[trigger] has_order(b, q, pp);
        let h = (g * b) % q;
        // h is a unit
        lemma_small_mod(g as nat, q as nat);
        lemma_small_mod(b as nat, q as nat);
        lemma_product_nonzero(g, b, q);
        lemma_mod_bound(g * b, q);
        // earlier primes: b^((q−1)/f[j]) ≡ 1, so h^((q−1)/f[j]) ≡ g^((q−1)/f[j]) ≢ 1
        assert forall|j: int| 0 <= j < k implies #[trigger] (pow(h, ((q - 1) / f[j]) as nat) % q)
            != 1 by {
            let x = ((q - 1) / f[j]) as nat;
            assert(is_prime(f[j]));
            assert((q - 1) % f[j] == 0);
            lemma_div_pos_is_pos(q - 1, f[j]);
            lemma_pow_product_mod(g, b, q, x);
            lemma_mod_bound(pow(g, x), q);
            if j < k - 1 {
                assert(f[j] < p);
                lemma_part_divides_cofactor(q, p, f[j]);
                assert(pow(b, x) % q == 1);
                lemma_mul_basics(pow(g, x) % q);
                lemma_mod_twice(pow(g, x), q);
            } else {
                // the new prime: g^x ≡ 1 but b^x ≢ 1
                assert(prefix_divides(x, q, f, k - 1)) by {
                    assert forall|i: int| 0 <= i < k - 1 implies (x as int) % #[trigger] prime_power_part(
                        (q - 1) as nat,
                        f[i] as nat,
                    ) == 0 by {
                        assert(is_prime(f[i]) && f[i] < p);
                        lemma_part_divides_cofactor(q, f[i], p);
                    }
                }
                assert(pow(g, x) % q == 1);
                lemma_part_not_dividing(q, p);
                assert(pow(b, x) % q != 1);
                lemma_mod_bound(pow(b, x), q);
                lemma_mul_basics(pow(b, x) % q);
                lemma_mod_twice(pow(b, x), q);
                lemma_small_mod((pow(b, x) % q) as nat, q as nat);
            }
        }
        // multiples of every prime-power part: both factors give 1
        assert forall|x: nat| prefix_divides(x, q, f, k) implies #[trigger] (pow(h, x) % q) == 1 by {
            assert(prefix_divides(x, q, f, k - 1)) by {
                assert forall|i: int| 0 <= i < k - 1 implies (x as int) % #[trigger] prime_power_part(
                    (q - 1) as nat,
                    f[i] as nat,
                ) == 0 by {
                    assert((x as int) % prime_power_part((q - 1) as nat, f[i] as nat) == 0);
                }
            }
            assert((x as int) % pp == 0);
            assert(pow(g, x) % q == 1);
            assert(pow(b, x) % q == 1);
            lemma_pow_product_mod(g, b, q, x);
            lemma_small_mod(1, q as nat);
        }
        assert(good_prefix(h, q, f, k));
    }
}

/// The primitive root theorem: for a prime q ≥ 3 some g in [2, q) passes the generator test.
pub proof fn lemma_primitive_root_theorem(q: int)
    requires
        is_prime(q),
        q >= 3,
    ensures
        has_generator(q),
{
    let n = q - 1;
    lemma_prime_divisors_upto(n, n);
    let f = prime_divisors_upto(n, n);
    assert forall|p: int| #[trigger] is_prime(p) && n % p == 0 implies f.contains(p) by {
        lemma_mod_bound(n, p);
        if p > n {
            lemma_small_mod(n as nat, p as nat);
        }
    }
    assert(is_prime_factor_list(f, n));
    lemma_good_prefix(q, f, f.len() as int);
    let g = choose|g: int| #[trigger] good_prefix(g, q, f, f.len() as int);
    assert forall|p: int| #[trigger] is_prime(p) && (q - 1) % p == 0 implies pow(g, ((q - 1) / p) as nat)
        % q != 1 by {
        let j = choose|j: int| 0 <= j < f.len() && f[j] == p;
        assert(pow(g, ((q - 1) / f[j]) as nat) % q != 1);
    }
    // 2 divides q − 1, so g ≠ 1
    assert(is_prime(2)) by {
        assert forall|d: int| 1 < d < 2 implies #[trigger] (2int % d) != 0 by {}
    }
    assert((q - 1) % 2 == 0) by {
        if q % 2 == 0 {
            assert(1 < 2 < q);
        }
    }
    if g == 1 {
        lemma1_pow(((q - 1) / 2) as nat);
        lemma_small_mod(1, q as nat);
    }
    assert(is_generator(g, q));
}

/// Pocklington's criterion with a power of two: if n − 1 = 2^e · m with 4^e > n, and some a has
/// a^((n−1)/2) ≡ −1 (mod n), then n is prime. Every prime factor r of n then has 2^e | r − 1,
/// so r > √n.
pub proof fn lemma_pocklington_power_of_two(n: int, e: nat, m: nat, a: int)
    requires
        n >= 3,
        n % 2 == 1,
        e >= 1,
        n - 1 == pow(2, e) * m,
        pow(2, e) * pow(2, e) > n,
        a >= 0,
        pow(a, ((n - 1) / 2) as nat) % n == n - 1,
    ensures
        is_prime(n),
{
    if !is_prime(n) {
        let d = choose|d: int| 1 < d < n && #[trigger] (n % d) == 0;
        lemma_small_divisor(n, d);
        let k = choose|k: int| 2 <= k < n && #[trigger] (n % k) == 0 && k * k <= n;
        lemma_prime_divisor(k);
        let r = choose|r: int| #[trigger] is_prime(r) && k % r == 0 && r <= k;
        lemma_divides_transitive(n, k, r);
        assert(r * r <= n) by (nonlinear_arith)
            requires
                2 <= r <= k,
                k * k <= n,
        ;
        // r is odd, and n ≡ 0 (mod r)
        let c = n / r;
        lemma_fundamental_div_mod(n, r);
        assert(n == r * c);
        assert(r >= 3) by {
            if r == 2 {
                lemma_mod_multiples_basic(c, 2);
                lemma_mul_is_commutative(c, 2);
            }
        }
        assert(is_prime(2)) by {
            assert forall|t: int| 1 < t < 2 implies #[trigger] (2int % t) != 0 by {}
        }
        let pe = pow(2, e);
        let pe1 = pow(2, (e - 1) as nat);
        lemma_pow_adds(2, 1, (e - 1) as nat);
        lemma_pow1(2);
        lemma_pow_positive(2, (e - 1) as nat);
        let h = ((n - 1) / 2) as nat;
        assert(n - 1 == 2 * (pe1 * m)) by {
            lemma_mul_is_associative(2, pe1, m as int);
        }
        assert(h == pe1 * m) by {
            lemma_div_multiples_vanish(pe1 * m, 2);
        }
        // A = a^h ≡ −1 (mod r)
        let big_a = pow(a, h);
        lemma_pow_positive_or_zero(a, h);
        assert(c >= 1) by {
            if c <= 0 {
                lemma_mul_inequality(c, 0, r);
            }
        }
        lemma_mod_mod(big_a, r, c);
        assert(big_a % r == (n - 1) % r) by {
            lemma_mod_mod(n - 1, r, c);
            lemma_small_mod((n - 1) as nat, n as nat);
        }
        assert((n - 1) % r == r - 1) by {
            assert(n - 1 == r * (c - 1) + (r - 1)) by (nonlinear_arith)
                requires
                    n == r * c,
            ;
            lemma_fundamental_div_mod_converse(n - 1, r, c - 1, r - 1);
        }
        // b = a^m mod r: b^(2^(e−1)) ≡ −1 and b^(2^e) ≡ 1 (mod r)
        let b = pow(a, m) % r;
        lemma_pow_mod_noop(pow(a, m), pe1 as nat, r);
        lemma_pow_multiplies(a, m, pe1 as nat);
        lemma_mul_is_commutative(m as int, pe1);
        assert(pow(b, pe1 as nat) % r == r - 1);
        lemma_pow_adds(b, pe1 as nat, pe1 as nat);
        assert(pe1 + pe1 == pe);
        lemma_mul_mod_noop(pow(b, pe1 as nat), pow(b, pe1 as nat), r);
        assert((r - 1) * (r - 1) == (r - 2) * r + 1) by (nonlinear_arith);
        lemma_fundamental_div_mod_converse((r - 1) * (r - 1), r, r - 2, 1);
        assert(pow(b, pe as nat) % r == 1);
        lemma_small_mod(1, r as nat);
        // b ≢ 0, so Fermat gives b^(r−1) ≡ 1, and the order 2^e divides r − 1
        lemma_mod_bound(pow(a, m), r);
        assert(b % r != 0) by {
            lemma_small_mod(b as nat, r as nat);
            if b == 0 {
                lemma0_pow(pe as nat);
                lemma_small_mod(0, r as nat);
            }
        }
        lemma_fermat(b, r);
        lemma_exact_order(b, r, 2, e, (r - 1) as nat);
        lemma_fundamental_div_mod(r - 1, pe);
        let t = (r - 1) / pe;
        assert(t >= 1) by {
            if t <= 0 {
                lemma_mul_inequality(t, 0, pe);
                lemma_mul_is_commutative(t, pe);
            }
        }
        assert(r - 1 >= pe) by {
            lemma_mul_inequality(1, t, pe);
            lemma_mul_is_commutative(t, pe);
        }
        assert(r * r > n) by (nonlinear_arith)
            requires
                r >= pe + 1,
                pe * pe > n,
                pe >= 1,
        ;
    }
}

} // verus!
