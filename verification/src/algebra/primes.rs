//! Primes, Euclid's lemma and Fermat's little theorem.

use vstd::prelude::*;
use vstd::arithmetic::div_mod::*;
use vstd::arithmetic::mul::*;
use vstd::arithmetic::power::*;

verus! {

/// `p` is prime: greater than one, and no integer strictly between one and `p` divides it.
pub open spec fn is_prime(p: int) -> bool {
    &&& p > 1
    &&& forall|d: int| 1 < d < p ==> #[trigger] (p % d) != 0
}

/// n! for a natural number n.
pub open spec fn factorial(n: nat) -> int
    decreases n,
{
    if n == 0 {
        1
    } else {
        factorial((n - 1) as nat) * n
    }
}

/// Product of the entries of a sequence of integers.
pub open spec fn seq_product(s: Seq<int>) -> int
    decreases s.len(),
{
    if s.len() == 0 {
        1
    } else {
        seq_product(s.drop_last()) * s.last()
    }
}

/// Euclid's lemma for a factor already reduced below the prime.
proof fn lemma_euclid_reduced(a: int, b: int, p: int)
    requires
        is_prime(p),
        0 < a < p,
        (a * b) % p == 0,
    ensures
        b % p == 0,
    decreases a,
{
    if a == 1 {
        lemma_mul_basics(b);
    } else {
        let k = p / a;
        let r = p % a;
        lemma_fundamental_div_mod(p, a);
        assert(p % a != 0);
        lemma_mod_bound(p, a);
        assert(0 < r < a);
        let m = (a * b) / p;
        lemma_fundamental_div_mod(a * b, p);
        assert(a * b == p * m);
        assert(r * b == p * (b - k * m)) by (nonlinear_arith)
            requires
                p == a * k + r,
                a * b == p * m,
        {
            assert(r * b == p * b - k * (a * b));
        }
        lemma_mod_multiples_basic(b - k * m, p);
        assert((r * b) % p == 0) by {
            lemma_mul_is_commutative(p, b - k * m);
        }
        lemma_euclid_reduced(r, b, p);
    }
}

/// Euclid's lemma: a prime dividing a product of naturals divides one of the factors.
pub proof fn lemma_euclid(a: int, b: int, p: int)
    requires
        is_prime(p),
        a >= 0,
        b >= 0,
        (a * b) % p == 0,
    ensures
        a % p == 0 || b % p == 0,
{
    if a % p != 0 {
        lemma_mod_bound(a, p);
        lemma_mul_mod_noop_left(a, b, p);
        lemma_euclid_reduced(a % p, b, p);
    }
}

/// A product of two naturals that are both nonzero modulo a prime is nonzero modulo it.
pub proof fn lemma_product_nonzero(a: int, b: int, p: int)
    requires
        is_prime(p),
        a >= 0,
        b >= 0,
        a % p != 0,
        b % p != 0,
    ensures
        (a * b) % p != 0,
{
    if (a * b) % p == 0 {
        lemma_euclid(a, b, p);
    }
}

/// A power of a natural that is nonzero modulo a prime is nonzero modulo it.
pub proof fn lemma_pow_nonzero(a: int, e: nat, p: int)
    requires
        is_prime(p),
        a >= 0,
        a % p != 0,
    ensures
        pow(a, e) % p != 0,
        pow(a, e) > 0,
    decreases e,
{
    reveal(pow);
    if a == 0 {
        lemma_small_mod(0, p as nat);
    }
    if e == 0 {
        lemma_small_mod(1, p as nat);
    } else {
        lemma_pow_nonzero(a, (e - 1) as nat, p);
        lemma_product_nonzero(a, pow(a, (e - 1) as nat), p);
        lemma_mul_strictly_positive(a, pow(a, (e - 1) as nat));
    }
}

/// Removing one entry divides the product by that entry.
proof fn lemma_product_remove(s: Seq<int>, j: int)
    requires
        0 <= j < s.len(),
    ensures
        seq_product(s) == s[j] * seq_product(s.remove(j)),
    decreases s.len(),
{
    if j == s.len() - 1 {
        assert(s.remove(j) =~= s.drop_last());
        lemma_mul_is_commutative(s[j], seq_product(s.drop_last()));
    } else {
        let d = s.drop_last();
        lemma_product_remove(d, j);
        assert(s.remove(j).drop_last() =~= d.remove(j));
        assert(s.remove(j).last() == s.last());
        lemma_mul_is_associative(s[j], seq_product(d.remove(j)), s.last());
    }
}

/// A duplicate-free sequence drawn from 1..=m has at most m entries.
proof fn lemma_distinct_len_bound(s: Seq<int>, m: int)
    requires
        m >= 0,
        s.no_duplicates(),
        forall|i: int| 0 <= i < s.len() ==> 1 <= #[trigger] s[i] <= m,
    ensures
        s.len() <= m,
    decreases m,
{
    if m == 0 {
        if s.len() > 0 {
            assert(1 <= s[0] <= 0);
        }
    } else if exists|j: int| 0 <= j < s.len() && s[j] == m {
        let j = choose|j: int| 0 <= j < s.len() && s[j] == m;
        let r = s.remove(j);
        assert forall|i: int| 0 <= i < r.len() implies 1 <= #[trigger] r[i] <= m - 1 by {
            if i < j {
                assert(r[i] == s[i]);
            } else {
                assert(r[i] == s[i + 1]);
            }
        }
        assert forall|a: int, b: int| 0 <= a < r.len() && 0 <= b < r.len() && a != b implies r[a]
            != r[b] by {
            let a2 = if a < j { a } else { a + 1 };
            let b2 = if b < j { b } else { b + 1 };
            assert(r[a] == s[a2] && r[b] == s[b2]);
        }
        lemma_distinct_len_bound(r, m - 1);
    } else {
        assert forall|i: int| 0 <= i < s.len() implies 1 <= #[trigger] s[i] <= m - 1 by {
            assert(s[i] != m);
        }
        lemma_distinct_len_bound(s, m - 1);
    }
}

/// A duplicate-free sequence of length n drawn from 1..=n multiplies to n!.
proof fn lemma_permutation_product(s: Seq<int>, n: nat)
    requires
        s.no_duplicates(),
        s.len() == n,
        forall|i: int| 0 <= i < s.len() ==> 1 <= #[trigger] s[i] <= n,
    ensures
        seq_product(s) == factorial(n),
    decreases n,
{
    if n == 0 {
    } else {
        if !(exists|j: int| 0 <= j < s.len() && s[j] == n) {
            assert forall|i: int| 0 <= i < s.len() implies 1 <= #[trigger] s[i] <= n - 1 by {
                assert(s[i] != n);
            }
            lemma_distinct_len_bound(s, n - 1);
        }
        let j = choose|j: int| 0 <= j < s.len() && s[j] == n;
        let r = s.remove(j);
        assert forall|i: int| 0 <= i < r.len() implies 1 <= #[trigger] r[i] <= n - 1 by {
            if i < j {
                assert(r[i] == s[i] && i != j);
            } else {
                assert(r[i] == s[i + 1] && i + 1 != j);
            }
        }
        assert forall|a: int, b: int| 0 <= a < r.len() && 0 <= b < r.len() && a != b implies r[a]
            != r[b] by {
            let a2 = if a < j { a } else { a + 1 };
            let b2 = if b < j { b } else { b + 1 };
            assert(r[a] == s[a2] && r[b] == s[b2]);
        }
        lemma_permutation_product(r, (n - 1) as nat);
        lemma_product_remove(s, j);
        lemma_mul_is_commutative(n as int, factorial((n - 1) as nat));
    }
}

/// The residues of a, 2a, ..., ka modulo p.
pub open spec fn multiples_mod(a: int, p: int, k: nat) -> Seq<int> {
    Seq::new(k, |i: int| (a * (i + 1)) % p)
}

/// The product of the residues of a, 2a, ..., ka is a^k · k! modulo p.
proof fn lemma_multiples_product(a: int, p: int, k: nat)
    requires
        p > 0,
    ensures
        seq_product(multiples_mod(a, p, k)) % p == (pow(a, k) * factorial(k)) % p,
    decreases k,
{
    reveal(pow);
    if k == 0 {
    } else {
        let k1 = (k - 1) as nat;
        lemma_multiples_product(a, p, k1);
        let s = multiples_mod(a, p, k);
        assert(s.drop_last() =~= multiples_mod(a, p, k1));
        let prev = seq_product(multiples_mod(a, p, k1));
        let x = (a * k) % p;
        assert(s.last() == x);
        // prev * x ≡ (a^{k-1} (k-1)!) * (a k)
        lemma_mul_mod_noop(prev, x, p);
        lemma_mod_twice(a * k, p);
        lemma_mul_mod_noop(pow(a, k1) * factorial(k1), a * k, p);
        lemma_mul_mod_noop(prev, a * k, p);
        assert((pow(a, k1) * factorial(k1)) * (a * k) == (a * pow(a, k1)) * (factorial(k1) * k))
            by (nonlinear_arith);
    }
}

/// (p-1)! is not divisible by the prime p; more generally k! for k < p.
proof fn lemma_factorial_nonzero(k: nat, p: int)
    requires
        is_prime(p),
        k < p,
    ensures
        factorial(k) % p != 0,
        factorial(k) > 0,
    decreases k,
{
    if k == 0 {
        lemma_small_mod(1, p as nat);
    } else {
        lemma_factorial_nonzero((k - 1) as nat, p);
        lemma_small_mod(k, p as nat);
        lemma_product_nonzero(factorial((k - 1) as nat), k as int, p);
        lemma_mul_strictly_positive(factorial((k - 1) as nat), k as int);
    }
}

/// The inverse that Fermat's little theorem gives: `a^(q-2) mod q`.
pub open spec fn fermat_inverse(a: int, q: int) -> int {
    pow(a, (q - 2) as nat) % q
}

/// a · a^(p-2) ≡ 1 (mod p) for a prime p not dividing a.
pub proof fn lemma_fermat_inverse(a: int, p: int)
    requires
        is_prime(p),
        a >= 0,
        a % p != 0,
    ensures
        (a * fermat_inverse(a, p)) % p == 1,
        (fermat_inverse(a, p) * a) % p == 1,
        0 < fermat_inverse(a, p) < p,
{
    lemma_fermat(a, p);
    lemma_pow_adds(a, 1, (p - 2) as nat);
    lemma_pow1(a);
    lemma_mul_mod_noop_right(a, pow(a, (p - 2) as nat), p);
    lemma_mul_is_commutative(a, fermat_inverse(a, p));
    lemma_mod_bound(pow(a, (p - 2) as nat), p);
    assert((a * pow(a, (p - 2) as nat)) % p == (a * fermat_inverse(a, p)) % p);
    if fermat_inverse(a, p) == 0 {
        lemma_mul_basics(a);
        assert(a * fermat_inverse(a, p) == 0);
        lemma_small_mod(0, p as nat);
    }
}

/// Fermat's little theorem: a^(p-1) ≡ 1 (mod p) for a prime p not dividing a.
pub proof fn lemma_fermat(a: int, p: int)
    requires
        is_prime(p),
        a >= 0,
        a % p != 0,
    ensures
        pow(a, (p - 1) as nat) % p == 1,
{
    let n = (p - 1) as nat;
    let s = multiples_mod(a, p, n);
    assert forall|i: int| 0 <= i < s.len() implies 1 <= #[trigger] s[i] <= n by {
        lemma_mod_bound(a * (i + 1), p);
        lemma_small_mod((i + 1) as nat, p as nat);
        lemma_product_nonzero(a, i + 1, p);
    }
    assert forall|i: int, j: int| 0 <= i < s.len() && 0 <= j < s.len() && i != j implies s[i]
        != s[j] by {
        if s[i] == s[j] {
            let (lo, hi) = if i < j { (i, j) } else { (j, i) };
            assert((a * (hi + 1)) % p == (a * (lo + 1)) % p);
            lemma_sub_mod_noop(a * (hi + 1), a * (lo + 1), p);
            lemma_mod_self_0(p);
            assert((a * (hi + 1) - a * (lo + 1)) % p == 0) by {
                lemma_small_mod(0, p as nat);
            }
            assert(a * (hi + 1) - a * (lo + 1) == a * (hi - lo)) by (nonlinear_arith);
            lemma_small_mod((hi - lo) as nat, p as nat);
            lemma_product_nonzero(a, hi - lo, p);
        }
    }
    lemma_permutation_product(s, n);
    lemma_multiples_product(a, p, n);
    lemma_factorial_nonzero(n, p);
    let f = factorial(n);
    let x = pow(a, n);
    lemma_pow_nonzero(a, n, p);
    // x * f ≡ f, hence (x - 1) * f ≡ 0
    assert((x * f) % p == f % p);
    lemma_sub_mod_noop(x * f, f, p);
    lemma_mod_self_0(p);
    assert((x * f - f) % p == 0) by {
        lemma_small_mod(0, p as nat);
    }
    assert(x * f - f == (x - 1) * f) by (nonlinear_arith);
    lemma_euclid(x - 1, f, p);
    lemma_mod_adds(x - 1, 1, p);
    lemma_small_mod(1, p as nat);
}

} // verus!

verus! {

/// Divisibility is transitive: `m | n` and `d | m` give `d | n`.
pub proof fn lemma_divides_transitive(n: int, m: int, d: int)
    requires
        n >= 0,
        m > 0,
        d > 0,
        n % m == 0,
        m % d == 0,
    ensures
        n % d == 0,
{
    lemma_fundamental_div_mod(n, m);
    lemma_fundamental_div_mod(m, d);
    let a = n / m;
    let b = m / d;
    assert(n == d * (b * a)) by (nonlinear_arith)
        requires
            n == m * a,
            m == d * b,
    ;
    lemma_mod_multiples_basic(b * a, d);
    lemma_mul_is_commutative(d, b * a);
}

/// A number with a divisor strictly between one and itself has such a divisor whose square
/// does not exceed it.
pub proof fn lemma_small_divisor(n: int, m: int)
    requires
        1 < m < n,
        n % m == 0,
    ensures
        exists|k: int| 2 <= k < n && #[trigger] (n % k) == 0 && k * k <= n,
{
    lemma_fundamental_div_mod(n, m);
    let c = n / m;
    assert(n == m * c);
    assert(c >= 2) by (nonlinear_arith)
        requires
            n == m * c,
            1 < m < n,
    ;
    if m * m <= n {
        assert(2 <= m < n && n % m == 0 && m * m <= n);
    } else {
        assert(c * c <= n && c < n) by (nonlinear_arith)
            requires
                n == m * c,
                m * m > n,
                c >= 2,
                m > 1,
        ;
        lemma_mod_multiples_basic(m, c);
        assert(n % c == 0) by {
            lemma_mul_is_commutative(m, c);
        }
        assert(2 <= c < n && n % c == 0 && c * c <= n);
    }
}

/// Every integer of at least two has a prime divisor not exceeding it.
pub proof fn lemma_prime_divisor(m: int)
    requires
        m >= 2,
    ensures
        exists|p: int| #[trigger] is_prime(p) && m % p == 0 && p <= m,
    decreases m,
{
    if is_prime(m) {
        lemma_mod_self_0(m);
        assert(is_prime(m) && m % m == 0 && m <= m);
    } else {
        let d = choose|d: int| 1 < d < m && #[trigger] (m % d) == 0;
        lemma_prime_divisor(d);
        let p = choose|p: int| is_prime(p) && d % p == 0 && p <= d;
        lemma_divides_transitive(m, d, p);
        assert(is_prime(p) && m % p == 0 && p <= m);
    }
}

/// The distinct prime divisors of n in increasing order.
pub open spec fn is_prime_factor_list(f: Seq<int>, n: int) -> bool {
    &&& forall|i: int| 0 <= i < f.len() ==> #[trigger] is_prime(f[i]) && n % f[i] == 0
    &&& forall|p: int| #[trigger] is_prime(p) && n % p == 0 ==> f.contains(p)
    &&& forall|i: int, j: int| 0 <= i < j < f.len() ==> f[i] < f[j]
}

/// Dividing out a prime keeps every other prime divisor.
pub proof fn lemma_other_prime_survives(n: int, d: int, p: int)
    requires
        n > 0,
        is_prime(d),
        is_prime(p),
        p != d,
        n % d == 0,
        n % p == 0,
    ensures
        (n / d) % p == 0,
{
    lemma_fundamental_div_mod(n, d);
    assert(n == d * (n / d));
    lemma_div_pos_is_pos(n, d);
    lemma_euclid(d, n / d, p);
    if d % p == 0 {
        // p | d with d prime forces p == d
        lemma_mod_bound(d, p);
        if p < d {
            assert(1 < p < d);
        } else {
            lemma_small_mod(d as nat, p as nat);
        }
    }
}

/// Where a^m ≡ 1 (mod q) for some m dividing q − 1, a^(q−2) is the inverse of a modulo q,
/// whether or not q is prime.
pub proof fn lemma_inverse_from_order(a: int, q: int, m: nat)
    requires
        q >= 2,
        m >= 1,
        (q - 1) % (m as int) == 0,
        pow(a, m) % q == 1,
    ensures
        (a * fermat_inverse(a, q)) % q == 1,
{
    let k = ((q - 1) / (m as int)) as nat;
    lemma_fundamental_div_mod(q - 1, m as int);
    assert(m * k == q - 1);
    lemma_pow_multiplies(a, m, k);
    lemma_pow_mod_noop(pow(a, m), k, q);
    lemma1_pow(k);
    lemma_small_mod(1, q as nat);
    lemma_pow_adds(a, 1, (q - 2) as nat);
    lemma_pow1(a);
    lemma_mul_mod_noop_right(a, pow(a, (q - 2) as nat), q);
}

} // verus!
