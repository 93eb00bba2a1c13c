//! Primes of the form `k · 2N + 1` below 2^28, and primitive 2N-th roots of unity.

use vstd::prelude::*;
use vstd::arithmetic::div_mod::*;
use vstd::arithmetic::mul::*;
use vstd::arithmetic::power::*;
use vstd::arithmetic::power2::*;
use crate::algebra::cyclic::lemma_primitive_root_theorem;
use crate::algebra::primes::{
    fermat_inverse,
    is_prime,
    is_prime_factor_list,
    lemma_divides_transitive,
    lemma_other_prime_survives,
    lemma_prime_divisor,
    lemma_small_divisor,
};
use crate::algebra::twiddles::{
    bit_rev,
    has_generator,
    is_generator,
    is_least_generator,
    is_power_table,
    least_generator,
    lemma_least_generator_unique,
    lemma_negacyclic_root,
    negacyclic_root,
};
use crate::bits::{bit_reverse, is_power_of_two, power_of_two_exponent};
use crate::ntt32::arith::{mod_inv_32, mod_pow_32};
use crate::ntt32::context::{all_below32, ints32};

verus! {

/// Trial-division primality test, sufficient for numbers < 2^32.
///
/// For n < 2^28 ≈ 268M, √n < 16384, so the loop is very fast.
pub fn is_prime_32(n: u32) -> (r: bool)
    ensures
        r == is_prime(n as int),
{
    if n < 2 {
        return false;
    }
    if n < 4 {
        proof {
            assert forall|d: int| 1 < d < n implies #[trigger] (n as int % d) != 0 by {
                assert(n == 3 && d == 2);
            }
        }
        return true;
    }
    if n.is_multiple_of(2) || n.is_multiple_of(3) {
        proof {
            if n % 2 == 0 {
                assert(1 < 2 < n && (n as int % 2) == 0);
            } else {
                assert(1 < 3 < n && (n as int % 3) == 0);
            }
        }
        return false;
    }
    proof {
        assert forall|m: int| 2 <= m < 5 implies #[trigger] (n as int % m) != 0 by {
            if m == 4 && n as int % 4 == 0 {
                lemma_divides_transitive(n as int, 4, 2);
            }
        }
    }
    let mut d = 5u32;
    while (d as u64) * (d as u64) <= n as u64
        invariant
            5 <= d <= 65_542,
            d * d <= 65_542 * 65_542,
            d % 6 == 5,
            n >= 4,
            n % 2 != 0,
            n % 3 != 0,
            forall|m: int| 2 <= m < d ==> #[trigger] (n as int % m) != 0,
        decreases 65_542 - d,
    {
        proof {
            assert(d < 65_536) by (nonlinear_arith)
                requires
                    d * d <= n,
                    n <= 0xffff_ffff,
                    d >= 5,
            ;
            assert(d + 2 < n) by (nonlinear_arith)
                requires
                    d * d <= n,
                    d >= 5,
            ;
        }
        if n.is_multiple_of(d) || n.is_multiple_of(d + 2) {
            proof {
                if n % d == 0 {
                    assert(1 < d < n && (n as int % d as int) == 0);
                } else {
                    assert(1 < d + 2 < n && (n as int % (d + 2) as int) == 0);
                }
            }
            return false;
        }
        proof {
            assert forall|m: int| 2 <= m < d + 6 implies #[trigger] (n as int % m) != 0 by {
                if m >= d && m != d && m != d + 2 && n as int % m == 0 {
                    if m == d + 4 {
                        assert(m % 3 == 0);
                        lemma_divides_transitive(n as int, m, 3);
                    } else {
                        assert(m % 2 == 0);
                        lemma_divides_transitive(n as int, m, 2);
                    }
                }
            }
        }
        d += 6;
        proof {
            assert(d * d <= 65_542 * 65_542) by (nonlinear_arith)
                requires
                    5 <= d <= 65_542,
            ;
        }
    }
    proof {
        assert forall|m: int| 1 < m < n implies #[trigger] (n as int % m) != 0 by {
            if n as int % m == 0 {
                lemma_small_divisor(n as int, m);
                let k = choose|k: int| 2 <= k < n && #[trigger] (n as int % k) == 0 && k * k <= n;
                assert(k < d) by (nonlinear_arith)
                    requires
                        k * k <= n,
                        d * d > n,
                        k >= 2,
                        d >= 5,
                ;
            }
        }
    }
    true
}

/// The NTT-friendly primes `k · 2N + 1` for k from `k` down to 1, largest first.
pub open spec fn friendly_primes_desc(two_n: int, k: int) -> Seq<int>
    decreases k,
{
    if k <= 0 {
        Seq::empty()
    } else {
        let c = k * two_n + 1;
        let rest = friendly_primes_desc(two_n, k - 1);
        if is_prime(c) {
            seq![c] + rest
        } else {
            rest
        }
    }
}

/// The NTT-friendly primes below 2^28 for polynomial size N, largest first.
pub open spec fn friendly_primes_28(poly_degree: int) -> Seq<int> {
    friendly_primes_desc(2 * poly_degree, (0x1000_0000 - 1) / (2 * poly_degree))
}

/// The candidates found from k down are primes ≡ 1 (mod 2N), at most k · 2N + 1, in strictly
/// decreasing order.
proof fn lemma_friendly_primes_desc(two_n: int, k: int)
    requires
        two_n >= 1,
    ensures
        forall|i: int|
            0 <= i < friendly_primes_desc(two_n, k).len() ==> {
                let p = #[trigger] friendly_primes_desc(two_n, k)[i];
                &&& is_prime(p)
                &&& (p - 1) % two_n == 0
                &&& p <= k * two_n + 1
            },
        forall|i: int, j: int|
            0 <= i < j < friendly_primes_desc(two_n, k).len() ==> friendly_primes_desc(two_n, k)[i]
                > friendly_primes_desc(two_n, k)[j],
    decreases k,
{
    if k > 0 {
        lemma_friendly_primes_desc(two_n, k - 1);
        let c = k * two_n + 1;
        let rest = friendly_primes_desc(two_n, k - 1);
        let s = friendly_primes_desc(two_n, k);
        assert((k - 1) * two_n + 1 < c) by (nonlinear_arith)
            requires
                two_n >= 1,
                c == k * two_n + 1,
        ;
        assert((c - 1) % two_n == 0) by {
            lemma_mod_multiples_basic(k, two_n);
        }
        assert forall|i: int| 0 <= i < s.len() implies {
            let p = #[trigger] s[i];
            &&& is_prime(p)
            &&& (p - 1) % two_n == 0
            &&& p <= k * two_n + 1
        } by {
            if is_prime(c) && i > 0 {
                assert(s[i] == rest[i - 1]);
            }
        }
        assert forall|i: int, j: int| 0 <= i < j < s.len() implies s[i] > s[j] by {
            if is_prime(c) {
                assert(s[j] == rest[j - 1]);
                if i > 0 {
                    assert(s[i] == rest[i - 1]);
                }
            }
        }
    }
}

/// Law: `generate_primes_28` gives distinct primes below 2^28, each ≡ 1 (mod 2N), largest
/// first.
pub proof fn lemma_generated_primes_28(poly_degree: int, count: int)
    requires
        poly_degree >= 1,
        0 <= count <= friendly_primes_28(poly_degree).len(),
    ensures
        forall|i: int|
            0 <= i < count ==> {
                let p = #[trigger] friendly_primes_28(poly_degree)[i];
                &&& is_prime(p)
                &&& (p - 1) % (2 * poly_degree) == 0
                &&& p < 0x1000_0000
            },
        forall|i: int, j: int|
            0 <= i < j < count ==> friendly_primes_28(poly_degree)[i] > friendly_primes_28(poly_degree)[j],
{
    let two_n = 2 * poly_degree;
    let k = (0x1000_0000 - 1) / two_n;
    lemma_friendly_primes_desc(two_n, k);
    lemma_fundamental_div_mod(0x1000_0000 - 1, two_n);
    lemma_mod_bound(0x1000_0000 - 1, two_n);
    lemma_mul_is_commutative(k, two_n);
    assert forall|i: int| 0 <= i < count implies #[trigger] friendly_primes_28(poly_degree)[i]
        < 0x1000_0000 by {
        let p = friendly_primes_28(poly_degree)[i];
        assert(is_prime(p));
        if p == 0x1000_0000 {
            assert(1 < 2 < p && p % 2 == 0);
        }
    }
}

/// Generates NTT-friendly 28-bit primes of the form `k · 2N + 1`.
///
/// These primes satisfy `q ≡ 1 (mod 2N)`, the necessary condition for
/// the existence of a 2N-th root of unity in Z_q*.
///
/// Primes are returned in descending order (largest first) to maximize
/// the coefficient space for CKKS-like schemes.
pub fn generate_primes_28(poly_degree: usize, count: usize) -> (primes: Vec<u32>)
    requires
        poly_degree >= 1,
        2 * poly_degree <= usize::MAX,
        count <= friendly_primes_28(poly_degree as int).len(),
    ensures
        primes@.map_values(|p: u32| p as int) == friendly_primes_28(poly_degree as int).take(
            count as int,
        ),
{
    if count == 0 {
        let primes: Vec<u32> = Vec::new();
        proof {
            assert(friendly_primes_28(poly_degree as int).take(0) =~= primes@.map_values(
                |p: u32| p as int,
            ));
        }
        return primes;
    }
    let two_n = (2 * poly_degree) as u64;
    let mut primes: Vec<u32> = Vec::with_capacity(count);
    // k_max = (2^28 - 1) / (2N)
    proof {
        assert(1u64 << 28u64 == 0x1000_0000) by (bit_vector);
    }
    let k_max = ((1u64 << 28) - 1) / two_n;
    let ghost all = friendly_primes_28(poly_degree as int);
    // Start from largest k for primes close to 2^28
    let mut k = k_max;
    while k >= 1
        invariant
            two_n == 2 * poly_degree,
            1 <= two_n,
            k <= k_max,
            k_max == (0x1000_0000 - 1) / (two_n as int),
            all == friendly_primes_28(poly_degree as int),
            all == primes@.map_values(|p: u32| p as int) + friendly_primes_desc(two_n as int, k as int),
            count >= 1,
            primes@.len() < count,
            count <= all.len(),
        decreases k,
    {
        proof {
            assert(k * two_n <= k_max * two_n) by (nonlinear_arith)
                requires
                    k <= k_max,
            ;
            assert(k_max * two_n <= 0x1000_0000 - 1) by {
                lemma_fundamental_div_mod(0x1000_0000 - 1, two_n as int);
                lemma_mod_bound(0x1000_0000 - 1, two_n as int);
                lemma_mul_is_commutative(k_max as int, two_n as int);
            }
        }
        let candidate = k * two_n + 1;
        let ghost before = primes@.map_values(|p: u32| p as int);
        if is_prime_32(candidate as u32) {
            primes.push(candidate as u32);
            proof {
                assert(primes@.map_values(|p: u32| p as int) =~= before + seq![candidate as int]);
                assert(friendly_primes_desc(two_n as int, k as int) == seq![candidate as int]
                    + friendly_primes_desc(two_n as int, k - 1));
                assert(all =~= primes@.map_values(|p: u32| p as int) + friendly_primes_desc(
                    two_n as int,
                    k - 1,
                ));
            }
            if primes.len() == count {
                proof {
                    assert(all.take(count as int) =~= primes@.map_values(|p: u32| p as int));
                }
                return primes;
            }
        }
        k -= 1;
    }
    proof {
        assert(friendly_primes_desc(two_n as int, 0) =~= Seq::<int>::empty());
        assert(all =~= primes@.map_values(|p: u32| p as int));
        // every candidate was seen and fewer than `count` were prime: impossible
        assert(false);
    }
    primes
}

/// What remains after trial division up to d (with d² > n) is 1 or one last prime, and
/// completes the list of prime divisors.
proof fn lemma_last_factor(fb: Seq<u32>, n: u32, n0: int, d: int)
    requires
        n >= 1,
        n0 >= 1,
        n0 % (n as int) == 0,
        d >= 3,
        d * d > n,
        forall|i: int|
            0 <= i < fb.len() ==> #[trigger] is_prime(fb[i] as int) && n0 % (fb[i] as int) == 0
                && fb[i] < d,
        forall|i: int, j: int| 0 <= i < j < fb.len() ==> fb[i] < fb[j],
        forall|p: int|
            #[trigger] is_prime(p) && p < d && n0 % p == 0 ==> exists|i: int|
                0 <= i < fb.len() && #[trigger] fb[i] as int == p,
        forall|p: int| #[trigger] is_prime(p) && p < d ==> (n as int) % p != 0,
        forall|p: int| #[trigger] is_prime(p) && p >= d && n0 % p == 0 ==> (n as int) % p == 0,
    ensures
        is_prime_factor_list(
            (if n > 1 {
                fb.push(n)
            } else {
                fb
            }).map_values(|x: u32| x as int),
            n0,
        ),
{
    let out = if n > 1 {
        fb.push(n)
    } else {
        fb
    };
    let f = out.map_values(|x: u32| x as int);
    if n > 1 {
        // n has no prime factor below d and d^2 > n, so n is prime
        assert(is_prime(n as int)) by {
            if !is_prime(n as int) {
                let e = choose|e: int| 1 < e < n && #[trigger] ((n as int) % e) == 0;
                lemma_small_divisor(n as int, e);
                let k = choose|k: int| 2 <= k < n && #[trigger] ((n as int) % k) == 0 && k * k <= n;
                lemma_prime_divisor(k);
                let p = choose|p: int| #[trigger] is_prime(p) && k % p == 0 && p <= k;
                lemma_divides_transitive(n as int, k, p);
                assert(k < d) by (nonlinear_arith)
                    requires
                        k * k <= n,
                        d * d > n,
                        k >= 2,
                        d >= 3,
                ;
            }
        }
        assert(n >= d);
    }
    assert forall|p: int| #[trigger] is_prime(p) && n0 % p == 0 implies f.contains(p) by {
        if p >= d {
            assert((n as int) % p == 0);
            assert(n > 1) by {
                if n == 1 {
                    lemma_small_mod(1, p as nat);
                }
            }
            // n is prime and p | n, so p == n
            assert(p <= n) by {
                if p > n {
                    lemma_small_mod(n as nat, p as nat);
                }
            }
            if p < n {
                assert(1 < p < n);
            }
            assert(f[f.len() - 1] == p);
        } else {
            let i = choose|i: int| 0 <= i < fb.len() && #[trigger] fb[i] as int == p;
            assert(out[i] == fb[i]);
            assert(f[i] == p);
        }
    }
    assert forall|i: int| 0 <= i < f.len() implies #[trigger] is_prime(f[i]) && n0 % f[i] == 0 by {
        assert(f[i] == out[i] as int);
        if i < fb.len() {
            assert(out[i] == fb[i]);
            assert(is_prime(fb[i] as int));
        } else {
            lemma_mod_self_0(n as int);
            lemma_divides_transitive(n0, n as int, n as int);
        }
    }
    assert forall|i: int, j: int| 0 <= i < j < f.len() implies f[i] < f[j] by {
        assert(out[i] == fb[i]);
        assert(is_prime(fb[i] as int));
        if j < fb.len() {
            assert(out[j] == fb[j]);
        }
    }
}

/// Trial-division factorization (32-bit): the distinct prime factors of `n`.
#[verifier::spinoff_prover]
pub(crate) fn small_factor_32(n: u32) -> (factors: Vec<u32>)
    requires
        n >= 1,
    ensures
        is_prime_factor_list(factors@.map_values(|x: u32| x as int), n as int),
{
    let ghost n0 = n as int;
    let mut n = n;
    assert(n0 >= 1);
    let mut factors: Vec<u32> = Vec::new();
    if n.is_multiple_of(2) {
        factors.push(2);
        while n.is_multiple_of(2)
            invariant
                n >= 1,
                n0 >= 1,
                n0 % 2 == 0,
                n0 % (n as int) == 0,
                factors@ == seq![2u32],
                forall|p: int| #[trigger] is_prime(p) && p != 2 && n0 % p == 0 ==> (n as int) % p == 0,
            decreases n,
        {
            proof {
                lemma_fundamental_div_mod(n as int, 2);
                let ghost m = n as int / 2;
                assert forall|p: int| #[trigger] is_prime(p) && p != 2 && n0 % p == 0 implies m % p
                    == 0 by {
                    assert(is_prime(2)) by {
                        assert forall|d: int| 1 < d < 2 implies #[trigger] (2int % d) != 0 by {}
                    }
                    lemma_other_prime_survives(n as int, 2, p);
                }
                assert(n as int == 2 * m);
                assert(m >= 1);
                assert(n0 % m == 0) by {
                    lemma_mod_multiples_basic(2, m);
                    lemma_divides_transitive(n0, n as int, m);
                }
            }
            n /= 2;
        }
    }
    proof {
        assert(is_prime(2)) by {
            assert forall|d: int| 1 < d < 2 implies #[trigger] (2int % d) != 0 by {}
        }
        if n0 % 2 == 0 {
            assert(factors@[0] as int == 2);
        }
    }
    let mut d = 3u32;
    while (d as u64) * (d as u64) <= n as u64
        invariant
            3 <= d <= 65_537,
            d * d <= 65_537 * 65_537,
            d % 2 == 1,
            n >= 1,
            n0 >= 1,
            n0 % (n as int) == 0,
            is_prime(2),
            forall|i: int|
                0 <= i < factors@.len() ==> #[trigger] is_prime(factors@[i] as int) && n0
                    % (factors@[i] as int) == 0 && factors@[i] < d,
            forall|i: int, j: int| 0 <= i < j < factors@.len() ==> factors@[i] < factors@[j],
            forall|p: int|
                #[trigger] is_prime(p) && p < d && n0 % p == 0 ==> exists|i: int|
                    0 <= i < factors@.len() && #[trigger] factors@[i] as int == p,
            forall|p: int| #[trigger] is_prime(p) && p < d ==> (n as int) % p != 0,
            forall|p: int| #[trigger] is_prime(p) && p >= d && n0 % p == 0 ==> (n as int) % p == 0,
        decreases 65_537 - d,
    {
        proof {
            assert(d < 65_536) by (nonlinear_arith)
                requires
                    d * d <= n,
                    n <= 0xffff_ffff,
                    d >= 3,
            ;
        }
        let ghost fl = factors@;
        if n.is_multiple_of(d) {
            proof {
                // d is prime: a smaller prime divisor would divide n
                assert(is_prime(d as int)) by {
                    if !is_prime(d as int) {
                        let e = choose|e: int| 1 < e < d && #[trigger] ((d as int) % e) == 0;
                        lemma_prime_divisor(e);
                        let p = choose|p: int| #[trigger] is_prime(p) && e % p == 0 && p <= e;
                        lemma_divides_transitive(d as int, e, p);
                        lemma_divides_transitive(n as int, d as int, p);
                    }
                }
            }
            factors.push(d);
            let ghost fs = factors@;
            proof {
                assert forall|i: int, j: int| 0 <= i < j < factors@.len() implies factors@[i]
                    < factors@[j] by {
                    assert(factors@[i] == fl[i]);
                    assert(is_prime(fl[i] as int) && fl[i] < d);
                    if j < fl.len() {
                        assert(factors@[j] == fl[j]);
                    }
                }
                assert forall|i: int| 0 <= i < factors@.len() implies #[trigger] is_prime(
                    factors@[i] as int,
                ) && n0 % (factors@[i] as int) == 0 && factors@[i] < d + 2 by {
                    if i < fl.len() {
                        assert(factors@[i] == fl[i]);
                        assert(is_prime(fl[i] as int) && n0 % (fl[i] as int) == 0 && fl[i] < d);
                    } else {
                        assert(factors@[i] == d);
                        lemma_divides_transitive(n0, n as int, d as int);
                    }
                }
                assert(n0 % (d as int) == 0) by {
                    lemma_divides_transitive(n0, n as int, d as int);
                }
                assert forall|p: int| #[trigger] is_prime(p) && p < d + 2 && n0 % p == 0 implies exists|i: int|
                    0 <= i < factors@.len() && #[trigger] factors@[i] as int == p by {
                    if p < d {
                        let i = choose|i: int| 0 <= i < fl.len() && #[trigger] fl[i] as int == p;
                        assert(factors@[i] as int == p);
                    } else if p == d {
                        assert(factors@[fl.len() as int] as int == p);
                    } else {
                        assert(p == d + 1);
                        assert(p % 2 == 0);
                        assert(1 < 2 < p);
                    }
                }
            }
            while n.is_multiple_of(d)
                invariant
                    n >= 1,
                    n0 >= 1,
                    3 <= d,
                    factors@ == fs,
                    is_prime(d as int),
                    n0 % (n as int) == 0,
                    forall|p: int| #[trigger] is_prime(p) && p < d ==> (n as int) % p != 0,
                    forall|p: int|
                        #[trigger] is_prime(p) && p > d && n0 % p == 0 ==> (n as int) % p == 0,
                decreases n,
            {
                proof {
                    lemma_fundamental_div_mod(n as int, d as int);
                    let ghost m = n as int / d as int;
                    if n < d {
                        lemma_small_mod(n as nat, d as nat);
                    }
                    lemma_div_pos_is_pos(n as int, d as int);
                    assert(n as int == d * m);
                    assert(m >= 1) by (nonlinear_arith)
                        requires
                            n == d * m,
                            n >= 1,
                            m >= 0,
                    ;
                    assert(m < n) by (nonlinear_arith)
                        requires
                            n == d * m,
                            d >= 3,
                            n >= 1,
                    ;
                    assert forall|p: int| #[trigger] is_prime(p) && p > d && n0 % p == 0 implies m
                        % p == 0 by {
                        lemma_other_prime_survives(n as int, d as int, p);
                    }
                    assert forall|p: int| #[trigger] is_prime(p) && p < d implies m % p != 0 by {
                        lemma_mod_multiples_basic(d as int, m);
                        if m % p == 0 {
                            lemma_divides_transitive(n as int, m, p);
                        }
                    }
                    assert(n0 % m == 0) by {
                        lemma_mod_multiples_basic(d as int, m);
                        lemma_divides_transitive(n0, n as int, m);
                    }
                }
                n /= d;
            }
        } else {
            proof {
                assert forall|p: int| #[trigger] is_prime(p) && p < d + 2 && n0 % p == 0 implies exists|i: int|
                    0 <= i < factors@.len() && #[trigger] factors@[i] as int == p by {
                    if p == d {
                        lemma_divides_transitive(n0, n as int, p);
                        assert(false) by {
                            // p >= d and p | n0 give p | n, but n % d != 0
                        }
                    } else if p == d + 1 {
                        assert(p % 2 == 0);
                        assert(1 < 2 < p);
                    }
                }
            }
        }
        proof {
            assert forall|p: int| #[trigger] is_prime(p) && p < d + 2 implies (n as int) % p != 0 by {
                if p == d + 1 {
                    assert(p % 2 == 0);
                    assert(1 < 2 < p);
                }
            }
        }
        d += 2;
        proof {
            assert(d * d <= 65_537 * 65_537) by (nonlinear_arith)
                requires
                    3 <= d <= 65_537,
            ;
        }
    }
    let ghost fb = factors@;
    proof {
        assert forall|i: int| 0 <= i < fb.len() implies #[trigger] is_prime(fb[i] as int) && n0 % (
        fb[i] as int) == 0 && fb[i] < d by {
            assert(is_prime(factors@[i] as int));
        }
        lemma_last_factor(fb, n, n0, d as int);
    }
    if n > 1 {
        factors.push(n);
    }
    factors
}

/// Whether g passes the generator test for every prime in `prime_factors`.
fn passes_generator_test(g: u32, q: u32, prime_factors: &[u32]) -> (ok: bool)
    requires
        2 <= g < q,
        is_prime_factor_list(prime_factors@.map_values(|x: u32| x as int), q - 1),
    ensures
        ok == is_generator(g as int, q as int),
{
    let q_minus_1 = q - 1;
    let ghost f = prime_factors@.map_values(|x: u32| x as int);
    let mut j: usize = 0;
    while j < prime_factors.len()
        invariant
            2 <= g < q,
            q_minus_1 == q - 1,
            f == prime_factors@.map_values(|x: u32| x as int),
            is_prime_factor_list(f, q - 1),
            0 <= j <= prime_factors@.len(),
            forall|k: int|
                0 <= k < j ==> pow(g as int, ((q - 1) / (#[trigger] prime_factors@[k] as int)) as nat)
                    % (q as int) != 1,
        decreases prime_factors@.len() - j,
    {
        let p = prime_factors[j];
        proof {
            assert(f[j as int] == p as int);
            assert(0 <= j < f.len());
            assert(is_prime(f[j as int]));
            assert((q - 1) % f[j as int] == 0);
            assert(p <= q - 1) by {
                if p > q - 1 {
                    lemma_small_mod((q - 1) as nat, p as nat);
                }
            }
            lemma_div_pos_is_pos((q - 1) as int, p as int);
            lemma_div_is_ordered(p as int, (q - 1) as int, p as int);
            lemma_div_by_self(p as int);
        }
        let exp = q_minus_1 / p;
        if mod_pow_32(g, exp, q) == 1 {
            return false;
        }
        j += 1;
    }
    proof {
        assert forall|p: int| #[trigger] is_prime(p) && (q - 1) % p == 0 implies pow(
            g as int,
            ((q - 1) / p) as nat,
        ) % (q as int) != 1 by {
            assert(f.contains(p));
            let k = choose|k: int| 0 <= k < f.len() && f[k] == p;
            assert(prime_factors@[k] as int == p);
        }
    }
    true
}

/// Finds the least generator of Z_q* by trial: the first g in [2, q) with
/// `g^((q-1)/p) ≠ 1` for every prime factor p of q-1, or `None` when there is none.
fn find_generator_32(q: u32, prime_factors: &[u32]) -> (g: Option<u32>)
    requires
        q >= 2,
        is_prime_factor_list(prime_factors@.map_values(|x: u32| x as int), q - 1),
    ensures
        match g {
            Some(g) => is_least_generator(g as int, q as int),
            None => !has_generator(q as int),
        },
{
    let mut g: u32 = 2;
    while g < q
        invariant
            2 <= g,
            q >= 2,
            g <= q || q == 2,
            is_prime_factor_list(prime_factors@.map_values(|x: u32| x as int), q - 1),
            forall|h: int| 2 <= h < g ==> !#[trigger] is_generator(h, q as int),
        decreases q - g,
    {
        if passes_generator_test(g, q, prime_factors) {
            return Some(g);
        }
        g += 1;
    }
    proof {
        assert forall|h: int| !#[trigger] is_generator(h, q as int) by {
            if 2 <= h < q {
                assert(h < g);
            }
        }
    }
    None
}

/// The root search, reporting `None` when Z_q* has no generator.
fn try_primitive_root(n: usize, q: u32) -> (psi: Option<u32>)
    requires
        n >= 1,
        2 * n <= u32::MAX,
        q >= 2,
        (q - 1) % (2 * n as int) == 0,
    ensures
        match psi {
            Some(psi) => has_generator(q as int) && psi == negacyclic_root(n as int, q as int),
            None => !has_generator(q as int),
        },
{
    let two_n = 2 * n as u32;
    let q_minus_1 = q - 1;
    let prime_factors = small_factor_32(q_minus_1);
    match find_generator_32(q, &prime_factors) {
        None => None,
        Some(g) => {
            let exp = q_minus_1 / two_n;
            let psi = mod_pow_32(g, exp, q);
            proof {
                lemma_least_generator_unique(g as int, q as int);
                if exp == 0 {
                    lemma_pow0(g as int);
                    lemma_small_mod(1, q as nat);
                }
            }
            Some(psi)
        },
    }
}

/// Finds a primitive 2N-th root of unity modulo q (32-bit).
///
/// Returns ψ such that:
/// - `ψ^(2N) ≡ 1 (mod q)`
/// - `ψ^N ≡ -1 (mod q)`, i.e. `ψ^N ≡ q - 1`
///
/// # Algorithm
/// 1. Factorize q - 1
/// 2. Find a generator g of Z_q* by trial
/// 3. Compute ψ = g^((q-1)/(2N))
pub fn find_primitive_root(n: usize, q: u32) -> (psi: u32)
    requires
        n >= 1,
        2 * n <= u32::MAX,
        q >= 2,
        (q - 1) % (2 * n as int) == 0,
        has_generator(q as int),
    ensures
        psi == negacyclic_root(n as int, q as int),
        psi < q,
        is_prime(q as int) ==> psi > 0 && pow(psi as int, n as nat) % (q as int) == q - 1 && pow(
            psi as int,
            2 * n as nat,
        ) % (q as int) == 1,
{
    match try_primitive_root(n, q) {
        Some(psi) => {
            proof {
                let g = least_generator(q as int);
                lemma_mod_bound(pow(g, ((q - 1) / (2 * n as int)) as nat), q as int);
                if is_prime(q as int) {
                    lemma_negacyclic_root(n as nat, q as int);
                }
            }
            psi
        },
        None => {
            proof {
                assert(false);
            }
            0
        },
    }
}

/// Internal NTT context for a single 28-bit prime.
///
/// Stores precomputed twiddle factors (root powers) in Longa-Naehrig ordering
/// for sequential access during the butterfly operations.
#[derive(Debug, Clone)]
pub struct NttRootTable {
    /// Polynomial size (power of 2)
    pub n: usize,
    /// log2(n)
    pub log_n: u32,
    /// Prime < 2^28
    pub q: u32,
    /// Forward root powers in Longa-Naehrig ordering:
    /// `root_powers[m + i]` = twiddle factor for group i at layer m.
    pub root_powers: Vec<u32>,
    /// Inverse root powers for INTT
    pub inv_root_powers: Vec<u32>,
    /// N^{-1} mod q — normalization factor for INTT
    pub n_inv: u32,
}

impl NttRootTable {
    /// The table holds the powers of ψ and of its inverse in bit-reversed order, and N^-1,
    /// for size N = 2^log_n and modulus q.
    pub open spec fn holds_powers_of(&self, n: int, q: int, psi: int) -> bool {
        &&& self.n == n
        &&& self.q == q
        &&& 1 <= self.log_n <= 27
        &&& self.n == pow2(self.log_n as nat)
        &&& is_power_table(ints32(self.root_powers@), psi, q, self.log_n as nat)
        &&& is_power_table(ints32(self.inv_root_powers@), fermat_inverse(psi, q), q, self.log_n as nat)
        &&& all_below32(self.root_powers@, q)
        &&& all_below32(self.inv_root_powers@, q)
        &&& self.n_inv == fermat_inverse(n, q)
    }

    /// Builds the tables for a given root ψ.
    fn with_root(n: usize, log_n: u32, q: u32, psi: u32) -> (t: Self)
        requires
            1 <= log_n <= 27,
            n == pow2(log_n as nat),
            2 <= q < 0x1000_0000,
            0 < psi < q,
        ensures
            t.holds_powers_of(n as int, q as int, psi as int),
    {
        let psi_inv = mod_inv_32(psi, q);
        proof {
            lemma_pow2_strictly_increases(log_n as nat, 32);
            lemma2_to64();
            lemma_pow2_pos(log_n as nat);
            lemma_mod_bound(pow(psi as int, (q - 2) as nat), q as int);
        }
        let n_inv = mod_inv_32(n as u32, q);
        let mut root_powers: Vec<u32> = Vec::with_capacity(n);
        let mut inv_root_powers: Vec<u32> = Vec::with_capacity(n);
        let mut i: usize = 0;
        while i < n
            invariant
                1 <= log_n <= 27,
                n == pow2(log_n as nat),
                n < 0x1_0000_0000,
                2 <= q < 0x1000_0000,
                psi_inv == fermat_inverse(psi as int, q as int),
                0 <= i <= n,
                root_powers@.len() == i,
                inv_root_powers@.len() == i,
                forall|k: int|
                    0 <= k < i ==> #[trigger] root_powers@[k] as int == pow(
                        psi as int,
                        bit_rev(k as nat, log_n as nat),
                    ) % (q as int),
                forall|k: int|
                    0 <= k < i ==> #[trigger] inv_root_powers@[k] as int == pow(
                        psi_inv as int,
                        bit_rev(k as nat, log_n as nat),
                    ) % (q as int),
            decreases n - i,
        {
            let exp = bit_reverse(i as u32, log_n);
            let w = mod_pow_32(psi, exp, q);
            let w_inv = mod_pow_32(psi_inv, exp, q);
            proof {
                if exp == 0 {
                    lemma_pow0(psi as int);
                    lemma_pow0(psi_inv as int);
                    lemma_small_mod(1, q as nat);
                }
            }
            root_powers.push(w);
            inv_root_powers.push(w_inv);
            i += 1;
        }
        let t = NttRootTable { n, log_n, q, root_powers, inv_root_powers, n_inv };
        proof {
            assert forall|k: int| 0 <= k < t.root_powers@.len() implies #[trigger] t.root_powers@[k]
                < q by {
                lemma_mod_bound(pow(psi as int, bit_rev(k as nat, log_n as nat)), q as int);
            }
            assert forall|k: int| 0 <= k < t.inv_root_powers@.len() implies
                #[trigger] t.inv_root_powers@[k] < q by {
                lemma_mod_bound(pow(psi_inv as int, bit_rev(k as nat, log_n as nat)), q as int);
            }
            let w = ints32(t.root_powers@);
            assert forall|k: int| 0 <= k < w.len() implies #[trigger] w[k] == pow(
                psi as int,
                bit_rev(k as nat, log_n as nat),
            ) % (q as int) by {
                assert(w[k] == t.root_powers@[k] as int);
            }
            let wi = ints32(t.inv_root_powers@);
            assert forall|k: int| 0 <= k < wi.len() implies #[trigger] wi[k] == pow(
                fermat_inverse(psi as int, q as int),
                bit_rev(k as nat, log_n as nat),
            ) % (q as int) by {
                assert(wi[k] == t.inv_root_powers@[k] as int);
            }
        }
        t
    }

    /// Creates a new root table for a 28-bit prime.
    pub fn new(n: usize, q: u32) -> (t: Self)
        requires
            n >= 2,
            is_power_of_two(n as int),
            q < 0x1000_0000,
            (q - 1) % (2 * n as int) == 0,
            has_generator(q as int),
            negacyclic_root(n as int, q as int) != 0,
        ensures
            t.holds_powers_of(n as int, q as int, negacyclic_root(n as int, q as int)),
    {
        let log_n = match power_of_two_exponent(n) {
            Some(k) => k,
            None => {
                proof {
                    assert(false);
                }
                0
            },
        };
        proof {
            let g = choose|g: int| #[trigger] is_generator(g, q as int);
            if q - 1 < 2 * n {
                lemma_small_mod((q - 1) as nat, (2 * n) as nat);
            }
            if log_n < 28 {
                lemma_pow2_strictly_increases(log_n as nat, 28);
            }
            lemma_pow2_pos(log_n as nat);
            lemma2_to64();
            if log_n > 28 {
                lemma_pow2_strictly_increases(28, log_n as nat);
            }
        }
        let psi = find_primitive_root(n, q);
        NttRootTable::with_root(n, log_n, q, psi)
    }

    /// The root table for a prime q: the root is found by the generator search, which for a
    /// prime always succeeds.
    pub(crate) fn search(n: usize, log_n: u32, q: u32) -> (t: Self)
        requires
            1 <= log_n <= 27,
            n == pow2(log_n as nat),
            q < 0x1000_0000,
            is_prime(q as int),
            (q - 1) % (2 * n as int) == 0,
        ensures
            t.holds_powers_of(n as int, q as int, negacyclic_root(n as int, q as int)),
    {
        proof {
            lemma2_to64();
            lemma_pow2_strictly_increases(log_n as nat, 32);
            lemma_negacyclic_root(n as nat, q as int);
            assert(q >= 3) by {
                if q == 2 {
                    lemma_small_mod(1, (2 * n) as nat);
                }
            }
            lemma_primitive_root_theorem(q as int);
        }
        let psi = find_primitive_root(n, q);
        NttRootTable::with_root(n, log_n, q, psi)
    }
}

} // verus!
